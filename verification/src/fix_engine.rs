//! FIX 4.4 message builders. Every message is assembled as a body of
//! `tag=value<SOH>` fields and sealed between a `8=FIX.4.4|9=BodyLength`
//! prefix and a `10=checksum` trailer; the BodyLength and checksum values
//! are proved correct against the final byte sequence.

use vstd::prelude::*;
use crate::wire::{
    SOH, is_sep, all_digits, dec_digits, digits_val, sum_bytes, cs3,
    u64_to_dec, checksum_mod256, cs3_bytes, lemma_dec_digits_ok, lemma_cs3_ok,
    tag_match_at, find_from, sep_from, spec_tag_value, is_digit,
};

verus! {

/// One wire field: `<tag digits>=<value><SOH>`.
pub open spec fn field(tag: nat, value: Seq<u8>) -> Seq<u8> {
    dec_digits(tag) + seq![61u8] + value + seq![SOH]
}

/// The protocol identifier "FIX.4.4".
pub open spec fn fix44() -> Seq<u8> {
    seq![70u8, 73u8, 88u8, 46u8, 52u8, 46u8, 52u8]
}

/// A whole message: header, BodyLength over the body, the body, and the
/// modulo-256 checksum over everything before the checksum field.
pub open spec fn framed(body: Seq<u8>) -> Seq<u8> {
    let pre = field(8, fix44()) + field(9, dec_digits(body.len())) + body;
    pre + field(10, cs3(sum_bytes(pre) % 256))
}

/// Appends one field to a buffer.
fn push_field(buf: &mut Vec<u8>, tag: u64, value: &[u8])
    ensures
        final(buf)@ == old(buf)@ + field(tag as nat, value@),
{
    let mut d = u64_to_dec(tag);
    buf.append(&mut d);
    buf.push(61);
    buf.extend_from_slice(value);
    buf.push(SOH);
    proof {
        assert(buf@ =~= old(buf)@ + field(tag as nat, value@));
    }
}

/// Appends one field with a single-byte value.
fn push_field1(buf: &mut Vec<u8>, tag: u64, b: u8)
    ensures
        final(buf)@ == old(buf)@ + field(tag as nat, seq![b]),
{
    let mut d = u64_to_dec(tag);
    buf.append(&mut d);
    buf.push(61);
    buf.push(b);
    buf.push(SOH);
    proof {
        assert(buf@ =~= old(buf)@ + field(tag as nat, seq![b]));
    }
}

/// Appends one field with a two-byte value.
fn push_field2(buf: &mut Vec<u8>, tag: u64, b0: u8, b1: u8)
    ensures
        final(buf)@ == old(buf)@ + field(tag as nat, seq![b0, b1]),
{
    let mut d = u64_to_dec(tag);
    buf.append(&mut d);
    buf.push(61);
    buf.push(b0);
    buf.push(b1);
    buf.push(SOH);
    proof {
        assert(buf@ =~= old(buf)@ + field(tag as nat, seq![b0, b1]));
    }
}

/// The protocol identifier as runtime bytes.
fn fix44_bytes() -> (r: Vec<u8>)
    ensures
        r@ == fix44(),
{
    let mut r: Vec<u8> = Vec::new();
    r.push(70);
    r.push(73);
    r.push(88);
    r.push(46);
    r.push(52);
    r.push(46);
    r.push(52);
    proof {
        assert(r@ =~= fix44());
    }
    r
}

/// Seals a message body: writes the protocol header, the BodyLength of the
/// body, the body itself, and the checksum field.
pub fn seal_message(body: Vec<u8>) -> (msg: Vec<u8>)
    ensures
        msg@ == framed(body@),
{
    let ghost b0 = body@;
    let mut body = body;
    let mut msg: Vec<u8> = Vec::new();
    let fixv = fix44_bytes();
    push_field(&mut msg, 8, fixv.as_slice());
    let ld = u64_to_dec(body.len() as u64);
    push_field(&mut msg, 9, ld.as_slice());
    msg.append(&mut body);
    proof {
        assert(msg@ =~= field(8, fix44()) + field(9, dec_digits(b0.len())) + b0);
    }
    let cs = checksum_mod256(msg.as_slice());
    let c3 = cs3_bytes(cs);
    push_field(&mut msg, 10, c3.as_slice());
    proof {
        assert(msg@ =~= framed(b0));
    }
    msg
}

/// Start of the body region inside a framed message: the protocol header
/// is 10 bytes, then `9=`, the BodyLength digits and a separator.
pub open spec fn framed_body_start(body: Seq<u8>) -> int {
    13 + dec_digits(body.len()).len() as int
}

/// For every built message the framing is self-describing: the BodyLength
/// digits parse back to the byte count between the separator that ends the
/// BodyLength field and the separator that precedes the checksum field,
/// and the checksum digits parse back to the byte sum of everything before
/// the checksum field, modulo 256.
pub proof fn lemma_framed_body_length_and_checksum(body: Seq<u8>)
    ensures
        ({
            let msg = framed(body);
            let dlen = dec_digits(body.len()).len() as int;
            let bs = framed_body_start(body);
            &&& msg.len() == bs + body.len() + 7
            &&& msg.subrange(bs, bs + body.len()) == body
            &&& all_digits(msg.subrange(12, 12 + dlen))
            &&& digits_val(msg.subrange(12, 12 + dlen)) == body.len()
            &&& msg[12 + dlen] == SOH
            &&& msg[msg.len() - 7] == 49u8 && msg[msg.len() - 6] == 48u8
                && msg[msg.len() - 5] == 61u8
            &&& all_digits(msg.subrange(msg.len() - 4, msg.len() - 1))
            &&& digits_val(msg.subrange(msg.len() - 4, msg.len() - 1))
                == sum_bytes(msg.subrange(0, bs + body.len())) % 256
            &&& msg.last() == SOH
        }),
{
    let msg = framed(body);
    let d9 = dec_digits(body.len());
    let dlen = d9.len() as int;
    let bs = framed_body_start(body);
    let pre = field(8, fix44()) + field(9, d9) + body;
    let cs = sum_bytes(pre) % 256;
    vstd::arithmetic::div_mod::lemma_mod_bound(sum_bytes(pre), 256);
    vstd::arithmetic::div_mod::lemma_mod_is_mod_recursive(sum_bytes(pre), 256);
    assert(0 <= cs < 256) by {
        vstd::arithmetic::div_mod::lemma_mod_bound(sum_bytes(pre), 256);
    }
    lemma_cs3_ok(cs);
    lemma_dec_digits_ok(body.len());
    lemma_dec_digits_ok(8);
    lemma_dec_digits_ok(9);
    lemma_dec_digits_ok(10);
    assert(dec_digits(8nat) =~= seq![56u8]);
    assert(dec_digits(9nat) =~= seq![57u8]);
    assert(dec_digits(1nat) =~= seq![49u8]);
    assert(dec_digits(10nat) =~= seq![49u8, 48u8]);
    assert(field(8, fix44()).len() == 10);
    assert(field(9, d9).len() == 2 + dlen + 1);
    assert(msg.len() == bs + body.len() + 7);
    assert(msg.subrange(bs, bs + body.len()) =~= body);
    assert(msg.subrange(12, 12 + dlen) =~= d9);
    assert(msg[12 + dlen] == SOH);
    assert(msg[msg.len() - 7] == 49u8);
    assert(msg[msg.len() - 6] == 48u8);
    assert(msg[msg.len() - 5] == 61u8);
    assert(msg.subrange(msg.len() - 4, msg.len() - 1) =~= cs3(cs));
    assert(msg.subrange(0, bs + body.len()) =~= pre);
    assert(msg.last() == SOH);
}

/// Index just past the last '.' in `s`; 0 when `s` has no dot, so the
/// component after the last dot is the whole string.
pub open spec fn dot_start(s: Seq<u8>) -> int
    decreases s.len(),
{
    if s.len() == 0 {
        0int
    } else if s.last() == 46u8 {
        s.len() as int
    } else {
        dot_start(s.drop_last())
    }
}

pub proof fn lemma_dot_start_bounds(s: Seq<u8>)
    ensures
        0 <= dot_start(s) <= s.len(),
    decreases s.len(),
{
    if s.len() > 0 && s.last() != 46u8 {
        lemma_dot_start_bounds(s.drop_last());
    }
}

/// The numeric account in a dotted sender id: the component after the
/// last dot (the whole id when there is no dot).
pub open spec fn account_of(s: Seq<u8>) -> Seq<u8> {
    s.subrange(dot_start(s), s.len() as int)
}

/// Extracts the component after the last '.' of `s`.
pub fn after_last_dot(s: &[u8]) -> (r: Vec<u8>)
    ensures
        r@ == account_of(s@),
{
    proof {
        lemma_dot_start_bounds(s@);
    }
    let n = s.len();
    let mut i: usize = n;
    proof {
        assert(s@.subrange(0, n as int) =~= s@);
    }
    while i > 0 && s[i - 1] != 46
        invariant
            0 <= i <= n,
            n == s@.len(),
            dot_start(s@) == dot_start(s@.subrange(0, i as int)),
        decreases i,
    {
        proof {
            assert(s@.subrange(0, i as int).drop_last() =~= s@.subrange(0, i - 1));
            assert(s@.subrange(0, i as int).last() == s@[i - 1]);
        }
        i = i - 1;
    }
    proof {
        if i == 0 {
            assert(dot_start(s@.subrange(0, 0)) == 0);
        } else {
            assert(s@.subrange(0, i as int).last() == s@[i - 1]);
            assert(dot_start(s@.subrange(0, i as int)) == i);
        }
    }
    let mut r: Vec<u8> = Vec::new();
    let mut p: usize = i;
    while p < n
        invariant
            i <= p <= n,
            n == s@.len(),
            r@ == s@.subrange(i as int, p as int),
        decreases n - p,
    {
        proof {
            assert(s@.subrange(i as int, p + 1)
                =~= s@.subrange(i as int, p as int).push(s@[p as int]));
        }
        r.push(s[p]);
        p = p + 1;
    }
    r
}

/// The fixed market-data request id.
pub open spec fn md_req_id() -> Seq<u8> {
    seq![82u8, 69u8, 81u8, 95u8, 71u8, 65u8, 85u8, 83u8, 83u8, 95u8, 48u8, 49u8]
}

fn md_req_id_bytes() -> (r: Vec<u8>)
    ensures
        r@ == md_req_id(),
{
    let mut r: Vec<u8> = Vec::new();
    r.push(82);
    r.push(69);
    r.push(81);
    r.push(95);
    r.push(71);
    r.push(65);
    r.push(85);
    r.push(83);
    r.push(83);
    r.push(95);
    r.push(48);
    r.push(49);
    proof {
        assert(r@ =~= md_req_id());
    }
    r
}

/// Body of a Logon (35=A): credentials, sub ids, sequence 1, a 30 second
/// heartbeat interval, the numeric account from the sender id, and
/// ResetSeqNumFlag=Y.
pub open spec fn logon_body(
    sender: Seq<u8>, target: Seq<u8>, sub: Seq<u8>, password: Seq<u8>, stamp: Seq<u8>,
) -> Seq<u8> {
    field(35, seq![65u8]) + field(49, sender) + field(56, target) + field(50, sub)
        + field(57, sub) + field(34, seq![49u8]) + field(52, stamp)
        + field(98, seq![48u8]) + field(108, seq![51u8, 48u8])
        + field(553, account_of(sender)) + field(554, password) + field(141, seq![89u8])
}

/// Body of a Heartbeat (35=0).
pub open spec fn heartbeat_body(
    sender: Seq<u8>, target: Seq<u8>, seq_num: nat, stamp: Seq<u8>,
) -> Seq<u8> {
    field(35, seq![48u8]) + field(49, sender) + field(56, target)
        + field(34, dec_digits(seq_num)) + field(52, stamp)
}

/// Body of a MarketDataRequest (35=V): subscribe (263=1) to the full book
/// (264=0) incrementally (265=1), bid and ask entry kinds, one symbol.
pub open spec fn market_data_request_body(
    sender: Seq<u8>, target: Seq<u8>, seq_num: nat, symbol: Seq<u8>, stamp: Seq<u8>,
) -> Seq<u8> {
    field(35, seq![86u8]) + field(49, sender) + field(56, target)
        + field(34, dec_digits(seq_num)) + field(52, stamp)
        + field(262, md_req_id()) + field(263, seq![49u8]) + field(264, seq![48u8])
        + field(265, seq![49u8]) + field(267, seq![50u8]) + field(269, seq![48u8])
        + field(269, seq![49u8]) + field(146, seq![49u8]) + field(55, symbol)
}

/// Wire byte for an order side character.
pub open spec fn side_byte(side: char) -> u8 {
    if side == '1' {
        49u8
    } else {
        50u8
    }
}

/// Body of a NewOrderSingle (35=D): market order (40=1), good till cancel
/// (59=1), automated handling (21=1).
pub open spec fn order_body(
    sender: Seq<u8>, target: Seq<u8>, seq_num: nat, cl_ord_id: Seq<u8>,
    symbol: Seq<u8>, side: char, qty: nat, stamp: Seq<u8>,
) -> Seq<u8> {
    field(35, seq![68u8]) + field(49, sender) + field(56, target)
        + field(34, dec_digits(seq_num)) + field(52, stamp)
        + field(11, cl_ord_id) + field(21, seq![49u8]) + field(55, symbol)
        + field(54, seq![side_byte(side)]) + field(60, stamp)
        + field(38, dec_digits(qty)) + field(40, seq![49u8]) + field(59, seq![49u8])
}

/// Stateless FIX 4.4 encoder for the four outbound message kinds.
pub struct FixEngine {}

impl FixEngine {
    pub fn new() -> (e: FixEngine) {
        FixEngine {}
    }

    /// Builds a Logon message into the caller's buffer, replacing its
    /// contents, with the given UTC timestamp for tag 52.
    pub fn build_logon_at(
        &self, buffer: &mut Vec<u8>, sender_id: &[u8], target_id: &[u8],
        sender_sub_id: &[u8], password: &[u8], now_stamp: &[u8],
    )
        ensures
            final(buffer)@ == framed(logon_body(
                sender_id@, target_id@, sender_sub_id@, password@, now_stamp@)),
    {
        let mut body: Vec<u8> = Vec::new();
        push_field1(&mut body, 35, 65);
        push_field(&mut body, 49, sender_id);
        push_field(&mut body, 56, target_id);
        push_field(&mut body, 50, sender_sub_id);
        push_field(&mut body, 57, sender_sub_id);
        push_field1(&mut body, 34, 49);
        push_field(&mut body, 52, now_stamp);
        push_field1(&mut body, 98, 48);
        push_field2(&mut body, 108, 51, 48);
        let account = after_last_dot(sender_id);
        push_field(&mut body, 553, account.as_slice());
        push_field(&mut body, 554, password);
        push_field1(&mut body, 141, 89);
        proof {
            assert(body@ =~= logon_body(
                sender_id@, target_id@, sender_sub_id@, password@, now_stamp@));
        }
        let msg = seal_message(body);
        *buffer = msg;
    }

    /// Builds a Heartbeat message into the caller's buffer.
    pub fn build_heartbeat_at(
        &self, buffer: &mut Vec<u8>, sender_id: &[u8], target_id: &[u8],
        seq_num: u64, now_stamp: &[u8],
    )
        ensures
            final(buffer)@ == framed(heartbeat_body(
                sender_id@, target_id@, seq_num as nat, now_stamp@)),
    {
        let mut body: Vec<u8> = Vec::new();
        push_field1(&mut body, 35, 48);
        push_field(&mut body, 49, sender_id);
        push_field(&mut body, 56, target_id);
        let sq = u64_to_dec(seq_num);
        push_field(&mut body, 34, sq.as_slice());
        push_field(&mut body, 52, now_stamp);
        proof {
            assert(body@ =~= heartbeat_body(
                sender_id@, target_id@, seq_num as nat, now_stamp@));
        }
        let msg = seal_message(body);
        *buffer = msg;
    }

    /// Builds a MarketDataRequest subscription into the caller's buffer.
    pub fn build_market_data_request_at(
        &self, buffer: &mut Vec<u8>, sender_id: &[u8], target_id: &[u8],
        seq_num: u64, symbol: &[u8], now_stamp: &[u8],
    )
        ensures
            final(buffer)@ == framed(market_data_request_body(
                sender_id@, target_id@, seq_num as nat, symbol@, now_stamp@)),
    {
        let mut body: Vec<u8> = Vec::new();
        push_field1(&mut body, 35, 86);
        push_field(&mut body, 49, sender_id);
        push_field(&mut body, 56, target_id);
        let sq = u64_to_dec(seq_num);
        push_field(&mut body, 34, sq.as_slice());
        push_field(&mut body, 52, now_stamp);
        let rid = md_req_id_bytes();
        push_field(&mut body, 262, rid.as_slice());
        push_field1(&mut body, 263, 49);
        push_field1(&mut body, 264, 48);
        push_field1(&mut body, 265, 49);
        push_field1(&mut body, 267, 50);
        push_field1(&mut body, 269, 48);
        push_field1(&mut body, 269, 49);
        push_field1(&mut body, 146, 49);
        push_field(&mut body, 55, symbol);
        proof {
            assert(body@ =~= market_data_request_body(
                sender_id@, target_id@, seq_num as nat, symbol@, now_stamp@));
        }
        let msg = seal_message(body);
        *buffer = msg;
    }

    /// Builds a NewOrderSingle market order into the caller's buffer.
    pub fn build_order_request_at(
        &self, buffer: &mut Vec<u8>, sender_id: &[u8], target_id: &[u8],
        seq_num: u64, cl_ord_id: &[u8], symbol: &[u8], side: char, qty: u64,
        now_stamp: &[u8],
    )
        requires
            side == '1' || side == '2',
        ensures
            final(buffer)@ == framed(order_body(
                sender_id@, target_id@, seq_num as nat, cl_ord_id@, symbol@,
                side, qty as nat, now_stamp@)),
    {
        let mut body: Vec<u8> = Vec::new();
        push_field1(&mut body, 35, 68);
        push_field(&mut body, 49, sender_id);
        push_field(&mut body, 56, target_id);
        let sq = u64_to_dec(seq_num);
        push_field(&mut body, 34, sq.as_slice());
        push_field(&mut body, 52, now_stamp);
        push_field(&mut body, 11, cl_ord_id);
        push_field1(&mut body, 21, 49);
        push_field(&mut body, 55, symbol);
        let sb: u8 = if side == '1' { 49 } else { 50 };
        push_field1(&mut body, 54, sb);
        push_field(&mut body, 60, now_stamp);
        let qd = u64_to_dec(qty);
        push_field(&mut body, 38, qd.as_slice());
        push_field1(&mut body, 40, 49);
        push_field1(&mut body, 59, 49);
        proof {
            assert(body@ =~= order_body(
                sender_id@, target_id@, seq_num as nat, cl_ord_id@, symbol@,
                side, qty as nat, now_stamp@));
        }
        let msg = seal_message(body);
        *buffer = msg;
    }
}

impl FixEngine {
    /// Builds a Logon stamped with the wall clock.
    pub fn build_logon(
        &self, buffer: &mut Vec<u8>, sender_id: &[u8], target_id: &[u8],
        sender_sub_id: &[u8], password: &[u8],
    )
        ensures
            exists|st: Seq<u8>| #[trigger] crate::clock::stamp_ok(st)
                && final(buffer)@ == framed(logon_body(
                    sender_id@, target_id@, sender_sub_id@, password@, st)),
    {
        let stamp = crate::clock::utc_stamp_seconds();
        self.build_logon_at(buffer, sender_id, target_id, sender_sub_id, password,
            stamp.as_slice());
    }

    /// Builds a Heartbeat stamped with the wall clock.
    pub fn build_heartbeat(
        &self, buffer: &mut Vec<u8>, sender_id: &[u8], target_id: &[u8], seq_num: u64,
    )
        ensures
            exists|st: Seq<u8>| #[trigger] crate::clock::stamp_ok(st)
                && final(buffer)@ == framed(heartbeat_body(
                    sender_id@, target_id@, seq_num as nat, st)),
    {
        let stamp = crate::clock::utc_stamp_seconds();
        self.build_heartbeat_at(buffer, sender_id, target_id, seq_num, stamp.as_slice());
    }

    /// Builds a MarketDataRequest stamped with the wall clock.
    pub fn build_market_data_request(
        &self, buffer: &mut Vec<u8>, sender_id: &[u8], target_id: &[u8],
        seq_num: u64, symbol: &[u8],
    )
        ensures
            exists|st: Seq<u8>| #[trigger] crate::clock::stamp_ok(st)
                && final(buffer)@ == framed(market_data_request_body(
                    sender_id@, target_id@, seq_num as nat, symbol@, st)),
    {
        let stamp = crate::clock::utc_stamp_seconds();
        self.build_market_data_request_at(buffer, sender_id, target_id, seq_num,
            symbol, stamp.as_slice());
    }

    /// Builds a NewOrderSingle stamped with the wall clock.
    pub fn build_order_request(
        &self, buffer: &mut Vec<u8>, sender_id: &[u8], target_id: &[u8],
        seq_num: u64, cl_ord_id: &[u8], symbol: &[u8], side: char, qty: u64,
    )
        requires
            side == '1' || side == '2',
        ensures
            exists|st: Seq<u8>| #[trigger] crate::clock::stamp_ok(st)
                && final(buffer)@ == framed(order_body(
                    sender_id@, target_id@, seq_num as nat, cl_ord_id@, symbol@,
                    side, qty as nat, st)),
    {
        let stamp = crate::clock::utc_stamp_seconds();
        self.build_order_request_at(buffer, sender_id, target_id, seq_num, cl_ord_id,
            symbol, side, qty, stamp.as_slice());
    }
}

/// A value that may stand on the wire: it contains no field separator.
pub open spec fn clean_value(v: Seq<u8>) -> bool {
    forall|i: int| 0 <= i < v.len() ==> !is_sep(#[trigger] v[i])
}

/// A message region as a list of (tag, value) fields.
pub open spec fn fields_concat(fs: Seq<(nat, Seq<u8>)>) -> Seq<u8>
    decreases fs.len(),
{
    if fs.len() == 0 {
        Seq::empty()
    } else {
        field(fs.first().0, fs.first().1) + fields_concat(fs.drop_first())
    }
}

pub open spec fn fields_wf(fs: Seq<(nat, Seq<u8>)>) -> bool {
    forall|i: int| 0 <= i < fs.len() ==> clean_value((#[trigger] fs[i]).1)
}

/// Concatenation of fields splits at any index.
proof fn lemma_fields_split(fs: Seq<(nat, Seq<u8>)>, j: int)
    requires
        0 <= j <= fs.len(),
    ensures
        fields_concat(fs) == fields_concat(fs.subrange(0, j))
            + fields_concat(fs.subrange(j, fs.len() as int)),
    decreases j,
{
    if j == 0 {
        assert(fs.subrange(0, fs.len() as int) =~= fs);
        assert(fields_concat(fs.subrange(0, 0)) =~= Seq::<u8>::empty());
        assert(fields_concat(fs) =~= Seq::<u8>::empty() + fields_concat(fs));
    } else {
        lemma_fields_split(fs.drop_first(), j - 1);
        assert(fs.drop_first().subrange(0, j - 1) =~= fs.subrange(0, j).drop_first());
        assert(fs.drop_first().subrange(j - 1, fs.drop_first().len() as int)
            =~= fs.subrange(j, fs.len() as int));
        assert(fs.subrange(0, j).first() == fs.first());
        assert(fields_concat(fs) =~= fields_concat(fs.subrange(0, j))
            + fields_concat(fs.subrange(j, fs.len() as int)));
    }
}

/// A non-empty field region ends with the separator of its last field.
proof fn lemma_fields_last_soh(fs: Seq<(nat, Seq<u8>)>)
    requires
        fs.len() > 0,
    ensures
        fields_concat(fs).len() > 0,
        fields_concat(fs).last() == SOH,
    decreases fs.len(),
{
    let f0 = field(fs.first().0, fs.first().1);
    if fs.len() == 1 {
        assert(fields_concat(fs.drop_first()) =~= Seq::<u8>::empty());
        assert(fields_concat(fs) =~= f0);
        assert(f0.last() == SOH);
    } else {
        lemma_fields_last_soh(fs.drop_first());
    }
}

/// A match of the tag pattern shifts through a prefix it does not touch.
proof fn lemma_match_shift(a: Seq<u8>, b: Seq<u8>, t: nat, p: int)
    requires
        0 <= p,
    ensures
        tag_match_at(a + b, t, a.len() + p) <==> tag_match_at(b, t, p),
{
    let m = a + b;
    let d = dec_digits(t);
    if tag_match_at(b, t, p) {
        assert(m.subrange(a.len() + p + 1, a.len() + p + 1 + d.len())
            =~= b.subrange(p + 1, p + 1 + d.len()));
    }
    if tag_match_at(m, t, a.len() + p) {
        assert(b.subrange(p + 1, p + 1 + d.len())
            =~= m.subrange(a.len() + p + 1, a.len() + p + 1 + d.len()));
    }
}

/// A separator followed by a different tag's `digits=` header never matches
/// the pattern of tag `t`.
proof fn lemma_no_match_at_other_header(msg: Seq<u8>, t: nat, p: int, t2: nat)
    requires
        t != t2,
        0 <= p,
        p + 1 + dec_digits(t2).len() < msg.len(),
        msg.subrange(p + 1, p + 1 + dec_digits(t2).len()) == dec_digits(t2),
        msg[p + 1 + dec_digits(t2).len()] == 61u8,
    ensures
        !tag_match_at(msg, t, p),
{
    let d = dec_digits(t);
    let d2 = dec_digits(t2);
    lemma_dec_digits_ok(t);
    lemma_dec_digits_ok(t2);
    if tag_match_at(msg, t, p) {
        if d.len() < d2.len() {
            assert(msg[p + 1 + d.len()] == d2[d.len() as int]);
            assert(is_digit(d2[d.len() as int]));
        } else if d.len() == d2.len() {
            assert(d =~= d2);
            crate::wire::lemma_dec_digits_injective(t, t2);
        } else {
            assert(msg[p + 1 + d2.len()] == d[d2.len() as int]);
            assert(is_digit(d[d2.len() as int]));
        }
    }
}

/// No occurrence of `<sep><tag t>=` starts anywhere strictly before the
/// separator that precedes field `j`, when the fields before `j` all carry
/// other tags.
proof fn lemma_no_early_match(fs: Seq<(nat, Seq<u8>)>, t: nat, j: int)
    requires
        fields_wf(fs),
        0 <= j < fs.len(),
        forall|i: int| 0 <= i < j ==> (#[trigger] fs[i]).0 != t,
    ensures
        forall|p: int| 0 <= p < fields_concat(fs.subrange(0, j)).len() - 1 ==>
            !tag_match_at(fields_concat(fs), t, p),
    decreases j,
{
    if j == 0 {
        assert(fields_concat(fs.subrange(0, 0)) =~= Seq::<u8>::empty());
    } else {
        let msg = fields_concat(fs);
        let t0 = fs.first().0;
        let v0 = fs.first().1;
        let f0 = field(t0, v0);
        let rest = fields_concat(fs.drop_first());
        let pl = fields_concat(fs.subrange(0, j)).len() as int;
        lemma_dec_digits_ok(t0);
        // length of the prefix region decomposes across the first field
        assert(fs.drop_first().subrange(0, j - 1) =~= fs.subrange(0, j).drop_first());
        assert(fs.subrange(0, j).first() == fs.first());
        let plr = fields_concat(fs.drop_first().subrange(0, j - 1)).len() as int;
        assert(pl == f0.len() + plr);
        assert(msg == f0 + rest);
        lemma_no_early_match(fs.drop_first(), t, j - 1);
        assert forall|p: int| 0 <= p < pl - 1 implies !tag_match_at(msg, t, p) by {
            if p < f0.len() - 1 {
                // inside the first field before its separator: no separator byte
                let dl = dec_digits(t0).len() as int;
                assert(msg[p] == f0[p]);
                if p < dl {
                    assert(f0[p] == dec_digits(t0)[p]);
                    assert(is_digit(dec_digits(t0)[p]));
                    assert(!is_sep(msg[p]));
                } else if p == dl {
                    assert(f0[p] == 61u8);
                    assert(!is_sep(msg[p]));
                } else {
                    assert(f0[p] == v0[p - dl - 1]);
                    assert(clean_value(v0));
                    assert(!is_sep(msg[p]));
                }
            } else if p == f0.len() - 1 {
                // the separator ending the first field: followed by the
                // header of the second field, whose tag differs from t
                assert(j >= 2);
                let t1 = fs[1].0;
                let v1 = fs[1].1;
                assert(fs.drop_first().first() == fs[1]);
                let f1 = field(t1, v1);
                let rest2 = fields_concat(fs.drop_first().drop_first());
                assert(rest == f1 + rest2);
                let d1 = dec_digits(t1);
                assert(msg.subrange(p + 1, p + 1 + d1.len()) =~= d1);
                assert(msg[p + 1 + d1.len()] == 61u8);
                assert(p + 1 + d1.len() < msg.len());
                lemma_no_match_at_other_header(msg, t, p, t1);
            } else {
                let q = p - f0.len();
                assert(0 <= q < plr - 1);
                assert(!tag_match_at(rest, t, q));
                lemma_match_shift(f0, rest, t, q);
            }
        }
    }
}

/// First-occurrence tag extraction on a concatenation of clean fields finds
/// exactly the value of the first field carrying the tag (any field after
/// the leading one).
pub proof fn lemma_tag_value_in_fields(fs: Seq<(nat, Seq<u8>)>, j: int)
    requires
        fields_wf(fs),
        1 <= j < fs.len(),
        forall|i: int| 0 <= i < j ==> (#[trigger] fs[i]).0 != fs[j].0,
    ensures
        spec_tag_value(fields_concat(fs), fs[j].0) == Some(fs[j].1),
{
    let msg = fields_concat(fs);
    let t = fs[j].0;
    let v = fs[j].1;
    let d = dec_digits(t);
    lemma_dec_digits_ok(t);
    lemma_fields_split(fs, j);
    let a = fields_concat(fs.subrange(0, j));
    let tail = fields_concat(fs.subrange(j, fs.len() as int));
    assert(fs.subrange(j, fs.len() as int).first() == fs[j]);
    let b = fields_concat(fs.subrange(j, fs.len() as int).drop_first());
    assert(tail == field(t, v) + b);
    let pp = a.len() as int;
    lemma_fields_last_soh(fs.subrange(0, j));
    // the pattern matches right at the separator that ends the prefix
    assert(msg[pp - 1] == a.last());
    assert(msg.subrange(pp, pp + d.len()) =~= d);
    assert(msg[pp + d.len()] == 61u8);
    assert(pp + d.len() + 1 + v.len() < msg.len() + 1);
    assert(tag_match_at(msg, t, pp - 1));
    lemma_no_early_match(fs, t, j);
    crate::wire::lemma_find_from_skip(msg, t, 0, pp - 1);
    assert(find_from(msg, t, pp - 1) == pp - 1);
    // the value runs to the separator that ends field j
    let vs = pp + d.len() + 1;
    assert(msg.subrange(vs, vs + v.len()) =~= v);
    assert forall|q: int| vs <= q < vs + v.len() implies !is_sep(msg[q]) by {
        assert(msg[q] == v[q - vs]);
        assert(clean_value(v));
    }
    crate::wire::lemma_sep_skip(msg, vs, vs + v.len());
    assert(msg[vs + v.len()] == SOH);
    assert(sep_from(msg, vs + v.len()) == vs + v.len());
    assert(spec_tag_value(msg, t) == Some(msg.subrange(vs, vs + v.len())));
}

/// Digit strings never contain a separator byte.
proof fn lemma_digits_clean(s: Seq<u8>)
    requires
        all_digits(s),
    ensures
        clean_value(s),
{
    assert forall|i: int| 0 <= i < s.len() implies !is_sep(#[trigger] s[i]) by {
        assert(is_digit(s[i]));
    }
}

/// Concatenation of fields distributes over list append.
proof fn lemma_fields_append(a: Seq<(nat, Seq<u8>)>, b: Seq<(nat, Seq<u8>)>)
    ensures
        fields_concat(a + b) == fields_concat(a) + fields_concat(b),
{
    lemma_fields_split(a + b, a.len() as int);
    assert((a + b).subrange(0, a.len() as int) =~= a);
    assert((a + b).subrange(a.len() as int, (a + b).len() as int) =~= b);
}

proof fn lemma_fields_one(x: (nat, Seq<u8>))
    ensures
        fields_concat(seq![x]) == field(x.0, x.1),
{
    assert(seq![x].drop_first() =~= Seq::<(nat, Seq<u8>)>::empty());
    assert(seq![x].first() == x);
    assert(fields_concat(Seq::<(nat, Seq<u8>)>::empty()).len() == 0);
    assert(fields_concat(seq![x]) =~= field(x.0, x.1));
}

/// The complete field list of a framed message whose body is the
/// concatenation of `mid`.
pub open spec fn framed_fields(mid: Seq<(nat, Seq<u8>)>) -> Seq<(nat, Seq<u8>)> {
    let body = fields_concat(mid);
    let pre = field(8, fix44()) + field(9, dec_digits(body.len())) + body;
    seq![(8nat, fix44()), (9nat, dec_digits(body.len()))] + mid
        + seq![(10nat, cs3(sum_bytes(pre) % 256))]
}

/// A framed message is itself one concatenation of fields: header,
/// BodyLength, the body fields, and the checksum trailer.
proof fn lemma_framed_as_fields(mid: Seq<(nat, Seq<u8>)>)
    ensures
        fields_concat(framed_fields(mid)) == framed(fields_concat(mid)),
{
    let body = fields_concat(mid);
    let f8 = (8nat, fix44());
    let f9 = (9nat, dec_digits(body.len()));
    let pre = field(8, fix44()) + field(9, dec_digits(body.len())) + body;
    let f10 = (10nat, cs3(sum_bytes(pre) % 256));
    let full = framed_fields(mid);
    assert(full =~= seq![f8] + (seq![f9] + (mid + seq![f10])));
    lemma_fields_append(seq![f8], seq![f9] + (mid + seq![f10]));
    lemma_fields_append(seq![f9], mid + seq![f10]);
    lemma_fields_append(mid, seq![f10]);
    lemma_fields_one(f8);
    lemma_fields_one(f9);
    lemma_fields_one(f10);
    assert(fields_concat(full) =~= framed(body));
}

/// The Logon body as a field list.
pub open spec fn logon_fields(
    sender: Seq<u8>, target: Seq<u8>, sub: Seq<u8>, password: Seq<u8>, stamp: Seq<u8>,
) -> Seq<(nat, Seq<u8>)> {
    seq![
        (35nat, seq![65u8]), (49nat, sender), (56nat, target), (50nat, sub),
        (57nat, sub), (34nat, seq![49u8]), (52nat, stamp), (98nat, seq![48u8]),
        (108nat, seq![51u8, 48u8]), (553nat, account_of(sender)),
        (554nat, password), (141nat, seq![89u8]),
    ]
}

#[verifier::rlimit(100)]
proof fn lemma_logon_fields_eq(
    sender: Seq<u8>, target: Seq<u8>, sub: Seq<u8>, password: Seq<u8>, stamp: Seq<u8>,
)
    ensures
        fields_concat(logon_fields(sender, target, sub, password, stamp))
            == logon_body(sender, target, sub, password, stamp),
{
    reveal_with_fuel(fields_concat, 14);
    let fs = logon_fields(sender, target, sub, password, stamp);
    assert(fields_concat(fs) =~= logon_body(sender, target, sub, password, stamp));
}

/// Round trip of a built Logon: first-occurrence extraction of the message
/// type, the session ids, the sub id, the heartbeat interval, the password
/// and the reset flag gives back exactly what the builder was given.
#[verifier::rlimit(60)]
pub proof fn lemma_logon_roundtrip(
    sender: Seq<u8>, target: Seq<u8>, sub: Seq<u8>, password: Seq<u8>, stamp: Seq<u8>,
)
    requires
        clean_value(sender),
        clean_value(target),
        clean_value(sub),
        clean_value(password),
        clean_value(stamp),
    ensures
        ({
            let msg = framed(logon_body(sender, target, sub, password, stamp));
            &&& spec_tag_value(msg, 35) == Some(seq![65u8])
            &&& spec_tag_value(msg, 49) == Some(sender)
            &&& spec_tag_value(msg, 56) == Some(target)
            &&& spec_tag_value(msg, 50) == Some(sub)
            &&& spec_tag_value(msg, 108) == Some(seq![51u8, 48u8])
            &&& spec_tag_value(msg, 554) == Some(password)
            &&& spec_tag_value(msg, 141) == Some(seq![89u8])
        }),
{
    let mid = logon_fields(sender, target, sub, password, stamp);
    lemma_logon_fields_eq(sender, target, sub, password, stamp);
    lemma_framed_as_fields(mid);
    let full = framed_fields(mid);
    let body = fields_concat(mid);
    let pre = field(8, fix44()) + field(9, dec_digits(body.len())) + body;
    lemma_dec_digits_ok(body.len());
    lemma_digits_clean(dec_digits(body.len()));
    vstd::arithmetic::div_mod::lemma_mod_bound(sum_bytes(pre), 256);
    lemma_cs3_ok(sum_bytes(pre) % 256);
    lemma_digits_clean(cs3(sum_bytes(pre) % 256));
    assert(clean_value(account_of(sender))) by {
        lemma_dot_start_bounds(sender);
        assert forall|i: int| 0 <= i < account_of(sender).len()
            implies !is_sep(#[trigger] account_of(sender)[i]) by {
            assert(account_of(sender)[i] == sender[dot_start(sender) + i]);
        }
    }
    assert(clean_value(fix44()));
    assert(fields_wf(full));
    lemma_tag_value_in_fields(full, 2);
    lemma_tag_value_in_fields(full, 3);
    lemma_tag_value_in_fields(full, 4);
    lemma_tag_value_in_fields(full, 5);
    lemma_tag_value_in_fields(full, 10);
    lemma_tag_value_in_fields(full, 12);
    lemma_tag_value_in_fields(full, 13);
}

/// The Heartbeat body as a field list.
pub open spec fn heartbeat_fields(
    sender: Seq<u8>, target: Seq<u8>, seq_num: nat, stamp: Seq<u8>,
) -> Seq<(nat, Seq<u8>)> {
    seq![
        (35nat, seq![48u8]), (49nat, sender), (56nat, target),
        (34nat, dec_digits(seq_num)), (52nat, stamp),
    ]
}

proof fn lemma_heartbeat_fields_eq(
    sender: Seq<u8>, target: Seq<u8>, seq_num: nat, stamp: Seq<u8>,
)
    ensures
        fields_concat(heartbeat_fields(sender, target, seq_num, stamp))
            == heartbeat_body(sender, target, seq_num, stamp),
{
    reveal_with_fuel(fields_concat, 7);
    let fs = heartbeat_fields(sender, target, seq_num, stamp);
    assert(fields_concat(fs) =~= heartbeat_body(sender, target, seq_num, stamp));
}

/// Round trip of a built Heartbeat: the message type, the session ids and
/// the stamped sequence number read back exactly; the sequence digits
/// parse back to the number, so the strict monotonicity of a session's
/// counter carries to the messages on the wire.
#[verifier::rlimit(60)]
pub proof fn lemma_heartbeat_roundtrip(
    sender: Seq<u8>, target: Seq<u8>, seq_num: nat, stamp: Seq<u8>,
)
    requires
        clean_value(sender),
        clean_value(target),
        clean_value(stamp),
    ensures
        ({
            let msg = framed(heartbeat_body(sender, target, seq_num, stamp));
            &&& spec_tag_value(msg, 35) == Some(seq![48u8])
            &&& spec_tag_value(msg, 49) == Some(sender)
            &&& spec_tag_value(msg, 56) == Some(target)
            &&& spec_tag_value(msg, 34) == Some(dec_digits(seq_num))
            &&& digits_val(dec_digits(seq_num)) == seq_num
        }),
{
    let mid = heartbeat_fields(sender, target, seq_num, stamp);
    lemma_heartbeat_fields_eq(sender, target, seq_num, stamp);
    lemma_framed_as_fields(mid);
    let full = framed_fields(mid);
    let body = fields_concat(mid);
    let pre = field(8, fix44()) + field(9, dec_digits(body.len())) + body;
    lemma_dec_digits_ok(body.len());
    lemma_dec_digits_ok(seq_num);
    lemma_digits_clean(dec_digits(body.len()));
    lemma_digits_clean(dec_digits(seq_num));
    vstd::arithmetic::div_mod::lemma_mod_bound(sum_bytes(pre), 256);
    lemma_cs3_ok(sum_bytes(pre) % 256);
    lemma_digits_clean(cs3(sum_bytes(pre) % 256));
    assert(clean_value(fix44()));
    assert(fields_wf(full));
    lemma_tag_value_in_fields(full, 2);
    lemma_tag_value_in_fields(full, 3);
    lemma_tag_value_in_fields(full, 4);
    lemma_tag_value_in_fields(full, 5);
}

/// The MarketDataRequest body as a field list.
pub open spec fn market_data_request_fields(
    sender: Seq<u8>, target: Seq<u8>, seq_num: nat, symbol: Seq<u8>, stamp: Seq<u8>,
) -> Seq<(nat, Seq<u8>)> {
    seq![
        (35nat, seq![86u8]), (49nat, sender), (56nat, target),
        (34nat, dec_digits(seq_num)), (52nat, stamp), (262nat, md_req_id()),
        (263nat, seq![49u8]), (264nat, seq![48u8]), (265nat, seq![49u8]),
        (267nat, seq![50u8]), (269nat, seq![48u8]), (269nat, seq![49u8]),
        (146nat, seq![49u8]), (55nat, symbol),
    ]
}

#[verifier::rlimit(100)]
proof fn lemma_market_data_request_fields_eq(
    sender: Seq<u8>, target: Seq<u8>, seq_num: nat, symbol: Seq<u8>, stamp: Seq<u8>,
)
    ensures
        fields_concat(market_data_request_fields(sender, target, seq_num, symbol, stamp))
            == market_data_request_body(sender, target, seq_num, symbol, stamp),
{
    reveal_with_fuel(fields_concat, 16);
    let fs = market_data_request_fields(sender, target, seq_num, symbol, stamp);
    assert(fields_concat(fs)
        =~= market_data_request_body(sender, target, seq_num, symbol, stamp));
}

/// Round trip of a built MarketDataRequest: the message type, the request
/// id, the full-book subscription flags, the first repeating-group entry
/// kind, and the symbol read back exactly.
#[verifier::rlimit(60)]
pub proof fn lemma_market_data_request_roundtrip(
    sender: Seq<u8>, target: Seq<u8>, seq_num: nat, symbol: Seq<u8>, stamp: Seq<u8>,
)
    requires
        clean_value(sender),
        clean_value(target),
        clean_value(symbol),
        clean_value(stamp),
    ensures
        ({
            let msg = framed(market_data_request_body(sender, target, seq_num, symbol, stamp));
            &&& spec_tag_value(msg, 35) == Some(seq![86u8])
            &&& spec_tag_value(msg, 262) == Some(md_req_id())
            &&& spec_tag_value(msg, 263) == Some(seq![49u8])
            &&& spec_tag_value(msg, 264) == Some(seq![48u8])
            &&& spec_tag_value(msg, 269) == Some(seq![48u8])
            &&& spec_tag_value(msg, 55) == Some(symbol)
        }),
{
    let mid = market_data_request_fields(sender, target, seq_num, symbol, stamp);
    lemma_market_data_request_fields_eq(sender, target, seq_num, symbol, stamp);
    lemma_framed_as_fields(mid);
    let full = framed_fields(mid);
    let body = fields_concat(mid);
    let pre = field(8, fix44()) + field(9, dec_digits(body.len())) + body;
    lemma_dec_digits_ok(body.len());
    lemma_dec_digits_ok(seq_num);
    lemma_digits_clean(dec_digits(body.len()));
    lemma_digits_clean(dec_digits(seq_num));
    vstd::arithmetic::div_mod::lemma_mod_bound(sum_bytes(pre), 256);
    lemma_cs3_ok(sum_bytes(pre) % 256);
    lemma_digits_clean(cs3(sum_bytes(pre) % 256));
    assert(clean_value(fix44()));
    assert(clean_value(md_req_id()));
    assert(fields_wf(full));
    lemma_tag_value_in_fields(full, 2);
    lemma_tag_value_in_fields(full, 7);
    lemma_tag_value_in_fields(full, 8);
    lemma_tag_value_in_fields(full, 9);
    lemma_tag_value_in_fields(full, 12);
    lemma_tag_value_in_fields(full, 15);
}

/// The NewOrderSingle body as a field list.
pub open spec fn order_fields(
    sender: Seq<u8>, target: Seq<u8>, seq_num: nat, cl_ord_id: Seq<u8>,
    symbol: Seq<u8>, side: char, qty: nat, stamp: Seq<u8>,
) -> Seq<(nat, Seq<u8>)> {
    seq![
        (35nat, seq![68u8]), (49nat, sender), (56nat, target),
        (34nat, dec_digits(seq_num)), (52nat, stamp), (11nat, cl_ord_id),
        (21nat, seq![49u8]), (55nat, symbol), (54nat, seq![side_byte(side)]),
        (60nat, stamp), (38nat, dec_digits(qty)), (40nat, seq![49u8]),
        (59nat, seq![49u8]),
    ]
}

#[verifier::rlimit(100)]
proof fn lemma_order_fields_eq(
    sender: Seq<u8>, target: Seq<u8>, seq_num: nat, cl_ord_id: Seq<u8>,
    symbol: Seq<u8>, side: char, qty: nat, stamp: Seq<u8>,
)
    ensures
        fields_concat(order_fields(sender, target, seq_num, cl_ord_id, symbol, side, qty, stamp))
            == order_body(sender, target, seq_num, cl_ord_id, symbol, side, qty, stamp),
{
    reveal_with_fuel(fields_concat, 15);
    let fs = order_fields(sender, target, seq_num, cl_ord_id, symbol, side, qty, stamp);
    assert(fields_concat(fs)
        =~= order_body(sender, target, seq_num, cl_ord_id, symbol, side, qty, stamp));
}

/// Round trip of a built NewOrderSingle: extraction of the message type,
/// the client order id, the symbol, the side and the quantity gives back
/// exactly what the builder was given; the quantity digits parse back to
/// the quantity.
#[verifier::rlimit(60)]
pub proof fn lemma_order_roundtrip(
    sender: Seq<u8>, target: Seq<u8>, seq_num: nat, cl_ord_id: Seq<u8>,
    symbol: Seq<u8>, side: char, qty: nat, stamp: Seq<u8>,
)
    requires
        clean_value(sender),
        clean_value(target),
        clean_value(cl_ord_id),
        clean_value(symbol),
        clean_value(stamp),
    ensures
        ({
            let msg = framed(order_body(
                sender, target, seq_num, cl_ord_id, symbol, side, qty, stamp));
            &&& spec_tag_value(msg, 35) == Some(seq![68u8])
            &&& spec_tag_value(msg, 11) == Some(cl_ord_id)
            &&& spec_tag_value(msg, 55) == Some(symbol)
            &&& spec_tag_value(msg, 54) == Some(seq![side_byte(side)])
            &&& spec_tag_value(msg, 38) == Some(dec_digits(qty))
            &&& digits_val(dec_digits(qty)) == qty
        }),
{
    let mid = order_fields(sender, target, seq_num, cl_ord_id, symbol, side, qty, stamp);
    lemma_order_fields_eq(sender, target, seq_num, cl_ord_id, symbol, side, qty, stamp);
    lemma_framed_as_fields(mid);
    let full = framed_fields(mid);
    let body = fields_concat(mid);
    let pre = field(8, fix44()) + field(9, dec_digits(body.len())) + body;
    lemma_dec_digits_ok(body.len());
    lemma_dec_digits_ok(seq_num);
    lemma_dec_digits_ok(qty);
    lemma_digits_clean(dec_digits(body.len()));
    lemma_digits_clean(dec_digits(seq_num));
    lemma_digits_clean(dec_digits(qty));
    vstd::arithmetic::div_mod::lemma_mod_bound(sum_bytes(pre), 256);
    lemma_cs3_ok(sum_bytes(pre) % 256);
    lemma_digits_clean(cs3(sum_bytes(pre) % 256));
    assert(clean_value(fix44()));
    assert(clean_value(seq![side_byte(side)]));
    assert(fields_wf(full));
    lemma_tag_value_in_fields(full, 2);
    lemma_tag_value_in_fields(full, 7);
    lemma_tag_value_in_fields(full, 9);
    lemma_tag_value_in_fields(full, 10);
    lemma_tag_value_in_fields(full, 12);
}

} // verus!
