//! Inbound FIX parsing: first-occurrence tag extraction composed with exact
//! decimal readers, and the market-data entry splitter that re-splits a
//! `35=W` snapshot on `269=` and a `35=X` increment on `279=`.

use vstd::prelude::*;
use crate::wire::{
    is_digit, all_digits, dec_digits, digits_val, tag_match_at,
    spec_tag_value, find_tag_value, parse_u64, u64_to_dec, is_sep_byte,
};
use crate::state::BookUpdate;

verus! {

pub open spec fn pow10(k: nat) -> nat
    decreases k,
{
    if k == 0 {
        1nat
    } else {
        10 * pow10((k - 1) as nat)
    }
}

/// Ten to a smaller power is no larger.
pub proof fn lemma_pow10_le(a: nat, b: nat)
    requires
        a <= b,
    ensures
        pow10(a) <= pow10(b),
    decreases b,
{
    if a < b {
        lemma_pow10_le(a, (b - 1) as nat);
        assert(pow10(b) == 10 * pow10((b - 1) as nat));
    }
}

/// A digit string of length n is worth less than 10^n.
pub proof fn lemma_digits_val_lt_pow10(s: Seq<u8>)
    requires
        all_digits(s),
    ensures
        digits_val(s) < pow10(s.len()),
    decreases s.len(),
{
    if s.len() == 0 {
    } else {
        assert(all_digits(s.drop_last())) by {
            assert(forall|i: int| 0 <= i < s.len() - 1 ==>
                #[trigger] s.drop_last()[i] == s[i]);
        }
        lemma_digits_val_lt_pow10(s.drop_last());
        assert(is_digit(s.last()));
        assert(pow10(s.len()) == 10 * pow10((s.len() - 1) as nat));
    }
}

/// Index of the first '.' at or after `i`, or the length when none.
pub open spec fn dot_from(s: Seq<u8>, i: int) -> int
    decreases s.len() - i,
{
    if i < 0 || i >= s.len() {
        s.len() as int
    } else if s[i] == 46u8 {
        i
    } else {
        dot_from(s, i + 1)
    }
}

/// Scaled value of a fraction part read to five decimal places, rounded
/// half-up on the sixth digit.
pub open spec fn frac5_val(fr: Seq<u8>) -> int {
    if fr.len() == 0 {
        0int
    } else if fr.len() <= 5 {
        digits_val(fr) * pow10((5 - fr.len()) as nat) as int
    } else {
        digits_val(fr.subrange(0, 5)) + (if fr[5] >= 53u8 {
            1int
        } else {
            0int
        })
    }
}

/// Exact decimal price scaled by 10^5: integer part of one to seven
/// digits, an optional fraction, rounding half-up past five decimals.
/// None when the text is not such a decimal.
pub open spec fn spec_parse_price5(s: Seq<u8>) -> Option<int> {
    let d = dot_from(s, 0);
    let ip = s.subrange(0, d);
    let fr = if d == s.len() { Seq::<u8>::empty() } else {
        s.subrange(d + 1, s.len() as int)
    };
    if 1 <= ip.len() <= 7 && all_digits(ip) && all_digits(fr) {
        Some(digits_val(ip) * 100000int + frac5_val(fr))
    } else {
        None
    }
}

/// Exact decimal quantity in whole units, rounded half-up on the first
/// fraction digit; integer part of one to fifteen digits.
pub open spec fn spec_parse_qty(s: Seq<u8>) -> Option<int> {
    let d = dot_from(s, 0);
    let ip = s.subrange(0, d);
    let fr = if d == s.len() { Seq::<u8>::empty() } else {
        s.subrange(d + 1, s.len() as int)
    };
    if 1 <= ip.len() <= 15 && all_digits(ip) && all_digits(fr) {
        Some(digits_val(ip) + (if fr.len() > 0 && fr[0] >= 53u8 { 1int } else { 0int }))
    } else {
        None
    }
}

/// Splits `s` at the first '.' into integer and fraction parts.
fn split_at_dot(s: &[u8]) -> (r: (Vec<u8>, Vec<u8>))
    ensures
        ({
            let d = dot_from(s@, 0);
            &&& r.0@ == s@.subrange(0, d)
            &&& r.1@ == if d == s@.len() { Seq::<u8>::empty() } else {
                s@.subrange(d + 1, s@.len() as int)
            }
        }),
{
    let n = s.len();
    let mut i: usize = 0;
    let mut ip: Vec<u8> = Vec::new();
    while i < n && s[i] != 46
        invariant
            0 <= i <= n,
            n == s@.len(),
            dot_from(s@, 0) == dot_from(s@, i as int),
            forall|p: int| 0 <= p < i ==> #[trigger] s@[p] != 46u8,
            ip@ == s@.subrange(0, i as int),
        decreases n - i,
    {
        proof {
            assert(s@.subrange(0, i + 1)
                =~= s@.subrange(0, i as int).push(s@[i as int]));
        }
        ip.push(s[i]);
        i = i + 1;
    }
    let ghost d = dot_from(s@, 0);
    proof {
        assert(d == i);
    }
    let mut fr: Vec<u8> = Vec::new();
    if i < n {
        let mut p: usize = i + 1;
        while p < n
            invariant
                i + 1 <= p <= n,
                n == s@.len(),
                fr@ == s@.subrange(i + 1, p as int),
            decreases n - p,
        {
            proof {
                assert(s@.subrange(i + 1, p + 1)
                    =~= s@.subrange(i + 1, p as int).push(s@[p as int]));
            }
            fr.push(s[p]);
            p = p + 1;
        }
    }
    (ip, fr)
}

/// Tests that every byte is an ASCII digit.
fn check_all_digits(s: &[u8]) -> (r: bool)
    ensures
        r == all_digits(s@),
{
    let n = s.len();
    let mut i: usize = 0;
    while i < n
        invariant
            0 <= i <= n,
            n == s@.len(),
            all_digits(s@.subrange(0, i as int)),
        decreases n - i,
    {
        if s[i] < 48 || s[i] > 57 {
            assert(!is_digit(s@[i as int]));
            return false;
        }
        proof {
            assert(forall|p: int| 0 <= p < i + 1 ==>
                is_digit(#[trigger] s@.subrange(0, i + 1)[p]));
        }
        i = i + 1;
    }
    proof {
        assert(s@.subrange(0, n as int) =~= s@);
    }
    true
}

/// Parses a price text to its 10^5-scaled integer key.
pub fn parse_price5(s: &[u8]) -> (r: Option<i64>)
    ensures
        r is Some <==> spec_parse_price5(s@) is Some,
        r matches Some(v) ==> Some(v as int) == spec_parse_price5(s@),
        r matches Some(v) ==> 0 <= v <= 1_000_000_000_000i64,
{
    let (ip, fr) = split_at_dot(s);
    if ip.len() < 1 || ip.len() > 7 {
        return None;
    }
    if !check_all_digits(ip.as_slice()) {
        return None;
    }
    if !check_all_digits(fr.as_slice()) {
        return None;
    }
    proof {
        lemma_digits_val_lt_pow10(ip@);
        assert(pow10(7) == 10000000) by {
            reveal_with_fuel(pow10, 8);
        }
        lemma_pow10_le(ip@.len(), 7);
        assert(digits_val(ip@) < 10000000);
    }
    let ipv = match parse_u64(ip.as_slice()) {
        Some(v) => v,
        None => {
            proof {
                assert(false);
            }
            return None;
        },
    };
    let fl = fr.len();
    let frv: u64 = if fl == 0 {
        0
    } else if fl <= 5 {
        let m: u64 = if fl == 1 {
            10000
        } else if fl == 2 {
            1000
        } else if fl == 3 {
            100
        } else if fl == 4 {
            10
        } else {
            1
        };
        proof {
            lemma_digits_val_lt_pow10(fr@);
            assert(pow10(1) == 10 && pow10(2) == 100 && pow10(3) == 1000
                && pow10(4) == 10000 && pow10(5) == 100000) by {
                reveal_with_fuel(pow10, 6);
            }
            assert(m == pow10((5 - fr@.len()) as nat));
        }
        let v = match parse_u64(fr.as_slice()) {
            Some(v) => v,
            None => {
                proof {
                    assert(false);
                }
                return None;
            },
        };
        v * m
    } else {
        let mut f5: Vec<u8> = Vec::new();
        let mut j: usize = 0;
        while j < 5
            invariant
                0 <= j <= 5,
                fr@.len() > 5,
                f5@ == fr@.subrange(0, j as int),
                all_digits(fr@),
            decreases 5 - j,
        {
            proof {
                assert(fr@.subrange(0, j + 1)
                    =~= fr@.subrange(0, j as int).push(fr@[j as int]));
            }
            f5.push(fr[j]);
            j = j + 1;
        }
        proof {
            assert(all_digits(f5@)) by {
                assert(forall|p: int| 0 <= p < 5 ==>
                    #[trigger] f5@[p] == fr@[p]);
            }
            lemma_digits_val_lt_pow10(f5@);
            assert(pow10(5) == 100000) by {
                reveal_with_fuel(pow10, 6);
            }
        }
        let v = match parse_u64(f5.as_slice()) {
            Some(v) => v,
            None => {
                proof {
                    assert(false);
                }
                return None;
            },
        };
        if fr[5] >= 53 {
            v + 1
        } else {
            v
        }
    };
    proof {
        assert(frv == frac5_val(fr@));
        assert(frv <= 100000);
    }
    Some((ipv * 100000 + frv) as i64)
}

/// Parses a quantity text to whole units, capped by its fifteen-digit
/// integer part.
pub fn parse_qty(s: &[u8]) -> (r: Option<u64>)
    ensures
        r is Some <==> spec_parse_qty(s@) is Some,
        r matches Some(v) ==> Some(v as int) == spec_parse_qty(s@),
        r matches Some(v) ==> v <= 1_000_000_000_000_000u64,
{
    let (ip, fr) = split_at_dot(s);
    if ip.len() < 1 || ip.len() > 15 {
        return None;
    }
    if !check_all_digits(ip.as_slice()) {
        return None;
    }
    if !check_all_digits(fr.as_slice()) {
        return None;
    }
    proof {
        lemma_digits_val_lt_pow10(ip@);
        assert(pow10(15) == 1_000_000_000_000_000) by {
            reveal_with_fuel(pow10, 16);
        }
        lemma_pow10_le(ip@.len(), 15);
    }
    let ipv = match parse_u64(ip.as_slice()) {
        Some(v) => v,
        None => {
            proof {
                assert(false);
            }
            return None;
        },
    };
    if fr.len() > 0 && fr[0] >= 53 {
        Some(ipv + 1)
    } else {
        Some(ipv)
    }
}

/// The protocol header "8=FIX.4.4" that begins every message on the wire.
pub open spec fn header_bytes() -> Seq<u8> {
    seq![56u8, 61u8, 70u8, 73u8, 88u8, 46u8, 52u8, 46u8, 52u8]
}

/// True when the protocol header stands at position `i`.
pub open spec fn header_at(msg: Seq<u8>, i: int) -> bool {
    &&& 0 <= i
    &&& i + 9 <= msg.len()
    &&& msg.subrange(i, i + 9) == header_bytes()
}

/// All positions where the protocol header stands, in order.
pub open spec fn header_starts(msg: Seq<u8>, i: int) -> Seq<int>
    decreases msg.len() - i,
{
    if i < 0 || i >= msg.len() {
        Seq::empty()
    } else if header_at(msg, i) {
        seq![i] + header_starts(msg, i + 1)
    } else {
        header_starts(msg, i + 1)
    }
}

/// The message regions of a raw inbound buffer: what follows each
/// protocol header, up to the next header or the end of the buffer.
/// Anything before the first header is discarded.
pub open spec fn spec_messages(msg: Seq<u8>) -> Seq<Seq<u8>> {
    let hs = header_starts(msg, 0);
    Seq::new(hs.len(), |j: int| msg.subrange(
        hs[j] + 9,
        if j + 1 < hs.len() { hs[j + 1] } else { msg.len() as int },
    ))
}

/// Tests for the protocol header at one position.
fn header_at_idx(buf: &[u8], i: usize) -> (r: bool)
    requires
        i < buf@.len(),
    ensures
        r == header_at(buf@, i as int),
{
    let n = buf.len();
    if n - i < 9 {
        return false;
    }
    let pat: [u8; 9] = [56, 61, 70, 73, 88, 46, 52, 46, 52];
    let mut j: usize = 0;
    while j < 9
        invariant
            0 <= j <= 9,
            i + 9 <= n,
            n == buf@.len(),
            pat@ == header_bytes(),
            forall|p: int| 0 <= p < j ==> #[trigger] buf@[i + p] == header_bytes()[p],
        decreases 9 - j,
    {
        if buf[i + j] != pat[j] {
            proof {
                if header_at(buf@, i as int) {
                    assert(buf@.subrange(i as int, i + 9) == header_bytes());
                    assert(buf@.subrange(i as int, i + 9)[j as int] == buf@[i + j]);
                }
            }
            return false;
        }
        j = j + 1;
    }
    proof {
        assert forall|p: int| 0 <= p < 9 implies
            buf@.subrange(i as int, i + 9)[p] == header_bytes()[p] by {
            assert(buf@[i + p] == header_bytes()[p]);
        }
        assert(buf@.subrange(i as int, i + 9) =~= header_bytes());
    }
    true
}

/// Splits a raw inbound buffer into whole messages on the protocol
/// header, in arrival order; each returned region begins right after its
/// header, so its first byte is the separator before tag 9.
pub fn split_messages(buf: &[u8]) -> (r: Vec<Vec<u8>>)
    ensures
        r@.len() == spec_messages(buf@).len(),
        forall|j: int| 0 <= j < r@.len() ==>
            (#[trigger] r@[j])@ == spec_messages(buf@)[j],
{
    let n = buf.len();
    let mut starts: Vec<usize> = Vec::new();
    let mut i: usize = 0;
    while i < n
        invariant
            0 <= i <= n,
            n == buf@.len(),
            header_starts(buf@, 0)
                == starts@.map_values(|u: usize| u as int)
                    + header_starts(buf@, i as int),
            forall|j: int| 0 <= j < starts@.len() ==> #[trigger] starts@[j] < i,
            forall|q1: int, q2: int| 0 <= q1 < q2 < starts@.len() ==>
                #[trigger] starts@[q1] < #[trigger] starts@[q2],
            forall|j: int| 0 <= j < starts@.len() ==>
                header_at(buf@, #[trigger] starts@[j] as int),
        decreases n - i,
    {
        let m = header_at_idx(buf, i);
        proof {
            if m {
                assert(starts@.push(i).map_values(|u: usize| u as int)
                    =~= starts@.map_values(|u: usize| u as int) + seq![i as int]);
                assert(starts@.map_values(|u: usize| u as int) + (seq![i as int]
                    + header_starts(buf@, i + 1))
                    =~= (starts@.map_values(|u: usize| u as int) + seq![i as int])
                        + header_starts(buf@, i + 1));
            }
        }
        if m {
            starts.push(i);
        }
        i = i + 1;
    }
    let ghost hs = header_starts(buf@, 0);
    proof {
        assert(hs =~= starts@.map_values(|u: usize| u as int));
    }
    let sn = starts.len();
    let mut r: Vec<Vec<u8>> = Vec::new();
    let mut j: usize = 0;
    while j < sn
        invariant
            0 <= j <= sn,
            sn == starts@.len(),
            n == buf@.len(),
            hs == starts@.map_values(|u: usize| u as int),
            hs == header_starts(buf@, 0),
            forall|q: int| 0 <= q < sn ==> #[trigger] starts@[q] < n,
            forall|q1: int, q2: int| 0 <= q1 < q2 < sn ==>
                #[trigger] starts@[q1] < #[trigger] starts@[q2],
            forall|q: int| 0 <= q < sn ==> header_at(buf@, #[trigger] starts@[q] as int),
            r@.len() == j,
            forall|q: int| 0 <= q < j ==>
                (#[trigger] r@[q])@ == spec_messages(buf@)[q],
        decreases sn - j,
    {
        let stop: usize = if j + 1 < sn { starts[j + 1] } else { n };
        proof {
            assert(header_at(buf@, starts@[j as int] as int));
            if j + 1 < sn {
                // two headers never overlap: '8' appears only at the
                // first byte of the header pattern
                let s0 = starts@[j as int] as int;
                let s1 = starts@[j + 1] as int;
                assert(s0 < s1);
                if s1 < s0 + 9 {
                    let d = s1 - s0;
                    assert(buf@.subrange(s1, s1 + 9)[0] == header_bytes()[0]);
                    assert(buf@[s1] == 56u8);
                    assert(buf@.subrange(s0, s0 + 9)[d] == header_bytes()[d]);
                    assert(buf@[s0 + d] == header_bytes()[d]);
                    assert(header_bytes()[d] != 56u8);
                    assert(false);
                }
            }
        }
        let a = starts[j] + 9;
        let frag = copy_range(buf, a, stop);
        proof {
            let sm = spec_messages(buf@);
            assert(sm.len() == hs.len());
            assert(sm[j as int] == buf@.subrange(
                header_starts(buf@, 0)[j as int] + 9,
                if j + 1 < header_starts(buf@, 0).len() {
                    header_starts(buf@, 0)[j + 1]
                } else {
                    buf@.len() as int
                }));
            assert(header_starts(buf@, 0) == hs);
            assert(frag@ == sm[j as int]);
        }
        r.push(frag);
        j = j + 1;
    }
    r
}

/// First-occurrence tag value read as a decimal integer; None when the
/// tag is absent or its value is not a `u64` number.
pub open spec fn spec_tag_u64(msg: Seq<u8>, tag: nat) -> Option<nat> {
    match spec_tag_value(msg, tag) {
        None => None,
        Some(v) => if v.len() >= 1 && all_digits(v) && digits_val(v) <= u64::MAX {
            Some(digits_val(v))
        } else {
            None
        },
    }
}

/// First-occurrence tag value read as a 10^5-scaled price.
pub open spec fn spec_tag_price5(msg: Seq<u8>, tag: nat) -> Option<int> {
    match spec_tag_value(msg, tag) {
        None => None,
        Some(v) => spec_parse_price5(v),
    }
}

/// First-occurrence tag value read as a whole-unit quantity.
pub open spec fn spec_tag_qty(msg: Seq<u8>, tag: nat) -> Option<int> {
    match spec_tag_value(msg, tag) {
        None => None,
        Some(v) => spec_parse_qty(v),
    }
}

/// Extracts a tag and parses its value as a decimal integer.
pub fn extract_tag_u64(msg: &[u8], tag: u64) -> (r: Option<u64>)
    ensures
        r is Some <==> spec_tag_u64(msg@, tag as nat) is Some,
        r matches Some(v) ==> Some(v as nat) == spec_tag_u64(msg@, tag as nat),
{
    match find_tag_value(msg, tag) {
        None => None,
        Some(v) => parse_u64(v.as_slice()),
    }
}

/// Extracts a tag and parses its value as a scaled price.
pub fn extract_tag_price5(msg: &[u8], tag: u64) -> (r: Option<i64>)
    ensures
        r is Some <==> spec_tag_price5(msg@, tag as nat) is Some,
        r matches Some(v) ==> Some(v as int) == spec_tag_price5(msg@, tag as nat),
        r matches Some(v) ==> 0 <= v <= 1_000_000_000_000i64,
{
    match find_tag_value(msg, tag) {
        None => None,
        Some(v) => parse_price5(v.as_slice()),
    }
}

/// Extracts a tag and parses its value as a whole-unit quantity.
pub fn extract_tag_qty(msg: &[u8], tag: u64) -> (r: Option<u64>)
    ensures
        r is Some <==> spec_tag_qty(msg@, tag as nat) is Some,
        r matches Some(v) ==> Some(v as int) == spec_tag_qty(msg@, tag as nat),
        r matches Some(v) ==> v <= 1_000_000_000_000_000u64,
{
    match find_tag_value(msg, tag) {
        None => None,
        Some(v) => parse_qty(v.as_slice()),
    }
}

/// All positions where the pattern `<sep><tag>=` matches, in order.
pub open spec fn group_starts(msg: Seq<u8>, tag: nat, i: int) -> Seq<int>
    decreases msg.len() - i,
{
    if i < 0 || i >= msg.len() {
        Seq::empty()
    } else if tag_match_at(msg, tag, i) {
        seq![i] + group_starts(msg, tag, i + 1)
    } else {
        group_starts(msg, tag, i + 1)
    }
}

/// One market-data entry read from a fragment that starts at a group
/// delimiter: entry type 269 decides the side (0 is bid) and must be
/// present and numeric, else the entry is skipped; the update action 279
/// defaults to an upsert; price and volume default to zero.
pub open spec fn entry_of(frag: Seq<u8>) -> Option<BookUpdate> {
    match spec_tag_u64(frag, 269) {
        None => None,
        Some(sv) => Some(BookUpdate {
            action: if spec_tag_u64(frag, 279) == Some(2nat) { '2' } else { '1' },
            side: if sv == 0 { '0' } else { '1' },
            price_key: match spec_tag_price5(frag, 270) {
                Some(p) => p as i64,
                None => 0,
            },
            volume: match spec_tag_qty(frag, 271) {
                Some(q) => q as u64,
                None => 0,
            },
        }),
    }
}

/// The book updates carried by the fragments between successive group
/// delimiters (the last fragment runs to `end`).
pub open spec fn entries_from(msg: Seq<u8>, starts: Seq<int>, end: int) -> Seq<BookUpdate>
    decreases starts.len(),
{
    if starts.len() == 0 {
        Seq::empty()
    } else {
        let stop = if starts.len() > 1 { starts[1] } else { end };
        let rest = entries_from(msg, starts.drop_first(), end);
        match entry_of(msg.subrange(starts[0], stop)) {
            Some(u) => seq![u] + rest,
            None => rest,
        }
    }
}

/// All book updates of one market-data message: a snapshot (35=W) is
/// re-split on `269=`, an incremental update (35=X) on `279=`.
pub open spec fn spec_market_entries(msg: Seq<u8>) -> Seq<BookUpdate> {
    let gt: nat = if spec_tag_value(msg, 35) == Some(seq![87u8]) { 269nat } else { 279nat };
    entries_from(msg, group_starts(msg, gt, 0), msg.len() as int)
}

/// Tests the tag pattern at one position.
fn match_at_idx(msg: &[u8], d: &[u8], Ghost(tag): Ghost<nat>, i: usize) -> (r: bool)
    requires
        d@ == dec_digits(tag),
        i < msg@.len(),
    ensures
        r == tag_match_at(msg@, tag, i as int),
{
    let n = msg.len();
    let dl = d.len();
    if !(is_sep_byte(msg[i]) && dl < n && i + 1 < n - dl) {
        return false;
    }
    let mut j: usize = 0;
    while j < dl
        invariant
            0 <= j <= dl,
            dl == d@.len(),
            d@ == dec_digits(tag),
            i + 1 + dl < n,
            n == msg@.len(),
            forall|p: int| 0 <= p < j ==> #[trigger] msg@[i + 1 + p] == d@[p],
        decreases dl - j,
    {
        if msg[i + 1 + j] != d[j] {
            proof {
                if tag_match_at(msg@, tag, i as int) {
                    assert(msg@.subrange(i + 1, i + 1 + dl as int) == dec_digits(tag));
                    assert(msg@.subrange(i + 1, i + 1 + dl as int)[j as int]
                        == msg@[i + 1 + j]);
                    assert(msg@[i + 1 + j] == d@[j as int]);
                }
            }
            return false;
        }
        j = j + 1;
    }
    proof {
        assert forall|p: int| 0 <= p < dl implies
            msg@.subrange(i + 1, i + 1 + dl as int)[p] == d@[p] by {
            assert(msg@[i + 1 + p] == d@[p]);
        }
        assert(msg@.subrange(i + 1, i + 1 + dl as int) =~= d@);
    }
    msg[i + 1 + dl] == 61
}

/// Copies a byte region.
fn copy_range(msg: &[u8], a: usize, b: usize) -> (r: Vec<u8>)
    requires
        a <= b <= msg@.len(),
    ensures
        r@ == msg@.subrange(a as int, b as int),
{
    let mut r: Vec<u8> = Vec::new();
    let mut p: usize = a;
    while p < b
        invariant
            a <= p <= b <= msg@.len(),
            r@ == msg@.subrange(a as int, p as int),
        decreases b - p,
    {
        proof {
            assert(msg@.subrange(a as int, p + 1)
                =~= msg@.subrange(a as int, p as int).push(msg@[p as int]));
        }
        r.push(msg[p]);
        p = p + 1;
    }
    r
}

/// Reads one fragment into a book update, exactly as `entry_of` says.
fn parse_entry(frag: &[u8]) -> (r: Option<BookUpdate>)
    ensures
        r == entry_of(frag@),
{
    let side_v = match extract_tag_u64(frag, 269) {
        None => {
            return None;
        },
        Some(v) => v,
    };
    let action_v = extract_tag_u64(frag, 279);
    let price_v = extract_tag_price5(frag, 270);
    let vol_v = extract_tag_qty(frag, 271);
    let action: char = match action_v {
        Some(a) => if a == 2 { '2' } else { '1' },
        None => '1',
    };
    let side: char = if side_v == 0 { '0' } else { '1' };
    let price_key: i64 = match price_v {
        Some(p) => p,
        None => 0,
    };
    let volume: u64 = match vol_v {
        Some(q) => q,
        None => 0,
    };
    Some(BookUpdate { action, side, price_key, volume })
}

/// Splits one market-data message (35=W snapshot or 35=X increment) into
/// its book updates, in message order. The region is expected to begin at
/// a field separator, as it does when an inbound stream is split on the
/// protocol header that precedes each message.
pub fn parse_market_data(msg: &[u8]) -> (r: Vec<BookUpdate>)
    ensures
        r@ == spec_market_entries(msg@),
{
    let is_snapshot = match find_tag_value(msg, 35) {
        Some(v) => v.len() == 1 && v[0] == 87,
        None => false,
    };
    proof {
        if is_snapshot {
            assert(spec_tag_value(msg@, 35).unwrap() =~= seq![87u8]);
        }
    }
    let gt: u64 = if is_snapshot { 269 } else { 279 };
    let d = u64_to_dec(gt);
    let n = msg.len();
    let mut starts: Vec<usize> = Vec::new();
    let mut i: usize = 0;
    while i < n
        invariant
            0 <= i <= n,
            n == msg@.len(),
            d@ == dec_digits(gt as nat),
            group_starts(msg@, gt as nat, 0)
                == starts@.map_values(|u: usize| u as int)
                    + group_starts(msg@, gt as nat, i as int),
            forall|j: int| 0 <= j < starts@.len() ==> #[trigger] starts@[j] < i,
            forall|q1: int, q2: int| 0 <= q1 < q2 < starts@.len() ==>
                #[trigger] starts@[q1] < #[trigger] starts@[q2],
        decreases n - i,
    {
        let m = match_at_idx(msg, d.as_slice(), Ghost(gt as nat), i);
        proof {
            if m {
                assert(starts@.push(i).map_values(|u: usize| u as int)
                    =~= starts@.map_values(|u: usize| u as int) + seq![i as int]);
                assert(starts@.map_values(|u: usize| u as int) + (seq![i as int]
                    + group_starts(msg@, gt as nat, i + 1))
                    =~= (starts@.map_values(|u: usize| u as int) + seq![i as int])
                        + group_starts(msg@, gt as nat, i + 1));
            }
        }
        if m {
            starts.push(i);
        }
        i = i + 1;
    }
    let ghost all = group_starts(msg@, gt as nat, 0);
    proof {
        assert(all =~= starts@.map_values(|u: usize| u as int));
    }
    let sn = starts.len();
    let mut r: Vec<BookUpdate> = Vec::new();
    let mut j: usize = 0;
    proof {
        assert(all.subrange(0, sn as int) =~= all);
        assert(Seq::<BookUpdate>::empty() + entries_from(msg@, all, n as int)
            =~= entries_from(msg@, all, n as int));
    }
    while j < sn
        invariant
            0 <= j <= sn,
            sn == starts@.len(),
            n == msg@.len(),
            all == starts@.map_values(|u: usize| u as int),
            forall|q: int| 0 <= q < sn ==> #[trigger] starts@[q] < n,
            forall|q1: int, q2: int| 0 <= q1 < q2 < sn ==>
                #[trigger] starts@[q1] < #[trigger] starts@[q2],
            entries_from(msg@, all, n as int)
                == r@ + entries_from(msg@, all.subrange(j as int, sn as int), n as int),
        decreases sn - j,
    {
        let stop: usize = if j + 1 < sn { starts[j + 1] } else { n };
        let frag = copy_range(msg, starts[j], stop);
        let e = parse_entry(frag.as_slice());
        proof {
            let suf = all.subrange(j as int, sn as int);
            assert(suf[0] == starts@[j as int]);
            assert(suf.drop_first() =~= all.subrange(j + 1, sn as int));
            if j + 1 < sn {
                assert(suf[1] == starts@[j + 1]);
            }
            assert(frag@ == msg@.subrange(suf[0],
                if suf.len() > 1 { suf[1] } else { n as int }));
        }
        match e {
            Some(u) => {
                proof {
                    assert(r@.push(u) =~= r@ + seq![u]);
                    assert(r@ + (seq![u]
                        + entries_from(msg@, all.subrange(j + 1, sn as int), n as int))
                        =~= (r@ + seq![u])
                            + entries_from(msg@, all.subrange(j + 1, sn as int), n as int));
                }
                r.push(u);
            },
            None => {},
        }
        j = j + 1;
    }
    proof {
        assert(all.subrange(sn as int, sn as int) =~= Seq::<int>::empty());
        assert(entries_from(msg@, all.subrange(sn as int, sn as int), n as int)
            =~= Seq::<BookUpdate>::empty());
        assert(r@ =~= entries_from(msg@, all, n as int));
        if is_snapshot {
            assert(spec_tag_value(msg@, 35) == Some(seq![87u8]));
        } else {
            if spec_tag_value(msg@, 35) is Some {
                let v = spec_tag_value(msg@, 35).unwrap();
                if v =~= seq![87u8] {
                    assert(v.len() == 1 && v[0] == 87u8);
                }
            }
        }
    }
    r
}

} // verus!
