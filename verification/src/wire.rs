//! Byte-level vocabulary of the FIX tag=value wire format: ASCII decimal
//! numbers, the SOH field separator, byte checksums, and the
//! first-occurrence tag search that the incremental parser uses.

use vstd::prelude::*;

verus! {

/// FIX field separator.
pub const SOH: u8 = 1;

/// The parser accepts either the wire separator SOH or the pipe used when
/// messages are logged or quoted in text.
pub open spec fn is_sep(b: u8) -> bool {
    b == SOH || b == 124u8
}

pub open spec fn is_digit(b: u8) -> bool {
    48 <= b <= 57
}

pub open spec fn all_digits(s: Seq<u8>) -> bool {
    forall|i: int| 0 <= i < s.len() ==> is_digit(#[trigger] s[i])
}

/// ASCII decimal representation of `n`, most significant digit first.
pub open spec fn dec_digits(n: nat) -> Seq<u8>
    decreases n,
{
    if n < 10 {
        seq![(48 + n) as u8]
    } else {
        dec_digits(n / 10).push((48 + n % 10) as u8)
    }
}

/// Numeric value of an ASCII digit string (most significant first).
pub open spec fn digits_val(s: Seq<u8>) -> nat
    decreases s.len(),
{
    if s.len() == 0 {
        0
    } else {
        digits_val(s.drop_last()) * 10 + (if is_digit(s.last()) {
            (s.last() - 48) as nat
        } else {
            0nat
        })
    }
}

/// `dec_digits` produces only digits and reads back to the number it was
/// made from.
pub proof fn lemma_dec_digits_ok(n: nat)
    ensures
        dec_digits(n).len() >= 1,
        all_digits(dec_digits(n)),
        digits_val(dec_digits(n)) == n,
    decreases n,
{
    if n < 10 {
        assert(digits_val(dec_digits(n)) ==
            digits_val(dec_digits(n).drop_last()) * 10
            + (dec_digits(n).last() - 48) as nat);
        assert(dec_digits(n).drop_last() =~= Seq::<u8>::empty());
    } else {
        lemma_dec_digits_ok(n / 10);
        let d = dec_digits(n / 10);
        let t = d.push((48 + n % 10) as u8);
        assert(t.drop_last() =~= d);
        assert(forall|i: int| 0 <= i < t.len() ==> is_digit(#[trigger] t[i]));
        assert(digits_val(t) == (n / 10) * 10 + n % 10);
        assert((n / 10) * 10 + n % 10 == n) by {
            vstd::arithmetic::div_mod::lemma_fundamental_div_mod(n as int, 10);
        }
    }
}

/// Two numbers with the same digit string are the same number, and the
/// digit string of a tag followed by '=' is never a proper prefix of
/// another tag's digits-plus-'=': digits never contain '='.
pub proof fn lemma_dec_digits_injective(a: nat, b: nat)
    requires
        dec_digits(a) == dec_digits(b),
    ensures
        a == b,
{
    lemma_dec_digits_ok(a);
    lemma_dec_digits_ok(b);
}

/// Converts `n` to its ASCII decimal digits.
pub fn u64_to_dec(n: u64) -> (r: Vec<u8>)
    ensures
        r@ == dec_digits(n as nat),
    decreases n,
{
    if n < 10 {
        let mut r: Vec<u8> = Vec::new();
        r.push(48 + (n as u8));
        r
    } else {
        let mut r = u64_to_dec(n / 10);
        r.push(48 + ((n % 10) as u8));
        r
    }
}

/// The value of a digit string never drops as the string is extended to
/// the right.
proof fn lemma_digits_val_prefix_le(s: Seq<u8>, i: int)
    requires
        0 <= i <= s.len(),
    ensures
        digits_val(s.subrange(0, i)) <= digits_val(s),
    decreases s.len() - i,
{
    if i == s.len() {
        assert(s.subrange(0, i) =~= s);
    } else {
        lemma_digits_val_prefix_le(s, i + 1);
        let p = s.subrange(0, i + 1);
        assert(p.drop_last() =~= s.subrange(0, i));
        assert(digits_val(p) == digits_val(s.subrange(0, i)) * 10
            + (if is_digit(p.last()) { (p.last() - 48) as nat } else { 0nat }));
    }
}

/// Parses an ASCII decimal string. Returns the value exactly when the
/// input is non-empty, all digits, and fits in a `u64`.
pub fn parse_u64(s: &[u8]) -> (r: Option<u64>)
    ensures
        r is Some <==> (s@.len() >= 1 && all_digits(s@) && digits_val(s@) <= u64::MAX),
        r matches Some(v) ==> v == digits_val(s@),
{
    let n = s.len();
    if n == 0 {
        return None;
    }
    let mut acc: u64 = 0;
    let mut i: usize = 0;
    while i < n
        invariant
            0 <= i <= n,
            n == s@.len(),
            all_digits(s@.subrange(0, i as int)),
            acc == digits_val(s@.subrange(0, i as int)),
        decreases n - i,
    {
        let b = s[i];
        if b < 48 || b > 57 {
            assert(!all_digits(s@));
            return None;
        }
        let d = (b - 48) as u64;
        proof {
            assert(s@.subrange(0, i + 1).drop_last() =~= s@.subrange(0, i as int));
        }
        if acc > (u64::MAX - d) / 10 {
            proof {
                lemma_digits_val_prefix_le(s@, i + 1);
                assert(acc * 10 + d > u64::MAX) by (nonlinear_arith)
                    requires acc > (u64::MAX - d) / 10, d <= 9,
                {
                    vstd::arithmetic::div_mod::lemma_fundamental_div_mod(
                        (u64::MAX - d) as int, 10);
                }
            }
            return None;
        }
        proof {
            assert(acc * 10 + d <= u64::MAX) by (nonlinear_arith)
                requires acc <= (u64::MAX - d) / 10, d <= 9,
            {
                vstd::arithmetic::div_mod::lemma_fundamental_div_mod(
                    (u64::MAX - d) as int, 10);
            }
        }
        acc = acc * 10 + d;
        i = i + 1;
    }
    proof {
        assert(s@.subrange(0, n as int) =~= s@);
    }
    Some(acc)
}

/// Sum of all byte values of a message region.
pub open spec fn sum_bytes(s: Seq<u8>) -> int
    decreases s.len(),
{
    if s.len() == 0 {
        0int
    } else {
        sum_bytes(s.drop_last()) + s.last()
    }
}

/// Modulo-256 checksum of a byte region.
pub fn checksum_mod256(s: &[u8]) -> (r: u8)
    ensures
        r == sum_bytes(s@) % 256,
{
    let n = s.len();
    let mut acc: u16 = 0;
    let mut i: usize = 0;
    while i < n
        invariant
            0 <= i <= n,
            n == s@.len(),
            acc < 256,
            acc == sum_bytes(s@.subrange(0, i as int)) % 256,
        decreases n - i,
    {
        proof {
            assert(s@.subrange(0, i + 1).drop_last() =~= s@.subrange(0, i as int));
            let p = sum_bytes(s@.subrange(0, i as int));
            let b = s@[i as int];
            vstd::arithmetic::div_mod::lemma_add_mod_noop(p, b as int, 256);
            vstd::arithmetic::div_mod::lemma_mod_twice(p, 256);
        }
        acc = (acc + s[i] as u16) % 256;
        i = i + 1;
    }
    proof {
        assert(s@.subrange(0, n as int) =~= s@);
    }
    acc as u8
}

/// Three-digit zero-padded ASCII form of a checksum value below 256.
pub open spec fn cs3(n: int) -> Seq<u8> {
    seq![(48 + n / 100) as u8, (48 + (n / 10) % 10) as u8, (48 + n % 10) as u8]
}

/// Appending one digit multiplies the value by ten and adds the digit.
pub proof fn lemma_digits_val_push(s: Seq<u8>, x: u8)
    requires
        is_digit(x),
    ensures
        digits_val(s.push(x)) == digits_val(s) * 10 + (x - 48),
{
    assert(s.push(x).drop_last() =~= s);
    assert(s.push(x).last() == x);
}

/// The three checksum digits are digits and read back to the checksum.
pub proof fn lemma_cs3_ok(n: int)
    requires
        0 <= n < 256,
    ensures
        cs3(n).len() == 3,
        all_digits(cs3(n)),
        digits_val(cs3(n)) == n,
{
    vstd::arithmetic::div_mod::lemma_fundamental_div_mod(n, 10);
    vstd::arithmetic::div_mod::lemma_fundamental_div_mod(n / 10, 10);
    assert(0 <= n / 100 < 10 && 0 <= (n / 10) % 10 < 10 && 0 <= n % 10 < 10)
        by (nonlinear_arith)
        requires 0 <= n < 256;
    let s = cs3(n);
    assert(s.drop_last() =~= seq![(48 + n / 100) as u8, (48 + (n / 10) % 10) as u8]);
    assert(s.drop_last().drop_last() =~= seq![(48 + n / 100) as u8]);
    assert(s.drop_last().drop_last().drop_last() =~= Seq::<u8>::empty());
    assert(n / 10 / 10 == n / 100) by {
        vstd::arithmetic::div_mod::lemma_div_denominator(n, 10, 10);
    }
    let a = (48 + n / 100) as u8;
    let b = (48 + (n / 10) % 10) as u8;
    let c = (48 + n % 10) as u8;
    assert(s =~= seq![a].push(b).push(c));
    assert(seq![a].drop_last() =~= Seq::<u8>::empty());
    assert(digits_val(Seq::<u8>::empty()) == 0);
    assert(is_digit(a) && is_digit(b) && is_digit(c));
    assert(seq![a].last() == a);
    assert(digits_val(seq![a]) == n / 100);
    lemma_digits_val_push(seq![a], b);
    lemma_digits_val_push(seq![a].push(b), c);
    assert(digits_val(s) == ((n / 100) * 10 + (n / 10) % 10) * 10 + n % 10);
    assert(((n / 100) * 10 + (n / 10) % 10) * 10 + n % 10 == n) by (nonlinear_arith)
        requires
            n == (n / 10) * 10 + n % 10,
            n / 10 == (n / 10 / 10) * 10 + (n / 10) % 10,
            n / 10 / 10 == n / 100;
}

/// Emits the three-digit checksum field value.
pub fn cs3_bytes(n: u8) -> (r: Vec<u8>)
    ensures
        r@ == cs3(n as int),
{
    let mut r: Vec<u8> = Vec::new();
    r.push(48 + n / 100);
    r.push(48 + (n / 10) % 10);
    r.push(48 + n % 10);
    proof {
        assert(r@ =~= cs3(n as int));
    }
    r
}

/// True when the pattern `<sep><tag digits>=` stands at position `i`.
pub open spec fn tag_match_at(msg: Seq<u8>, tag: nat, i: int) -> bool {
    let d = dec_digits(tag);
    &&& 0 <= i
    &&& i + 1 + d.len() < msg.len()
    &&& is_sep(msg[i])
    &&& msg.subrange(i + 1, i + 1 + d.len()) == d
    &&& msg[i + 1 + d.len()] == 61u8
}

/// Position of the first match of the tag pattern at or after `i`;
/// `msg.len()` when there is none.
pub open spec fn find_from(msg: Seq<u8>, tag: nat, i: int) -> int
    decreases msg.len() - i,
{
    if i < 0 || i >= msg.len() {
        msg.len() as int
    } else if tag_match_at(msg, tag, i) {
        i
    } else {
        find_from(msg, tag, i + 1)
    }
}

/// Position of the first separator byte at or after `i`; `msg.len()` when
/// there is none.
pub open spec fn sep_from(msg: Seq<u8>, i: int) -> int
    decreases msg.len() - i,
{
    if i < 0 || i >= msg.len() {
        msg.len() as int
    } else if is_sep(msg[i]) {
        i
    } else {
        sep_from(msg, i + 1)
    }
}

/// Value of the first occurrence of `<sep><tag>=` in the message: the bytes
/// from after the '=' up to the next separator or the end of the message.
pub open spec fn spec_tag_value(msg: Seq<u8>, tag: nat) -> Option<Seq<u8>> {
    let m = find_from(msg, tag, 0);
    if m == msg.len() {
        None
    } else {
        let vs = m + 2 + dec_digits(tag).len();
        Some(msg.subrange(vs, sep_from(msg, vs)))
    }
}

/// `find_from` is unchanged by skipping over a region with no match.
pub proof fn lemma_find_from_skip(msg: Seq<u8>, tag: nat, i: int, j: int)
    requires
        0 <= i <= j <= msg.len(),
        forall|p: int| i <= p < j ==> !tag_match_at(msg, tag, p),
    ensures
        find_from(msg, tag, i) == find_from(msg, tag, j),
    decreases j - i,
{
    if i < j {
        lemma_find_from_skip(msg, tag, i + 1, j);
    }
}

/// A match found by `find_from` really is a match, and nothing earlier is.
pub proof fn lemma_find_from_found(msg: Seq<u8>, tag: nat, i: int)
    requires
        0 <= i <= msg.len(),
    ensures
        find_from(msg, tag, i) == msg.len()
            || (i <= find_from(msg, tag, i) < msg.len()
                && tag_match_at(msg, tag, find_from(msg, tag, i))),
        forall|p: int| i <= p < find_from(msg, tag, i) ==> !tag_match_at(msg, tag, p),
    decreases msg.len() - i,
{
    if i < msg.len() && !tag_match_at(msg, tag, i) {
        lemma_find_from_found(msg, tag, i + 1);
    }
}

/// `sep_from` semantics, unrolled the same way.
pub proof fn lemma_sep_from_found(msg: Seq<u8>, i: int)
    requires
        0 <= i <= msg.len(),
    ensures
        i <= sep_from(msg, i) <= msg.len(),
        sep_from(msg, i) < msg.len() ==> is_sep(msg[sep_from(msg, i)]),
        forall|p: int| i <= p < sep_from(msg, i) ==> !is_sep(#[trigger] msg[p]),
    decreases msg.len() - i,
{
    if i < msg.len() && !is_sep(msg[i]) {
        lemma_sep_from_found(msg, i + 1);
    }
}

/// First-occurrence extraction of `<sep><tag>=value<sep>` from raw message
/// bytes; exactly the `spec_tag_value` semantics.
pub fn find_tag_value(msg: &[u8], tag: u64) -> (r: Option<Vec<u8>>)
    ensures
        r is Some <==> spec_tag_value(msg@, tag as nat) is Some,
        r matches Some(v) ==> spec_tag_value(msg@, tag as nat) == Some(v@),
{
    let d = u64_to_dec(tag);
    let dl = d.len();
    let n = msg.len();
    let mut i: usize = 0;
    let m: usize = n;
    while i < n
        invariant
            0 <= i <= n,
            n == msg@.len(),
            d@ == dec_digits(tag as nat),
            dl == d@.len(),
            m == n,
            forall|p: int| 0 <= p < i ==> !tag_match_at(msg@, tag as nat, p),
        decreases n - i,
    {
        if is_sep_byte(msg[i]) && dl < n && i + 1 < n - dl {
            let mut j: usize = 0;
            let mut ok = true;
            while j < dl
                invariant
                    0 <= j <= dl,
                    dl == d@.len(),
                    i + 1 + dl < n,
                    n == msg@.len(),
                    ok <==> msg@.subrange(i + 1, i + 1 + j as int) =~= d@.subrange(0, j as int),
                decreases dl - j,
            {
                let same = msg[i + 1 + j] == d[j];
                proof {
                    if ok && same {
                        assert(msg@.subrange(i + 1, i + 2 + j as int)
                            =~= msg@.subrange(i + 1, i + 1 + j as int).push(msg@[i + 1 + j]));
                        assert(d@.subrange(0, j + 1)
                            =~= d@.subrange(0, j as int).push(d@[j as int]));
                    } else if !same {
                        assert(msg@.subrange(i + 1, i + 2 + j as int)[j as int]
                            == msg@[i + 1 + j]);
                        assert(d@.subrange(0, j + 1)[j as int] == d@[j as int]);
                    } else {
                        let w = choose|w: int| 0 <= w < j
                            && msg@.subrange(i + 1, i + 1 + j as int)[w] != d@.subrange(0, j as int)[w];
                        assert(msg@.subrange(i + 1, i + 2 + j as int)[w]
                            != d@.subrange(0, j + 1)[w]);
                    }
                }
                ok = ok && same;
                j = j + 1;
            }
            if ok && msg[i + 1 + dl] == 61 {
                proof {
                    assert(msg@.subrange(i + 1, i + 1 + dl as int) =~= d@.subrange(0, dl as int));
                    assert(d@.subrange(0, dl as int) =~= d@);
                    assert(tag_match_at(msg@, tag as nat, i as int));
                    lemma_find_from_skip(msg@, tag as nat, 0, i as int);
                    assert(find_from(msg@, tag as nat, i as int) == i);
                }
                // extract the value: from after '=' to the next separator
                let vs = i + 2 + dl;
                let mut e: usize = vs;
                while e < n && !is_sep_byte(msg[e])
                    invariant
                        vs <= e <= n,
                        n == msg@.len(),
                        forall|p: int| vs <= p < e ==> !is_sep(#[trigger] msg@[p]),
                    decreases n - e,
                {
                    e = e + 1;
                }
                proof {
                    lemma_sep_from_found(msg@, vs as int);
                    if e < n {
                        assert(sep_from(msg@, vs as int) == e) by {
                            lemma_sep_skip(msg@, vs as int, e as int);
                        }
                    } else {
                        lemma_sep_skip(msg@, vs as int, e as int);
                    }
                }
                let mut v: Vec<u8> = Vec::new();
                let mut p: usize = vs;
                while p < e
                    invariant
                        vs <= p <= e <= n,
                        n == msg@.len(),
                        v@ == msg@.subrange(vs as int, p as int),
                    decreases e - p,
                {
                    proof {
                        assert(msg@.subrange(vs as int, p + 1)
                            =~= msg@.subrange(vs as int, p as int).push(msg@[p as int]));
                    }
                    v.push(msg[p]);
                    p = p + 1;
                }
                return Some(v);
            }
            proof {
                if tag_match_at(msg@, tag as nat, i as int) {
                    assert(msg@.subrange(i + 1, i + 1 + dl as int) == d@);
                    assert(msg@.subrange(i + 1, i + 1 + dl as int) =~= d@.subrange(0, dl as int));
                }
            }
        }
        i = i + 1;
    }
    proof {
        lemma_find_from_skip(msg@, tag as nat, 0, n as int);
    }
    None
}

/// `sep_from` is unchanged by skipping a separator-free region.
pub proof fn lemma_sep_skip(msg: Seq<u8>, i: int, j: int)
    requires
        0 <= i <= j <= msg.len(),
        forall|p: int| i <= p < j ==> !is_sep(#[trigger] msg[p]),
    ensures
        sep_from(msg, i) == sep_from(msg, j),
    decreases j - i,
{
    if i < j {
        lemma_sep_skip(msg, i + 1, j);
    }
}

/// Separator test on a raw byte.
pub fn is_sep_byte(b: u8) -> (r: bool)
    ensures
        r == is_sep(b),
{
    b == 1 || b == 124
}

} // verus!
