//! Wall-clock timestamps for outbound FIX messages and order ids. The
//! calls into chrono are trusted; everything stated of them is that the
//! formatted text stays inside a byte alphabet that can never collide
//! with the wire format's separators.

use vstd::prelude::*;
use crate::wire::is_digit;

verus! {

/// Bytes that chrono's numeric date formats emit: digits, '-', ':' and a
/// possible leading sign for out-of-range years.
pub open spec fn stamp_byte_ok(b: u8) -> bool {
    is_digit(b) || b == 45u8 || b == 58u8 || b == 43u8
}

pub open spec fn stamp_ok(s: Seq<u8>) -> bool {
    forall|i: int| 0 <= i < s.len() ==> stamp_byte_ok(#[trigger] s[i])
}

/// Relies on chrono's `Utc::now` and `DateTime::format` with the pattern
/// `%Y%m%d-%H:%M:%S`: every zero-padded numeric field writes ASCII
/// digits, the literal separators are '-' and ':', and a year outside
/// 0..=9999 carries a '+' or '-' sign.
#[verifier::external_body]
pub fn utc_stamp_seconds() -> (r: Vec<u8>)
    ensures
        stamp_ok(r@),
{
    format!("{}", chrono::Utc::now().format("%Y%m%d-%H:%M:%S")).into_bytes()
}

/// Relies on chrono's `Utc::now` and `DateTime::format` with the pattern
/// `%Y%m%d-%H%M%S`: the same alphabet without the colons.
#[verifier::external_body]
pub fn utc_stamp_compact() -> (r: Vec<u8>)
    ensures
        stamp_ok(r@),
{
    format!("{}", chrono::Utc::now().format("%Y%m%d-%H%M%S")).into_bytes()
}

/// A stamp never holds a field separator, so it can stand as a FIX value.
pub proof fn lemma_stamp_clean(s: Seq<u8>)
    requires
        stamp_ok(s),
    ensures
        crate::fix_engine::clean_value(s),
{
    assert forall|i: int| 0 <= i < s.len() implies
        !crate::wire::is_sep(#[trigger] s[i]) by {
        assert(stamp_byte_ok(s[i]));
    }
}

} // verus!