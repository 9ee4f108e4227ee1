//! Client order id generator: a monotonic counter combined with a UTC
//! stamp into `ID-YYYYMMDD-HHMMSS-NNNN`.

use vstd::prelude::*;
use crate::wire::{dec_digits, u64_to_dec};
use crate::clock::{stamp_ok, utc_stamp_compact};

verus! {

/// Monotonic counter for client order ids.
pub struct IdGenerator {
    pub counter: u64,
}

/// The counter printed to at least four digits, zero padded.
pub open spec fn pad4(n: nat) -> Seq<u8> {
    let d = dec_digits(n);
    if d.len() >= 4 {
        d
    } else {
        Seq::new((4 - d.len()) as nat, |i: int| 48u8) + d
    }
}

/// The id bytes for one stamp and counter value: `ID-<stamp>-<counter>`.
pub open spec fn id_bytes(stamp: Seq<u8>, n: nat) -> Seq<u8> {
    seq![73u8, 68u8, 45u8] + stamp + seq![45u8] + pad4(n)
}

impl IdGenerator {
    pub fn new() -> (g: IdGenerator)
        ensures
            g.counter == 1,
    {
        IdGenerator { counter: 1 }
    }

    /// Produces the next unique client order id and advances the
    /// counter: the id carries the current counter value, so successive
    /// ids differ.
    pub fn next_id(&mut self) -> (r: Vec<u8>)
        requires
            old(self).counter < u64::MAX,
        ensures
            final(self).counter == old(self).counter + 1,
            exists|st: Seq<u8>| #[trigger] stamp_ok(st)
                && r@ == id_bytes(st, old(self).counter as nat),
    {
        let stamp = utc_stamp_compact();
        let count = self.counter;
        self.counter = self.counter + 1;
        let mut r: Vec<u8> = Vec::new();
        r.push(73);
        r.push(68);
        r.push(45);
        let mut st = stamp;
        let ghost st0 = st@;
        r.append(&mut st);
        r.push(45);
        let digits = u64_to_dec(count);
        let dl = digits.len();
        proof {
            crate::wire::lemma_dec_digits_ok(count as nat);
        }
        if dl < 4 {
            let mut z: usize = 0;
            while z < 4 - dl
                invariant
                    0 <= z <= 4 - dl,
                    dl >= 1,
                    dl == dec_digits(count as nat).len(),
                    r@ == seq![73u8, 68u8, 45u8] + st0 + seq![45u8]
                        + Seq::new(z as nat, |i: int| 48u8),
                decreases 4 - dl - z,
            {
                proof {
                    assert(Seq::new((z + 1) as nat, |i: int| 48u8)
                        =~= Seq::new(z as nat, |i: int| 48u8).push(48u8));
                    assert(r@.push(48u8) =~= seq![73u8, 68u8, 45u8] + st0 + seq![45u8]
                        + Seq::new((z + 1) as nat, |i: int| 48u8));
                }
                r.push(48);
                z = z + 1;
            }
        }
        let mut digits = digits;
        r.append(&mut digits);
        proof {
            assert(r@ =~= id_bytes(st0, count as nat));
            assert(stamp_ok(st0) && r@ == id_bytes(st0, count as nat));
        }
        r
    }
}

} // verus!