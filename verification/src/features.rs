//! Rolling feature window: the last W feature rows (mid price, velocity,
//! noise, context, and three depth imbalances, all micro units), and the
//! Z-score standardization of the newest row against the whole window
//! (population statistics), with the divisor floored by one micro unit.

use vstd::prelude::*;
use crate::state::{OrderBook, book_wf, imbalance_micro, depth_bid_vol, depth_ask_vol};
use crate::math_utils::{spec_isqrt, isqrt_micro, div_trunc};

verus! {

/// Largest admissible magnitude of one feature value (covers every micro
/// mid price the book can produce).
pub const FEATURE_LIMIT: i64 = 10_000_000_000_000;

/// Largest admissible window size.
pub const MAX_FEATURE_WINDOW: usize = 10_000;

/// Number of features per row.
pub const FEATURE_DIM: usize = 7;

pub struct FeatureCollector {
    pub window_size: usize,
    pub data: Vec<Vec<i64>>,
}

/// The window as a sequence of rows of values.
pub open spec fn rows_view(data: Seq<Vec<i64>>) -> Seq<Seq<i64>> {
    data.map_values(|v: Vec<i64>| v@)
}

pub open spec fn fc_wf(fc: FeatureCollector) -> bool {
    &&& 1 <= fc.window_size <= MAX_FEATURE_WINDOW
    &&& fc.data@.len() <= fc.window_size
    &&& forall|i: int| 0 <= i < fc.data@.len() ==>
        (#[trigger] fc.data@[i])@.len() == FEATURE_DIM
    &&& forall|i: int, j: int| 0 <= i < fc.data@.len()
        && 0 <= j < FEATURE_DIM ==>
        -FEATURE_LIMIT <= #[trigger] fc.data@[i]@[j] <= FEATURE_LIMIT
}

/// The mid price pushed as first feature: zero when a side is empty.
pub open spec fn mid_or_zero(b: OrderBook) -> i64 {
    if b.bids@.len() == 0 || b.asks@.len() == 0 {
        0i64
    } else {
        ((b.bids@.last().0 + b.asks@.first().0) * 5) as i64
    }
}

/// One feature row: mid, velocity, noise, context, and the imbalances of
/// the top three depth levels.
pub open spec fn feature_row(
    b: OrderBook, velocity_micro: i64, noise_micro: i64, context_micro: i64,
) -> Seq<i64> {
    seq![
        mid_or_zero(b), velocity_micro, noise_micro, context_micro,
        imbalance_micro(depth_bid_vol(b, 0), depth_ask_vol(b, 0)) as i64,
        imbalance_micro(depth_bid_vol(b, 1), depth_ask_vol(b, 1)) as i64,
        imbalance_micro(depth_bid_vol(b, 2), depth_ask_vol(b, 2)) as i64,
    ]
}

pub open spec fn col_sum(rows: Seq<Seq<i64>>, j: int) -> int
    decreases rows.len(),
{
    if rows.len() == 0 {
        0int
    } else {
        col_sum(rows.drop_last(), j) + rows.last()[j]
    }
}

pub open spec fn col_sumsq(rows: Seq<Seq<i64>>, j: int) -> int
    decreases rows.len(),
{
    if rows.len() == 0 {
        0int
    } else {
        col_sumsq(rows.drop_last(), j) + rows.last()[j] * rows.last()[j]
    }
}

/// The standardized value of the newest row in column `j`: the exact
/// integer form of (last - mean) / (std + 1e-6) in micro units, with the
/// population variance taken from W * sum of squares - (sum)^2, clamped
/// to a safe magnitude.
pub open spec fn spec_z(rows: Seq<Seq<i64>>, j: int) -> int {
    let w = rows.len() as int;
    let s = col_sum(rows, j);
    let ss = col_sumsq(rows, j);
    let d0 = w * ss - s * s;
    let d = if d0 < 0 { 0int } else { d0 };
    let z = div_trunc((rows.last()[j] * w - s) * 1000000, spec_isqrt(d) + w);
    if z > 1_000_000_000_000_000_000 {
        1_000_000_000_000_000_000int
    } else if z < -1_000_000_000_000_000_000 {
        -1_000_000_000_000_000_000int
    } else {
        z
    }
}

impl FeatureCollector {
    pub fn new(window_size: usize) -> (fc: FeatureCollector)
        requires
            1 <= window_size <= MAX_FEATURE_WINDOW,
        ensures
            fc_wf(fc),
            fc.window_size == window_size,
            fc.data@.len() == 0,
    {
        FeatureCollector { window_size, data: Vec::new() }
    }

    /// Packs the current book metrics and signals into one row, evicting
    /// the oldest row when the window is full.
    pub fn push_features(
        &mut self, book: &OrderBook, velocity_micro: i64, noise_micro: i64,
        context_micro: i64,
    )
        requires
            fc_wf(*old(self)),
            book_wf(*book),
            -FEATURE_LIMIT <= velocity_micro <= FEATURE_LIMIT,
            -FEATURE_LIMIT <= noise_micro <= FEATURE_LIMIT,
            -FEATURE_LIMIT <= context_micro <= FEATURE_LIMIT,
        ensures
            fc_wf(*final(self)),
            final(self).window_size == old(self).window_size,
            rows_view(final(self).data@) ==
                (if old(self).data@.len() >= old(self).window_size {
                    rows_view(old(self).data@).drop_first()
                } else {
                    rows_view(old(self).data@)
                }).push(feature_row(*book, velocity_micro, noise_micro, context_micro)),
    {
        let mut row: Vec<i64> = Vec::new();
        let mid: i64 = match book.get_mid_price() {
            Some(m) => m,
            None => 0,
        };
        proof {
            if book.bids@.len() > 0 && book.asks@.len() > 0 {
                crate::state::lemma_ladder_bounds(book.bids@);
                crate::state::lemma_ladder_bounds(book.asks@);
            }
        }
        row.push(mid);
        row.push(velocity_micro);
        row.push(noise_micro);
        row.push(context_micro);
        let depth = book.get_depth_vector(3);
        row.push(depth[0]);
        row.push(depth[1]);
        row.push(depth[2]);
        proof {
            assert(row@ =~= feature_row(*book, velocity_micro, noise_micro, context_micro));
        }
        let ghost rows0 = rows_view(self.data@);
        if self.data.len() >= self.window_size {
            self.data.remove(0);
            proof {
                assert(rows_view(self.data@) =~= rows0.drop_first());
            }
        }
        let ghost rows1 = rows_view(self.data@);
        self.data.push(row);
        proof {
            assert(rows_view(self.data@) =~= rows1.push(row@));
        }
    }

    /// The newest row standardized against the whole window; empty until
    /// ten rows have been collected.
    pub fn get_standardized_vector(&self) -> (r: Vec<i64>)
        requires
            fc_wf(*self),
        ensures
            self.data@.len() < 10 ==> r@.len() == 0,
            self.data@.len() >= 10 ==> {
                &&& r@.len() == FEATURE_DIM
                &&& forall|j: int| 0 <= j < FEATURE_DIM ==>
                    #[trigger] r@[j] == spec_z(rows_view(self.data@), j)
            },
    {
        let w = self.data.len();
        if w < 10 {
            return Vec::new();
        }
        let ghost rows = rows_view(self.data@);
        let mut r: Vec<i64> = Vec::new();
        let mut j: usize = 0;
        while j < FEATURE_DIM
            invariant
                0 <= j <= FEATURE_DIM,
                fc_wf(*self),
                10 <= w == self.data@.len(),
                rows == rows_view(self.data@),
                r@.len() == j,
                forall|q: int| 0 <= q < j ==> #[trigger] r@[q] == spec_z(rows, q),
            decreases FEATURE_DIM - j,
        {
            let z = self.column_z(j);
            r.push(z);
            j = j + 1;
        }
        r
    }

    /// Standardizes one column.
    fn column_z(&self, j: usize) -> (z: i64)
        requires
            fc_wf(*self),
            self.data@.len() >= 10,
            j < FEATURE_DIM,
        ensures
            z == spec_z(rows_view(self.data@), j as int),
    {
        let ghost rows = rows_view(self.data@);
        let w = self.data.len();
        let mut s: i128 = 0;
        let mut ss: i128 = 0;
        let mut i: usize = 0;
        while i < w
            invariant
                0 <= i <= w,
                fc_wf(*self),
                j < FEATURE_DIM,
                w == self.data@.len(),
                rows == rows_view(self.data@),
                s == col_sum(rows.subrange(0, i as int), j as int),
                ss == col_sumsq(rows.subrange(0, i as int), j as int),
                -(i as int) * (FEATURE_LIMIT as int) <= s <= (i as int) * (FEATURE_LIMIT as int),
                0 <= ss <= (i as int) * ((FEATURE_LIMIT as int) * (FEATURE_LIMIT as int)),
            decreases w - i,
        {
            let x: i64 = self.data[i][j];
            proof {
                assert(rows[i as int] == self.data@[i as int]@);
                assert(x == rows[i as int][j as int]);
                assert(rows.subrange(0, i + 1).drop_last() =~= rows.subrange(0, i as int));
                assert(rows.subrange(0, i + 1).last() == rows[i as int]);
                assert(-FEATURE_LIMIT <= x <= FEATURE_LIMIT);
                assert(x as int * x as int
                    <= (FEATURE_LIMIT as int) * (FEATURE_LIMIT as int)) by (nonlinear_arith)
                    requires -(FEATURE_LIMIT as int) <= x as int <= FEATURE_LIMIT as int;
                assert(x as int * x as int >= 0) by (nonlinear_arith);
                assert((i as int) * (FEATURE_LIMIT as int) + (FEATURE_LIMIT as int)
                    == (i + 1) * (FEATURE_LIMIT as int)) by (nonlinear_arith);
                assert((i as int) * ((FEATURE_LIMIT as int) * (FEATURE_LIMIT as int))
                    + (FEATURE_LIMIT as int) * (FEATURE_LIMIT as int)
                    == (i + 1) * ((FEATURE_LIMIT as int) * (FEATURE_LIMIT as int)))
                    by (nonlinear_arith);
                assert((i + 1) * (FEATURE_LIMIT as int)
                    <= 10_000 * (FEATURE_LIMIT as int)) by (nonlinear_arith)
                    requires i + 1 <= 10_000;
                assert((i + 1) * ((FEATURE_LIMIT as int) * (FEATURE_LIMIT as int))
                    <= 10_000 * ((FEATURE_LIMIT as int) * (FEATURE_LIMIT as int)))
                    by (nonlinear_arith)
                    requires i + 1 <= 10_000;
            }
            s = s + x as i128;
            ss = ss + (x as i128) * (x as i128);
            i = i + 1;
        }
        proof {
            assert(rows.subrange(0, w as int) =~= rows);
            assert((w as int) * (FEATURE_LIMIT as int)
                <= 10_000 * (FEATURE_LIMIT as int)) by (nonlinear_arith)
                requires w as int <= 10_000;
            assert((w as int) * ((FEATURE_LIMIT as int) * (FEATURE_LIMIT as int))
                <= 10_000 * ((FEATURE_LIMIT as int) * (FEATURE_LIMIT as int)))
                by (nonlinear_arith)
                requires w as int <= 10_000;
            assert((w as int) * ss <= 10_000int * (10_000int
                * ((FEATURE_LIMIT as int) * (FEATURE_LIMIT as int)))) by (nonlinear_arith)
                requires
                    0 <= ss <= 10_000int * ((FEATURE_LIMIT as int) * (FEATURE_LIMIT as int)),
                    0 <= w as int <= 10_000;
            assert(s * s <= (10_000int * (FEATURE_LIMIT as int))
                * (10_000int * (FEATURE_LIMIT as int))) by (nonlinear_arith)
                requires
                    -(10_000int * (FEATURE_LIMIT as int)) <= s
                        <= 10_000int * (FEATURE_LIMIT as int);
            assert(s * s >= 0) by (nonlinear_arith);
        }
        let d0: i128 = (w as i128) * ss - s * s;
        let d: i128 = if d0 < 0 { 0 } else { d0 };
        let sd128 = isqrt_micro(d as u128);
        proof {
            assert(sd128 as int * sd128 as int <= d as int);
            if sd128 as int > 200_000_000_000_000_000int {
                assert(sd128 as int * sd128 as int
                    > 200_000_000_000_000_000int * 200_000_000_000_000_000int)
                    by (nonlinear_arith)
                    requires sd128 as int > 200_000_000_000_000_000int;
            }
            assert(sd128 <= 200_000_000_000_000_000u128);
        }
        let sd: i128 = sd128 as i128;
        let last: i64 = self.data[w - 1][j];
        proof {
            assert(rows[w - 1] == self.data@[w - 1]@);
            assert(rows.last()[j as int] == last);
            assert(-FEATURE_LIMIT <= last <= FEATURE_LIMIT);
            assert(last as int * w as int <= (FEATURE_LIMIT as int) * 10_000int
                && last as int * w as int >= -((FEATURE_LIMIT as int) * 10_000int))
                by (nonlinear_arith)
                requires
                    -(FEATURE_LIMIT as int) <= last as int <= FEATURE_LIMIT as int,
                    0 <= w as int <= 10_000;
        }
        let num: i128 = ((last as i128) * (w as i128) - s) * 1000000;
        let den: i128 = sd + (w as i128);
        let z128: i128 = if num >= 0 { num / den } else { -((-num) / den) };
        proof {
            assert(z128 == div_trunc(num as int, den as int));
            if num >= 0 {
                vstd::arithmetic::div_mod::lemma_div_pos_is_pos(num as int, den as int);
                vstd::arithmetic::div_mod::lemma_div_is_ordered(0, num as int, den as int);
            } else {
                vstd::arithmetic::div_mod::lemma_div_pos_is_pos(-(num as int), den as int);
            }
        }
        let z: i64 = if z128 > 1_000_000_000_000_000_000 {
            1_000_000_000_000_000_000
        } else if z128 < -1_000_000_000_000_000_000 {
            -1_000_000_000_000_000_000
        } else {
            z128 as i64
        };
        z
    }
}

} // verus!