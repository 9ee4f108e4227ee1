//! Rolling price-noise estimator: a bounded window of recent micro mid
//! prices whose uncertainty is the normalized deviation of the last price
//! from the window mean, scaled by 1000 and clamped to [0, 1]. This is
//! the cheap posterior-variance proxy used on the hot path.

use vstd::prelude::*;

verus! {

/// Largest admissible micro price in the window.
pub const MAX_WINDOW_PRICE: u64 = 100_000_000_000_000;

/// Largest admissible window size.
pub const MAX_WINDOW_SIZE: usize = 1_000_000;

pub struct GaussianFilter {
    pub window_size: usize,
    pub prices: Vec<u64>,
    pub l_parameter_micro: u64,
    pub sigma_f_micro: u64,
}

pub open spec fn gf_wf(g: GaussianFilter) -> bool {
    &&& 1 <= g.window_size <= MAX_WINDOW_SIZE
    &&& g.prices@.len() <= g.window_size
    &&& forall|i: int| 0 <= i < g.prices@.len() ==>
        #[trigger] g.prices@[i] <= MAX_WINDOW_PRICE
}

pub open spec fn sum_prices(ps: Seq<u64>) -> int
    decreases ps.len(),
{
    if ps.len() == 0 {
        0int
    } else {
        sum_prices(ps.drop_last()) + ps.last()
    }
}

/// The uncertainty in micro units: 1.0 until five samples exist (or when
/// the window mean is zero); otherwise the relative deviation of the
/// last price from the mean, |last - mean| / mean, scaled by 1000 and
/// clamped to 1.0. Over integers: |last*n - sum| * 10^9 / sum.
pub open spec fn spec_uncertainty(ps: Seq<u64>) -> int {
    if ps.len() < 5 {
        1_000_000int
    } else {
        let s = sum_prices(ps);
        if s == 0 {
            1_000_000int
        } else {
            let d = ps.last() * ps.len() - s;
            let dev = if d >= 0 {
                d * 1_000_000_000 / s
            } else {
                (-d) * 1_000_000_000 / s
            };
            if dev > 1_000_000 {
                1_000_000int
            } else {
                dev
            }
        }
    }
}

proof fn lemma_sum_prices_bound(ps: Seq<u64>)
    requires
        forall|i: int| 0 <= i < ps.len() ==> #[trigger] ps[i] <= MAX_WINDOW_PRICE,
    ensures
        0 <= sum_prices(ps) <= ps.len() * (MAX_WINDOW_PRICE as int),
    decreases ps.len(),
{
    if ps.len() > 0 {
        lemma_sum_prices_bound(ps.drop_last());
        assert((ps.len() - 1) * (MAX_WINDOW_PRICE as int) + (MAX_WINDOW_PRICE as int)
            == ps.len() * (MAX_WINDOW_PRICE as int)) by (nonlinear_arith);
    }
}

impl GaussianFilter {
    /// A fresh window; the kernel hyperparameters are kept for
    /// diagnostics.
    pub fn new(window_size: usize, l_parameter_micro: u64, sigma_f_micro: u64)
        -> (g: GaussianFilter)
        requires
            1 <= window_size <= MAX_WINDOW_SIZE,
        ensures
            gf_wf(g),
            g.window_size == window_size,
            g.prices@.len() == 0,
            g.l_parameter_micro == l_parameter_micro,
            g.sigma_f_micro == sigma_f_micro,
    {
        GaussianFilter {
            window_size,
            prices: Vec::new(),
            l_parameter_micro,
            sigma_f_micro,
        }
    }

    /// Appends a price, evicting the oldest when the window is full.
    pub fn add_price(&mut self, price_micro: u64)
        requires
            gf_wf(*old(self)),
            price_micro <= MAX_WINDOW_PRICE,
        ensures
            gf_wf(*final(self)),
            final(self).window_size == old(self).window_size,
            final(self).prices@ ==
                if old(self).prices@.len() >= old(self).window_size {
                    old(self).prices@.drop_first().push(price_micro)
                } else {
                    old(self).prices@.push(price_micro)
                },
    {
        if self.prices.len() >= self.window_size {
            self.prices.remove(0);
            proof {
                assert(self.prices@ =~= old(self).prices@.drop_first());
            }
        }
        self.prices.push(price_micro);
    }

    /// The current noise estimate, exactly `spec_uncertainty` of the
    /// window.
    pub fn compute_uncertainty(&self) -> (r: u64)
        requires
            gf_wf(*self),
        ensures
            r == spec_uncertainty(self.prices@),
            r <= 1_000_000,
    {
        let n = self.prices.len();
        if n < 5 {
            return 1_000_000;
        }
        let mut sum: u128 = 0;
        let mut i: usize = 0;
        while i < n
            invariant
                0 <= i <= n,
                n == self.prices@.len(),
                gf_wf(*self),
                sum == sum_prices(self.prices@.subrange(0, i as int)),
                sum <= i * (MAX_WINDOW_PRICE as int),
            decreases n - i,
        {
            proof {
                assert(self.prices@.subrange(0, i + 1).drop_last()
                    =~= self.prices@.subrange(0, i as int));
                assert(i * (MAX_WINDOW_PRICE as int) + (MAX_WINDOW_PRICE as int)
                    == (i + 1) * (MAX_WINDOW_PRICE as int)) by (nonlinear_arith);
                assert((i + 1) * (MAX_WINDOW_PRICE as int)
                    <= 1_000_000 * (MAX_WINDOW_PRICE as int)) by (nonlinear_arith)
                    requires i + 1 <= 1_000_000;
            }
            sum = sum + self.prices[i] as u128;
            i = i + 1;
        }
        proof {
            assert(self.prices@.subrange(0, n as int) =~= self.prices@);
            lemma_sum_prices_bound(self.prices@);
            assert(n * (MAX_WINDOW_PRICE as int)
                <= 1_000_000 * (MAX_WINDOW_PRICE as int)) by (nonlinear_arith)
                requires n <= 1_000_000;
        }
        if sum == 0 {
            return 1_000_000;
        }
        let last = self.prices[n - 1];
        proof {
            assert(last as int * n as int <= 1_000_000 * (MAX_WINDOW_PRICE as int))
                by (nonlinear_arith)
                requires
                    0 <= last as int <= MAX_WINDOW_PRICE as int,
                    0 <= n as int <= 1_000_000;
        }
        let ln: u128 = (last as u128) * (n as u128);
        let d: u128 = if ln >= sum { ln - sum } else { sum - ln };
        let dev: u128 = d * 1_000_000_000 / sum;
        proof {
            assert(d as int == if (last as int * n as int - sum_prices(self.prices@)) >= 0 {
                last as int * n as int - sum_prices(self.prices@)
            } else {
                -(last as int * n as int - sum_prices(self.prices@))
            });
            vstd::arithmetic::div_mod::lemma_div_pos_is_pos(d as int * 1_000_000_000, sum as int);
        }
        if dev > 1_000_000 {
            1_000_000
        } else {
            dev as u64
        }
    }
}

} // verus!