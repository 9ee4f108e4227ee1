//! Exact integer mathematics used by the risk layer: integer square root,
//! signal-to-noise ratio, and quantile-based take-profit / stop-loss levels.

use vstd::prelude::*;

verus! {

/// Integer square root: the greatest `r` with `r * r <= n`.
pub fn isqrt_u128(n: u128) -> (r: u128)
    ensures
        r * r <= n,
        n < (r + 1) * (r + 1),
{
    let mut lo: u128 = 0;
    let mut hi: u128 = 1u128 << 64;
    proof {
        assert(n < ((1u128 << 64) as int) * ((1u128 << 64) as int)) by (bit_vector);
    }
    while lo + 1 < hi
        invariant
            lo < hi,
            hi <= 1u128 << 64,
            lo * lo <= n,
            n < (hi as int) * (hi as int),
        decreases hi - lo,
    {
        let mid = lo + (hi - lo) / 2;
        assert(lo < mid && mid < hi);
        assert((mid as int) * (mid as int) <= u128::MAX) by (nonlinear_arith)
            requires mid < 1u128 << 64
        {
            assert((1u128 << 64) as int == 0x1_0000_0000_0000_0000) by (bit_vector);
        }
        if mid * mid <= n {
            lo = mid;
        } else {
            hi = mid;
        }
    }
    lo
}

/// The integer square root as a mathematical function.
pub open spec fn spec_isqrt(n: int) -> int {
    choose|r: int| 0 <= r && #[trigger] (r * r) <= n < (r + 1) * (r + 1)
}

/// The integer square root is unique, so the executable search returns
/// exactly `spec_isqrt`.
pub proof fn lemma_isqrt_unique(n: int, r: int)
    requires
        0 <= r,
        r * r <= n,
        n < (r + 1) * (r + 1),
    ensures
        spec_isqrt(n) == r,
{
    assert(0 <= r && r * r <= n < (r + 1) * (r + 1));
    let c = spec_isqrt(n);
    assert(0 <= c && c * c <= n < (c + 1) * (c + 1));
    if c < r {
        assert((c + 1) * (c + 1) <= r * r) by (nonlinear_arith)
            requires 0 <= c, c < r;
    } else if r < c {
        assert((r + 1) * (r + 1) <= c * c) by (nonlinear_arith)
            requires 0 <= r, r < c;
    }
}

/// Integer square root returning its mathematical value.
pub fn isqrt_micro(n: u128) -> (r: u128)
    ensures
        r as int == spec_isqrt(n as int),
        r * r <= n,
        n < (r + 1) * (r + 1),
{
    let r = isqrt_u128(n);
    proof {
        lemma_isqrt_unique(n as int, r as int);
    }
    r
}

/// Division truncated towards zero (what machine division does), as a
/// mathematical function over a positive divisor.
pub open spec fn div_trunc(a: int, b: int) -> int {
    if a >= 0 {
        a / b
    } else {
        -((-a) / b)
    }
}

/// Rounds a non-negative micro price to the nearest multiple of ten
/// (five decimal places), half up.
pub open spec fn round10(x: int) -> int {
    ((x + 5) / 10) * 10
}

/// Signal-to-noise ratio in micro units: |mu| / sigma, zero when sigma is
/// zero.
pub open spec fn spec_snr(mu_micro: int, sigma_micro: int) -> int {
    if sigma_micro == 0 {
        0int
    } else if mu_micro >= 0 {
        mu_micro * 1000000 / sigma_micro
    } else {
        (-mu_micro) * 1000000 / sigma_micro
    }
}

/// SNR of a micro-scaled signal against a micro-scaled sigma.
pub fn calculate_snr(mu_micro: i64, sigma_micro: u64) -> (r: u64)
    requires
        -1_000_000_000_000 <= mu_micro <= 1_000_000_000_000,
    ensures
        r == spec_snr(mu_micro as int, sigma_micro as int),
{
    if sigma_micro == 0 {
        return 0;
    }
    let m: u128 = if mu_micro >= 0 {
        mu_micro as u128
    } else {
        (-mu_micro) as u128
    };
    let q: u128 = m * 1000000 / (sigma_micro as u128);
    q as u64
}

/// One take-profit or stop-loss level: mid scaled by a return factor given
/// in micro units; zero (to be rejected) when the factor is not positive.
pub open spec fn level_of(mid_micro: int, factor_micro: int) -> int {
    if factor_micro <= 0 {
        0int
    } else {
        mid_micro * factor_micro / 1000000
    }
}

/// The two return factors for the quantile levels: long levels move with
/// `1 + mu + z*sigma`, short levels with `1 - (mu + z*sigma)`.
pub open spec fn level_factor(dmu_micro: int, z_micro: int, sigma_micro: int, side: char) -> int {
    let zs = div_trunc(z_micro * sigma_micro, 1000000);
    if side == '1' {
        1000000 + dmu_micro + zs
    } else {
        1000000 - (dmu_micro + zs)
    }
}

/// Quantile-based take-profit and stop-loss levels around the mid price,
/// in micro price units, rounded to five decimal places.
pub fn calculate_bayesian_levels(
    mid_micro: u64, dmu_micro: i64, sigma_micro: u64, side: char,
    z_tp_micro: i64, z_sl_micro: i64,
) -> (r: (u64, u64))
    requires
        mid_micro <= 100_000_000_000_000,
        -1_000_000 <= dmu_micro <= 1_000_000,
        sigma_micro <= 2_000_000_000,
        -10_000_000 <= z_tp_micro <= 10_000_000,
        -10_000_000 <= z_sl_micro <= 10_000_000,
    ensures
        r.0 == round10(level_of(mid_micro as int,
            level_factor(dmu_micro as int, z_tp_micro as int, sigma_micro as int, side))),
        r.1 == round10(level_of(mid_micro as int,
            level_factor(dmu_micro as int, z_sl_micro as int, sigma_micro as int, side))),
{
    let tp = one_level(mid_micro, dmu_micro, sigma_micro, side, z_tp_micro);
    let sl = one_level(mid_micro, dmu_micro, sigma_micro, side, z_sl_micro);
    (tp, sl)
}

/// Computes one rounded level.
fn one_level(mid_micro: u64, dmu_micro: i64, sigma_micro: u64, side: char, z_micro: i64)
    -> (r: u64)
    requires
        mid_micro <= 100_000_000_000_000,
        -1_000_000 <= dmu_micro <= 1_000_000,
        sigma_micro <= 2_000_000_000,
        -10_000_000 <= z_micro <= 10_000_000,
    ensures
        r == round10(level_of(mid_micro as int,
            level_factor(dmu_micro as int, z_micro as int, sigma_micro as int, side))),
{
    let m: i128 = if z_micro >= 0 {
        z_micro as i128
    } else {
        (-z_micro) as i128
    };
    proof {
        assert(0 <= m as int * sigma_micro as int <= 20_000_000_000_000_000int)
            by (nonlinear_arith)
            requires
                0 <= m as int <= 10_000_000,
                0 <= sigma_micro as int <= 2_000_000_000;
    }
    let q: i128 = (m * (sigma_micro as i128)) / 1000000;
    proof {
        vstd::arithmetic::div_mod::lemma_div_is_ordered(
            m as int * sigma_micro as int, 20_000_000_000_000_000int, 1000000);
        vstd::arithmetic::div_mod::lemma_div_pos_is_pos(
            m as int * sigma_micro as int, 1000000);
        assert(0 <= q <= 20_000_000_000i128);
    }
    let zs: i128 = if z_micro >= 0 {
        q
    } else {
        -q
    };
    proof {
        if z_micro >= 0 {
            assert(zs == div_trunc(z_micro as int * sigma_micro as int, 1000000));
        } else {
            assert(m as int * sigma_micro as int
                == -(z_micro as int * sigma_micro as int)) by (nonlinear_arith)
                requires m as int == -(z_micro as int);
            assert(zs == div_trunc(z_micro as int * sigma_micro as int, 1000000));
        }
        assert(-20_000_000_000i128 <= zs <= 20_000_000_000i128);
    }
    let factor: i128 = if side == '1' {
        1000000 + (dmu_micro as i128) + zs
    } else {
        1000000 - ((dmu_micro as i128) + zs)
    };
    if factor <= 0 {
        proof {
            assert(round10(0int) == 0);
        }
        return 0;
    }
    proof {
        assert(0 <= mid_micro as int * factor as int
            <= 100_000_000_000_000int * 20_002_000_001int) by (nonlinear_arith)
            requires
                0 <= mid_micro as int <= 100_000_000_000_000int,
                0 < factor as int <= 20_002_000_001int;
        vstd::arithmetic::div_mod::lemma_div_is_ordered(
            mid_micro as int * factor as int,
            100_000_000_000_000int * 20_002_000_001int, 1000000);
        vstd::arithmetic::div_mod::lemma_div_pos_is_pos(
            mid_micro as int * factor as int, 1000000);
    }
    let raw: i128 = (mid_micro as i128) * factor / 1000000;
    proof {
        vstd::arithmetic::div_mod::lemma_div_is_ordered(
            raw + 5, 100_000_000_000_000int * 20_002_000_001int / 1000000 + 5, 10);
        vstd::arithmetic::div_mod::lemma_div_pos_is_pos(raw + 5, 10);
    }
    let rounded: i128 = ((raw + 5) / 10) * 10;
    rounded as u64
}

} // verus!
