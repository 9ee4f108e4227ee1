//! Risk manager: order-lifecycle status, cooldown between orders, and the
//! Bayesian sizing gate that turns a prediction into a quantity with
//! quantile take-profit and stop-loss levels.

use vstd::prelude::*;
use crate::state::TradeStatus;
use crate::math_utils::{
    spec_isqrt, isqrt_micro, spec_snr, calculate_snr, level_of, level_factor,
    round10, calculate_bayesian_levels,
};

verus! {

/// Risk state and hyperparameters; unitless quantities in micro units,
/// times in milliseconds, quantities in whole units.
pub struct RiskManager {
    pub status: TradeStatus,
    pub last_order_time_ms: u64,
    pub cooldown_ms: u64,
    pub max_units: u64,
    pub snr_threshold_micro: u64,
    pub kelly_fraction_micro: u64,
    pub lambda_epistemic_micro: u64,
    pub tp_z_micro: i64,
    pub sl_z_micro: i64,
}

/// Hyperparameter ranges under which the sizing arithmetic stays exact.
pub open spec fn rm_wf(rm: RiskManager) -> bool {
    &&& rm.lambda_epistemic_micro <= 10_000_000
    &&& -10_000_000 <= rm.tp_z_micro <= 10_000_000
    &&& -10_000_000 <= rm.sl_z_micro <= 10_000_000
}

/// Combined uncertainty in micro units: the root of the sum of the squared
/// aleatoric sigma and the squared lambda-weighted epistemic sigma.
pub open spec fn sigma_total_micro(sa: int, lambda: int, se: int) -> int {
    let w = (lambda * se) / 1000000;
    spec_isqrt(sa * sa + w * w)
}

/// SNR of the directional signal |mu - 0.5| against the combined sigma,
/// floored at one micro unit.
pub open spec fn rm_snr(mu: int, st: int) -> int {
    spec_snr(mu - 500000, if st == 0 { 1int } else { st })
}

/// The take-profit and stop-loss prices of an accepted trade, in micro
/// price units rounded to five decimals.
pub open spec fn rm_tp(rm: RiskManager, mid: int, mu: int, st: int, side: char) -> int {
    round10(level_of(mid, level_factor(mu - 500000, rm.tp_z_micro as int, st, side)))
}

pub open spec fn rm_sl(rm: RiskManager, mid: int, mu: int, st: int, side: char) -> int {
    round10(level_of(mid, level_factor(mu - 500000, rm.sl_z_micro as int, st, side)))
}

/// The fixed lot, capped by the configured maximum.
pub open spec fn rm_qty(rm: RiskManager) -> int {
    if 1000 <= rm.max_units {
        1000int
    } else {
        rm.max_units as int
    }
}

impl RiskManager {
    /// Fresh manager: idle, out of cooldown at any reasonable clock, a
    /// five second cooldown, SNR threshold 0.4, kelly fraction 0.1,
    /// lambda 1.5, and the standard normal quantiles at 0.75 and 0.25.
    pub fn new(max_units: u64) -> (rm: RiskManager)
        ensures
            rm_wf(rm),
            rm.status == TradeStatus::Idle,
            rm.last_order_time_ms == 0,
            rm.cooldown_ms == 5000,
            rm.max_units == max_units,
            rm.snr_threshold_micro == 400_000,
            rm.kelly_fraction_micro == 100_000,
            rm.lambda_epistemic_micro == 1_500_000,
            rm.tp_z_micro == 674_490,
            rm.sl_z_micro == -674_490,
    {
        RiskManager {
            status: TradeStatus::Idle,
            last_order_time_ms: 0,
            cooldown_ms: 5000,
            max_units,
            snr_threshold_micro: 400_000,
            kelly_fraction_micro: 100_000,
            lambda_epistemic_micro: 1_500_000,
            tp_z_micro: 674_490,
            sl_z_micro: -674_490,
        }
    }

    /// The Bayesian trade gate. In order: the manager must be idle; the
    /// cooldown must have elapsed; the SNR of the directional signal over
    /// the combined uncertainty must reach the threshold; and the
    /// quantile levels must be positive with a take-profit distinct from
    /// the mid. Exactly then the fixed lot (capped by `max_units`) and
    /// the two levels are returned.
    pub fn evaluate_bayesian_trade(
        &self, now_ms: u64, mid_micro: u64, mu_micro: i64,
        sigma_aleatoric_micro: u64, sigma_epistemic_micro: u64, side: char,
    ) -> (r: Option<(u64, u64, u64)>)
        requires
            rm_wf(*self),
            now_ms >= self.last_order_time_ms,
            0 <= mu_micro <= 1_000_000,
            sigma_aleatoric_micro <= 100_000_000,
            sigma_epistemic_micro <= 100_000_000,
            mid_micro <= 100_000_000_000_000,
        ensures
            ({
                let st = sigma_total_micro(sigma_aleatoric_micro as int,
                    self.lambda_epistemic_micro as int, sigma_epistemic_micro as int);
                let tp = rm_tp(*self, mid_micro as int, mu_micro as int, st, side);
                let sl = rm_sl(*self, mid_micro as int, mu_micro as int, st, side);
                &&& (r is Some <==> {
                    &&& self.status == TradeStatus::Idle
                    &&& now_ms - self.last_order_time_ms >= self.cooldown_ms
                    &&& rm_snr(mu_micro as int, st) >= self.snr_threshold_micro
                    &&& tp > 0
                    &&& sl > 0
                    &&& tp != mid_micro
                })
                &&& (r matches Some((q, tpv, slv)) ==> {
                    &&& q == rm_qty(*self)
                    &&& q <= self.max_units
                    &&& tpv == tp
                    &&& slv == sl
                })
            }),
    {
        let st = self.combined_sigma(sigma_aleatoric_micro, sigma_epistemic_micro);
        let dmu: i64 = mu_micro - 500000;
        let den: u64 = if st == 0 { 1 } else { st };
        let snr = calculate_snr(dmu, den);
        let (tp, sl) = calculate_bayesian_levels(
            mid_micro, dmu, st, side, self.tp_z_micro, self.sl_z_micro);
        if !matches!(self.status, TradeStatus::Idle) {
            return None;
        }
        if now_ms - self.last_order_time_ms < self.cooldown_ms {
            return None;
        }
        if snr < self.snr_threshold_micro {
            return None;
        }
        if tp == 0 || sl == 0 || tp == mid_micro {
            return None;
        }
        let qty: u64 = if 1000 <= self.max_units { 1000 } else { self.max_units };
        Some((qty, tp, sl))
    }

    /// Computes the combined sigma, which stays below the range the level
    /// arithmetic accepts.
    fn combined_sigma(&self, sigma_aleatoric_micro: u64, sigma_epistemic_micro: u64)
        -> (st: u64)
        requires
            rm_wf(*self),
            sigma_aleatoric_micro <= 100_000_000,
            sigma_epistemic_micro <= 100_000_000,
        ensures
            st == sigma_total_micro(sigma_aleatoric_micro as int,
                self.lambda_epistemic_micro as int, sigma_epistemic_micro as int),
            st <= 2_000_000_000,
    {
        proof {
            assert(0 <= self.lambda_epistemic_micro as int * sigma_epistemic_micro as int
                <= 1_000_000_000_000_000int) by (nonlinear_arith)
                requires
                    self.lambda_epistemic_micro as int <= 10_000_000,
                    sigma_epistemic_micro as int <= 100_000_000,
                    0 <= self.lambda_epistemic_micro as int,
                    0 <= sigma_epistemic_micro as int;
        }
        let w128: u128 = (self.lambda_epistemic_micro as u128)
            * (sigma_epistemic_micro as u128) / 1000000;
        proof {
            vstd::arithmetic::div_mod::lemma_div_is_ordered(
                self.lambda_epistemic_micro as int * sigma_epistemic_micro as int,
                1_000_000_000_000_000int, 1000000);
            vstd::arithmetic::div_mod::lemma_div_pos_is_pos(
                self.lambda_epistemic_micro as int * sigma_epistemic_micro as int,
                1000000);
            assert(w128 <= 1_000_000_000);
            assert(w128 * w128 <= 1_000_000_000_000_000_000) by (nonlinear_arith)
                requires 0 <= w128 <= 1_000_000_000;
            assert((sigma_aleatoric_micro as u128) * (sigma_aleatoric_micro as u128)
                <= 10_000_000_000_000_000) by (nonlinear_arith)
                requires sigma_aleatoric_micro as int <= 100_000_000;
        }
        let n: u128 = (sigma_aleatoric_micro as u128) * (sigma_aleatoric_micro as u128)
            + w128 * w128;
        let st = isqrt_micro(n);
        proof {
            if st > 2_000_000_000 {
                assert(st * st > 1_010_000_000_000_000_000) by (nonlinear_arith)
                    requires st > 2_000_000_000;
            }
        }
        st as u64
    }

    /// Sets the lifecycle status; entering PendingNew stamps the order
    /// time, which starts the cooldown.
    pub fn set_status(&mut self, new_status: TradeStatus, now_ms: u64)
        ensures
            final(self).status == new_status,
            final(self).last_order_time_ms ==
                if new_status == TradeStatus::PendingNew { now_ms } else {
                    old(self).last_order_time_ms
                },
            final(self).cooldown_ms == old(self).cooldown_ms,
            final(self).max_units == old(self).max_units,
            final(self).snr_threshold_micro == old(self).snr_threshold_micro,
            final(self).kelly_fraction_micro == old(self).kelly_fraction_micro,
            final(self).lambda_epistemic_micro == old(self).lambda_epistemic_micro,
            final(self).tp_z_micro == old(self).tp_z_micro,
            final(self).sl_z_micro == old(self).sl_z_micro,
    {
        if matches!(new_status, TradeStatus::PendingNew) {
            self.last_order_time_ms = now_ms;
        }
        self.status = new_status;
    }
}

} // verus!