//! Rule-based market-context scorer: discretises spread, tick velocity
//! and book intensity into three regimes, adds fixed contributions to a
//! neutral base, applies a causal penalty for strong L1 pressure on a
//! thin book, and clamps to the unit interval. All values in micro units
//! except the intensity, which is in whole volume units.

use vstd::prelude::*;

verus! {

#[derive(Debug, Clone, Copy, PartialEq, Eq, Structural)]
pub enum MarketState {
    Low,
    Normal,
    High,
}

/// The context scorer with its acceptance threshold.
pub struct BayesianNetwork {
    pub context_threshold_micro: i64,
}

pub open spec fn spec_spread_state(spread_micro: i64) -> MarketState {
    if spread_micro < 1_500_000 {
        MarketState::Low
    } else if spread_micro < 4_000_000 {
        MarketState::Normal
    } else {
        MarketState::High
    }
}

pub open spec fn spec_velocity_state(velocity_micro: i64) -> MarketState {
    if velocity_micro < 5_000_000 {
        MarketState::Low
    } else if velocity_micro < 25_000_000 {
        MarketState::Normal
    } else {
        MarketState::High
    }
}

pub open spec fn spec_intensity_state(intensity: u128) -> MarketState {
    if intensity < 100_000 {
        MarketState::Low
    } else if intensity < 1_000_000 {
        MarketState::Normal
    } else {
        MarketState::High
    }
}

pub open spec fn spread_contrib(s: MarketState) -> int {
    match s {
        MarketState::Low => 150_000int,
        MarketState::Normal => 50_000int,
        MarketState::High => -250_000int,
    }
}

pub open spec fn velocity_contrib(s: MarketState) -> int {
    match s {
        MarketState::Low => -150_000int,
        MarketState::Normal => 100_000int,
        MarketState::High => -100_000int,
    }
}

pub open spec fn intensity_contrib(s: MarketState) -> int {
    match s {
        MarketState::Low => -200_000int,
        MarketState::Normal => 50_000int,
        MarketState::High => 150_000int,
    }
}

/// The full score before clamping: neutral 0.5 plus the three regime
/// contributions, minus 0.2 when |imbalance| > 0.7 on intensity below
/// 200000 units (strong L1 pressure on a thin book).
pub open spec fn spec_context_score_raw(
    spread_micro: i64, velocity_micro: i64, imbalance_micro: i64, intensity: u128,
) -> int {
    let base = 500_000int
        + spread_contrib(spec_spread_state(spread_micro))
        + velocity_contrib(spec_velocity_state(velocity_micro))
        + intensity_contrib(spec_intensity_state(intensity));
    if (imbalance_micro > 700_000 || imbalance_micro < -700_000) && intensity < 200_000 {
        base - 200_000
    } else {
        base
    }
}

/// The score clamped to [0, 1].
pub open spec fn spec_context_score(
    spread_micro: i64, velocity_micro: i64, imbalance_micro: i64, intensity: u128,
) -> int {
    let s = spec_context_score_raw(spread_micro, velocity_micro, imbalance_micro, intensity);
    if s < 0 {
        0int
    } else if s > 1_000_000 {
        1_000_000int
    } else {
        s
    }
}

impl BayesianNetwork {
    pub fn new(threshold_micro: i64) -> (n: BayesianNetwork)
        ensures
            n.context_threshold_micro == threshold_micro,
    {
        BayesianNetwork { context_threshold_micro: threshold_micro }
    }

    fn discretize_spread(&self, spread_micro: i64) -> (r: MarketState)
        ensures
            r == spec_spread_state(spread_micro),
    {
        if spread_micro < 1_500_000 {
            MarketState::Low
        } else if spread_micro < 4_000_000 {
            MarketState::Normal
        } else {
            MarketState::High
        }
    }

    fn discretize_velocity(&self, velocity_micro: i64) -> (r: MarketState)
        ensures
            r == spec_velocity_state(velocity_micro),
    {
        if velocity_micro < 5_000_000 {
            MarketState::Low
        } else if velocity_micro < 25_000_000 {
            MarketState::Normal
        } else {
            MarketState::High
        }
    }

    fn discretize_intensity(&self, intensity: u128) -> (r: MarketState)
        ensures
            r == spec_intensity_state(intensity),
    {
        if intensity < 100_000 {
            MarketState::Low
        } else if intensity < 1_000_000 {
            MarketState::Normal
        } else {
            MarketState::High
        }
    }

    /// Scores the market context in micro units; always within [0, 1].
    pub fn compute_context_score(
        &self, spread_micro: i64, velocity_micro: i64, imbalance_micro: i64,
        intensity: u128,
    ) -> (score: i64)
        ensures
            score == spec_context_score(
                spread_micro, velocity_micro, imbalance_micro, intensity),
            0 <= score <= 1_000_000,
    {
        let s_state = self.discretize_spread(spread_micro);
        let v_state = self.discretize_velocity(velocity_micro);
        let i_state = self.discretize_intensity(intensity);
        let mut score: i64 = 500_000;
        score = score + match s_state {
            MarketState::Low => 150_000,
            MarketState::Normal => 50_000,
            MarketState::High => -250_000,
        };
        score = score + match v_state {
            MarketState::Low => -150_000,
            MarketState::Normal => 100_000,
            MarketState::High => -100_000,
        };
        score = score + match i_state {
            MarketState::Low => -200_000,
            MarketState::Normal => 50_000,
            MarketState::High => 150_000,
        };
        if (imbalance_micro > 700_000 || imbalance_micro < -700_000)
            && intensity < 200_000 {
            score = score - 200_000;
        }
        if score < 0 {
            0
        } else if score > 1_000_000 {
            1_000_000
        } else {
            score
        }
    }

    /// A context is favorable exactly when its score reaches the
    /// threshold.
    pub fn is_context_favorable(&self, score_micro: i64) -> (r: bool)
        ensures
            r == (score_micro >= self.context_threshold_micro),
    {
        score_micro >= self.context_threshold_micro
    }
}

} // verus!