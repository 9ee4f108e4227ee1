//! The control loop's trading decision: combines the model probability,
//! the model's own uncertainty, the noise estimate and the context gate
//! into one signal.

use vstd::prelude::*;

verus! {

#[derive(Debug, Clone, Copy, PartialEq, Eq, Structural)]
pub enum TradeSignal {
    Buy,
    Sell,
    Wait,
    Blocked,
}

/// The decision rule: block when the noise estimate reaches 0.70, the
/// context gate refuses, or the model uncertainty exceeds 0.85; buy above
/// probability 0.75; sell below 0.25; otherwise wait.
pub open spec fn spec_signal(
    prob_micro: i64, uncertainty_micro: i64, noise_micro: i64, context_favorable: bool,
) -> TradeSignal {
    if !(noise_micro < 700_000) || !context_favorable || uncertainty_micro > 850_000 {
        TradeSignal::Blocked
    } else if prob_micro > 750_000 {
        TradeSignal::Buy
    } else if prob_micro < 250_000 {
        TradeSignal::Sell
    } else {
        TradeSignal::Wait
    }
}

/// Decides whether to trade this tick, exactly as `spec_signal` says.
pub fn decide_signal(
    prob_micro: i64, uncertainty_micro: i64, noise_micro: i64, context_favorable: bool,
) -> (r: TradeSignal)
    ensures
        r == spec_signal(prob_micro, uncertainty_micro, noise_micro, context_favorable),
{
    let is_safe = noise_micro < 700_000;
    let conflicts = uncertainty_micro > 850_000;
    if !is_safe || !context_favorable || conflicts {
        TradeSignal::Blocked
    } else if prob_micro > 750_000 {
        TradeSignal::Buy
    } else if prob_micro < 250_000 {
        TradeSignal::Sell
    } else {
        TradeSignal::Wait
    }
}

} // verus!