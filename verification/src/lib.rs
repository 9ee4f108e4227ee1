//! A latency-sensitive FIX 4.4 trading engine library: message codec,
//! depth-resolved limit order book, market-context features, and a
//! risk / execution state machine, all in exact scaled-integer arithmetic.
//!
//! Prices are carried as integers scaled by 10^5 (price keys) or 10^6
//! (micro prices); unitless quantities such as probabilities, sigmas and
//! scores are carried in micro units (1.0 == 1_000_000).

pub mod math_utils;
pub mod state;
pub mod wire;
pub mod fix_engine;
pub mod fix_parse;
pub mod risk;
pub mod executor;
pub mod clock;
pub mod id_gen;
pub mod bayesian;
pub mod signal;
pub mod gaussian;
pub mod features;
