use lob_engine::bayesian::BayesianNetwork;
use lob_engine::gaussian::GaussianFilter;
use lob_engine::features::FeatureCollector;
use lob_engine::signal::{decide_signal, TradeSignal};
use lob_engine::state::OrderBook;

#[test]
fn context_penalty_on_a_thin_book() {
    let net = BayesianNetwork::new(450_000);
    // spread 0.5 (low, +0.15), velocity 10 (normal, +0.10),
    // intensity 50000 (low, -0.20): 0.55; imbalance 0.9 on a thin book:
    // causal penalty -0.20 gives 0.35, below the 0.45 threshold.
    let score = net.compute_context_score(500_000, 10_000_000, 900_000, 50_000);
    assert_eq!(score, 350_000);
    assert!(!net.is_context_favorable(score));
}

#[test]
fn context_score_without_the_penalty() {
    let net = BayesianNetwork::new(450_000);
    // intensity 150000 is a normal regime (+0.05): 0.80, the penalty
    // still applies below 200000 units: 0.60, which is favorable.
    let score = net.compute_context_score(500_000, 10_000_000, 900_000, 150_000);
    assert_eq!(score, 600_000);
    assert!(net.is_context_favorable(score));
    // no penalty once the book is deep enough
    let score2 = net.compute_context_score(500_000, 10_000_000, 900_000, 300_000);
    assert_eq!(score2, 800_000);
}

#[test]
fn context_score_is_clamped() {
    let net = BayesianNetwork::new(450_000);
    // spread high (-0.25), velocity low (-0.15), intensity low (-0.20),
    // penalty (-0.20): 0.5 - 0.8 clamps to 0.
    let score = net.compute_context_score(5_000_000, 1_000_000, 800_000, 10_000);
    assert_eq!(score, 0);
}

#[test]
fn uncertainty_is_maximal_below_five_samples() {
    let mut g = GaussianFilter::new(20, 1_500_000, 1_000_000);
    for _ in 0..4 {
        g.add_price(1_000_000);
    }
    assert_eq!(g.compute_uncertainty(), 1_000_000);
}

#[test]
fn uncertainty_is_zero_on_a_flat_window() {
    let mut g = GaussianFilter::new(20, 1_500_000, 1_000_000);
    for _ in 0..5 {
        g.add_price(1_000_000);
    }
    assert_eq!(g.compute_uncertainty(), 0);
}

#[test]
fn uncertainty_of_a_known_deviation() {
    let mut g = GaussianFilter::new(20, 1_500_000, 1_000_000);
    for _ in 0..4 {
        g.add_price(1_000_000);
    }
    g.add_price(1_000_100);
    // |last*5 - sum| * 10^9 / sum = 400 * 10^9 / 5000100
    assert_eq!(g.compute_uncertainty(), 79_998);
}

#[test]
fn window_evicts_the_oldest_price() {
    let mut g = GaussianFilter::new(5, 1_500_000, 1_000_000);
    for p in [1u64, 2, 3, 4, 5, 6] {
        g.add_price(p * 1_000_000);
    }
    // window now holds 2..=6 million; mean 4, last 6:
    // |6*5 - 20| * 10^9 / 20e6 = 10e6 * 10^9 / 20e6 -> clamped to 1.0
    assert_eq!(g.prices.len(), 5);
    assert_eq!(g.compute_uncertainty(), 1_000_000);
}

#[test]
fn standardized_vector_needs_ten_rows() {
    let mut fc = FeatureCollector::new(100);
    let mut book = OrderBook::new();
    book.update('1', '0', 110000, 500);
    book.update('1', '1', 110005, 400);
    for _ in 0..9 {
        fc.push_features(&book, 1_000_000, 500_000, 600_000);
    }
    assert_eq!(fc.get_standardized_vector().len(), 0);
    fc.push_features(&book, 1_000_000, 500_000, 600_000);
    let z = fc.get_standardized_vector();
    assert_eq!(z.len(), 7);
    // identical rows standardize to zero in every column
    assert_eq!(z, vec![0i64; 7]);
}

#[test]
fn standardized_vector_sees_a_deviation() {
    let mut fc = FeatureCollector::new(100);
    let mut book = OrderBook::new();
    book.update('1', '0', 110000, 500);
    book.update('1', '1', 110005, 400);
    for _ in 0..9 {
        fc.push_features(&book, 0, 500_000, 600_000);
    }
    fc.push_features(&book, 10_000_000, 500_000, 600_000);
    let z = fc.get_standardized_vector();
    // column 1 is the velocity: the last row is far above the mean
    assert!(z[1] > 0);
    assert_eq!(z[0], 0); // mid unchanged
}

#[test]
fn signal_decision_thresholds() {
    assert_eq!(decide_signal(800_000, 100_000, 100_000, true), TradeSignal::Buy);
    assert_eq!(decide_signal(200_000, 100_000, 100_000, true), TradeSignal::Sell);
    assert_eq!(decide_signal(500_000, 100_000, 100_000, true), TradeSignal::Wait);
    assert_eq!(decide_signal(800_000, 100_000, 700_000, true), TradeSignal::Blocked);
    assert_eq!(decide_signal(800_000, 900_000, 100_000, true), TradeSignal::Blocked);
    assert_eq!(decide_signal(800_000, 100_000, 100_000, false), TradeSignal::Blocked);
}
