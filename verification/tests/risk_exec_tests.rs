use lob_engine::risk::RiskManager;
use lob_engine::state::{Position, TradeStatus};
use lob_engine::executor::Executor;
use lob_engine::math_utils::{isqrt_u128, calculate_snr};

fn sample_position(id: &[u8]) -> Position {
    Position {
        cl_ord_id: id.to_vec(),
        entry_price: 1_100_000,
        side: '1',
        qty: 1000,
        tp_price: 1_200_000,
        sl_price: 1_000_000,
        entry_mu: 550_000,
        entry_sigma_total: 100_000,
        entry_snr: 69_337,
    }
}

#[test]
fn cooldown_gate_blocks_a_second_order() {
    let mut rm = RiskManager::new(5000);
    let first = rm.evaluate_bayesian_trade(60_000, 1_100_025, 900_000, 0, 0, '1');
    assert!(first.is_some());
    rm.set_status(TradeStatus::PendingNew, 60_000);
    rm.set_status(TradeStatus::Idle, 60_100);
    // within 5 s of the stamped order time: refused
    let second = rm.evaluate_bayesian_trade(61_000, 1_100_025, 900_000, 0, 0, '1');
    assert!(second.is_none());
    // after the cooldown: allowed again
    let third = rm.evaluate_bayesian_trade(66_000, 1_100_025, 900_000, 0, 0, '1');
    assert!(third.is_some());
}

#[test]
fn snr_gate_refuses_a_noisy_signal() {
    let rm = RiskManager::new(5000);
    // mu 0.55, sigma_a 0.4, sigma_e 0.4, lambda 1.5:
    // sigma_total = sqrt(0.16 + 0.36) ~ 0.721, SNR ~ 0.069 < 0.4
    let r = rm.evaluate_bayesian_trade(60_000, 1_100_025, 550_000, 400_000, 400_000, '1');
    assert!(r.is_none());
    // the same sigma and SNR arithmetic, in micro units
    let st = isqrt_u128(400_000u128 * 400_000 + 600_000u128 * 600_000);
    assert_eq!(st, 721_110);
    assert_eq!(calculate_snr(50_000, 721_110), 69_337);
}

#[test]
fn busy_status_refuses_to_trade() {
    let mut rm = RiskManager::new(5000);
    rm.set_status(TradeStatus::New, 60_000);
    let r = rm.evaluate_bayesian_trade(120_000, 1_100_025, 900_000, 0, 0, '1');
    assert!(r.is_none());
}

#[test]
fn accepted_trade_has_capped_quantity_and_valid_levels() {
    let rm = RiskManager::new(500); // cap below the fixed lot
    let r = rm.evaluate_bayesian_trade(60_000, 1_100_025, 900_000, 0, 0, '1');
    let (qty, tp, sl) = r.expect("gate should accept");
    assert_eq!(qty, 500);
    assert!(qty <= rm.max_units);
    assert!(tp > 0 && sl > 0);
    assert!(tp != 1_100_025);
}

#[test]
fn long_levels_with_zero_sigma_are_exact() {
    let rm = RiskManager::new(5000);
    // dmu = +0.4, sigma_total = 0: both factors are 1.4, so
    // tp = sl = round(1.100025 * 1.4) at five decimals
    let r = rm.evaluate_bayesian_trade(60_000, 1_100_025, 900_000, 0, 0, '1');
    assert_eq!(r, Some((1000, 1_540_040, 1_540_040)));
}

#[test]
fn short_levels_mirror_the_direction() {
    let rm = RiskManager::new(5000);
    // mu 0.1 on the short side: factor 1 - (-0.4) = 1.4 as well
    let r = rm.evaluate_bayesian_trade(60_000, 1_100_025, 100_000, 0, 0, '2');
    assert_eq!(r, Some((1000, 1_540_040, 1_540_040)));
}

#[test]
fn execution_report_demux_new_then_fill() {
    let mut ex = Executor::new();
    let mut rm = RiskManager::new(5000);
    let mut pending = Some(sample_position(b"X1"));
    ex.handle_execution_report(b"35=8|11=X1|39=0|", &mut rm, &mut pending);
    assert_eq!(rm.status, TradeStatus::New);
    assert!(pending.is_some());
    ex.handle_execution_report(b"35=8|11=X1|39=2|", &mut rm, &mut pending);
    assert_eq!(rm.status, TradeStatus::Filled);
    assert!(pending.is_none());
    let active = ex.active_position.as_ref().expect("fill promotes the thesis");
    assert_eq!(active.cl_ord_id, b"X1".to_vec());
}

#[test]
fn fill_for_a_foreign_order_is_ignored() {
    let mut ex = Executor::new();
    let mut rm = RiskManager::new(5000);
    let mut pending = Some(sample_position(b"X1"));
    ex.handle_execution_report(b"35=8|11=OTHER|39=2|", &mut rm, &mut pending);
    assert_eq!(rm.status, TradeStatus::Idle);
    assert!(pending.is_some());
    assert!(ex.active_position.is_none());
}

#[test]
fn business_reject_clears_a_matching_thesis() {
    let mut ex = Executor::new();
    let mut rm = RiskManager::new(5000);
    rm.set_status(TradeStatus::PendingNew, 60_000);
    let mut pending = Some(sample_position(b"X9"));
    ex.handle_execution_report(b"35=j|11=X9|58=bad|", &mut rm, &mut pending);
    assert_eq!(rm.status, TradeStatus::Idle);
    assert!(pending.is_none());
}

#[test]
fn execution_reject_status_behaves_like_business_reject() {
    let mut ex = Executor::new();
    let mut rm = RiskManager::new(5000);
    rm.set_status(TradeStatus::PendingNew, 60_000);
    let mut pending = Some(sample_position(b"X9"));
    ex.handle_execution_report(b"35=8|11=X9|39=8|", &mut rm, &mut pending);
    assert_eq!(rm.status, TradeStatus::Idle);
    assert!(pending.is_none());
}

#[test]
fn session_and_cancel_rejects_change_nothing() {
    let mut ex = Executor::new();
    let mut rm = RiskManager::new(5000);
    rm.set_status(TradeStatus::New, 60_000);
    let mut pending = Some(sample_position(b"X1"));
    ex.handle_execution_report(b"35=3|58=protocol|", &mut rm, &mut pending);
    assert_eq!(rm.status, TradeStatus::New);
    assert!(pending.is_some());
    ex.handle_execution_report(b"35=9|11=X1|102=0|", &mut rm, &mut pending);
    assert_eq!(rm.status, TradeStatus::New);
    assert!(pending.is_some());
}

#[test]
fn cancelled_order_returns_to_idle() {
    let mut ex = Executor::new();
    let mut rm = RiskManager::new(5000);
    ex.active_position = Some(sample_position(b"X1"));
    rm.set_status(TradeStatus::Filled, 60_000);
    let mut pending: Option<Position> = None;
    ex.handle_execution_report(b"35=8|11=X1|39=4|", &mut rm, &mut pending);
    assert_eq!(rm.status, TradeStatus::Idle);
    assert!(ex.active_position.is_none());
}

#[test]
fn sigma_spike_forces_an_exit() {
    let mut ex = Executor::new();
    let rm = RiskManager::new(5000);
    let mut pos = sample_position(b"X1");
    pos.entry_sigma_total = 100_000; // 0.1
    ex.active_position = Some(pos);
    // mid between tp and sl; sigma 0.20 > 0.1 * 1.5
    assert!(ex.monitor_position(1_100_000, 200_000, &rm));
    // sigma 0.14 < 0.15: no exit
    assert!(!ex.monitor_position(1_100_000, 140_000, &rm));
}

#[test]
fn level_exits_depend_on_the_side() {
    let mut ex = Executor::new();
    let rm = RiskManager::new(5000);
    let mut pos = sample_position(b"X1");
    pos.side = '1';
    ex.active_position = Some(pos.clone());
    assert!(ex.monitor_position(1_200_000, 0, &rm)); // tp hit
    assert!(ex.monitor_position(1_000_000, 0, &rm)); // sl hit
    assert!(!ex.monitor_position(1_100_000, 0, &rm));
    pos.side = '2';
    pos.tp_price = 1_000_000;
    pos.sl_price = 1_200_000;
    ex.active_position = Some(pos);
    assert!(ex.monitor_position(1_000_000, 0, &rm)); // short tp hit
    assert!(ex.monitor_position(1_200_000, 0, &rm)); // short sl hit
    assert!(!ex.monitor_position(1_100_000, 0, &rm));
}

#[test]
fn no_position_means_no_exit() {
    let ex = Executor::new();
    let rm = RiskManager::new(5000);
    assert!(!ex.monitor_position(1_100_000, 900_000, &rm));
}
