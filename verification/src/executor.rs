//! Execution-report demultiplexer and position monitor: consumes broker
//! messages, drives the risk manager's status machine and the pending /
//! active position slots, and decides when a live position must exit.

use vstd::prelude::*;
use crate::state::{Position, TradeStatus};
use crate::risk::RiskManager;
use crate::wire::{SOH, spec_tag_value, find_tag_value};

verus! {

/// Holds the active position once a fill is confirmed.
pub struct Executor {
    pub active_position: Option<Position>,
}

/// The bytes of a tag's first value in `<SOH> + msg`, or empty when the
/// tag is absent; the prepended separator lets a tag at the start of a
/// fragment be found.
pub open spec fn report_tag(msg: Seq<u8>, tag: nat) -> Seq<u8> {
    match spec_tag_value(seq![SOH] + msg, tag) {
        Some(v) => v,
        None => Seq::empty(),
    }
}

/// The full effect of one inbound trade-session message on (status,
/// pending thesis, active position):
/// - a business reject (35=j) or an execution reject (39=8) matching the
///   pending thesis returns the machine to Idle and discards the thesis;
/// - a session reject (35=3) and a cancel reject (35=9) change nothing;
/// - an execution report (35=8) sets New on 39=0; on a fill (39=2)
///   matching the pending thesis it sets Filled and promotes the thesis
///   to the active position; on 39=4 or 39=C it returns to Idle and
///   clears the active position.
pub open spec fn report_effect(
    msg: Seq<u8>, st0: TradeStatus, pend0: Option<Position>, act0: Option<Position>,
) -> (TradeStatus, Option<Position>, Option<Position>) {
    let mt = report_tag(msg, 35);
    let cid = report_tag(msg, 11);
    let os = report_tag(msg, 39);
    if mt == seq![106u8] || os == seq![56u8] {
        if pend0 matches Some(p) && p.cl_ord_id@ == cid {
            (TradeStatus::Idle, None::<Position>, act0)
        } else {
            (st0, pend0, act0)
        }
    } else if mt == seq![51u8] {
        (st0, pend0, act0)
    } else if mt == seq![56u8] {
        if os == seq![48u8] {
            (TradeStatus::New, pend0, act0)
        } else if os == seq![50u8] {
            if pend0 matches Some(p) && p.cl_ord_id@ == cid {
                (TradeStatus::Filled, None::<Position>, pend0)
            } else {
                (st0, pend0, act0)
            }
        } else if os == seq![52u8] || os == seq![67u8] {
            (TradeStatus::Idle, pend0, None::<Position>)
        } else {
            (st0, pend0, act0)
        }
    } else {
        (st0, pend0, act0)
    }
}

/// A position must exit when the mid has crossed its take-profit or
/// stop-loss (direction depends on the side), or when the current sigma
/// has spiked past lambda times the sigma the position was entered under.
pub open spec fn spec_should_exit(
    pos: Option<Position>, mid_micro: u64, sigma_micro: u64, lambda_micro: u64,
) -> bool {
    match pos {
        None => false,
        Some(p) => {
            let level_exit = if p.side == '1' {
                mid_micro >= p.tp_price || mid_micro <= p.sl_price
            } else {
                mid_micro <= p.tp_price || mid_micro >= p.sl_price
            };
            level_exit || sigma_micro as int * 1000000
                > p.entry_sigma_total as int * lambda_micro as int
        },
    }
}

/// Compares two byte strings.
fn bytes_eq(a: &[u8], b: &[u8]) -> (r: bool)
    ensures
        r == (a@ == b@),
{
    let n = a.len();
    if n != b.len() {
        proof {
            assert(a@ != b@);
        }
        return false;
    }
    let mut i: usize = 0;
    while i < n
        invariant
            0 <= i <= n,
            n == a@.len() && n == b@.len(),
            forall|p: int| 0 <= p < i ==> #[trigger] a@[p] == b@[p],
        decreases n - i,
    {
        if a[i] != b[i] {
            return false;
        }
        i = i + 1;
    }
    proof {
        assert(a@ =~= b@);
    }
    true
}

/// Extracts a tag from `<SOH> + msg`, with the empty string for an
/// absent tag.
fn get_report_tag(msg: &[u8], tag: u64) -> (r: Vec<u8>)
    ensures
        r@ == report_tag(msg@, tag as nat),
{
    let mut pm: Vec<u8> = Vec::new();
    pm.push(SOH);
    let mut i: usize = 0;
    let n = msg.len();
    while i < n
        invariant
            0 <= i <= n,
            n == msg@.len(),
            pm@ == seq![SOH] + msg@.subrange(0, i as int),
        decreases n - i,
    {
        proof {
            assert(seq![SOH] + msg@.subrange(0, i + 1)
                =~= (seq![SOH] + msg@.subrange(0, i as int)).push(msg@[i as int]));
        }
        pm.push(msg[i]);
        i = i + 1;
    }
    proof {
        assert(pm@ =~= seq![SOH] + msg@);
    }
    match find_tag_value(pm.as_slice(), tag) {
        Some(v) => v,
        None => Vec::new(),
    }
}

impl Executor {
    pub fn new() -> (e: Executor)
        ensures
            e.active_position is None,
    {
        Executor { active_position: None }
    }

    /// True when the active position must be closed, by level or by a
    /// sigma spike against the risk manager's lambda.
    pub fn monitor_position(
        &self, current_mid_micro: u64, current_sigma_micro: u64,
        risk_manager: &RiskManager,
    ) -> (r: bool)
        ensures
            r == spec_should_exit(self.active_position, current_mid_micro,
                current_sigma_micro, risk_manager.lambda_epistemic_micro),
    {
        let pos = match &self.active_position {
            Some(p) => p,
            None => {
                return false;
            },
        };
        let trigger_exit = if pos.side == '1' {
            current_mid_micro >= pos.tp_price || current_mid_micro <= pos.sl_price
        } else {
            current_mid_micro <= pos.tp_price || current_mid_micro >= pos.sl_price
        };
        if trigger_exit {
            return true;
        }
        proof {
            assert(pos.entry_sigma_total as int * risk_manager.lambda_epistemic_micro as int
                <= 0xffff_ffff_ffff_ffffu64 as int * 0xffff_ffff_ffff_ffffu64 as int)
                by (nonlinear_arith)
                requires
                    0 <= pos.entry_sigma_total as int <= 0xffff_ffff_ffff_ffffu64 as int,
                    0 <= risk_manager.lambda_epistemic_micro as int
                        <= 0xffff_ffff_ffff_ffffu64 as int;
        }
        (current_sigma_micro as u128) * 1000000
            > (pos.entry_sigma_total as u128) * (risk_manager.lambda_epistemic_micro as u128)
    }

    /// Applies one inbound trade-session message to the machine, exactly
    /// as `report_effect` describes.
    pub fn handle_execution_report(
        &mut self, msg: &[u8], risk_manager: &mut RiskManager,
        pending_thesis: &mut Option<Position>,
    )
        ensures
            ({
                let (st, pend, act) = report_effect(msg@, old(risk_manager).status,
                    *old(pending_thesis), old(self).active_position);
                &&& final(risk_manager).status == st
                &&& *final(pending_thesis) == pend
                &&& final(self).active_position == act
            }),
            final(risk_manager).last_order_time_ms == old(risk_manager).last_order_time_ms,
            final(risk_manager).cooldown_ms == old(risk_manager).cooldown_ms,
            final(risk_manager).max_units == old(risk_manager).max_units,
            final(risk_manager).snr_threshold_micro == old(risk_manager).snr_threshold_micro,
            final(risk_manager).kelly_fraction_micro == old(risk_manager).kelly_fraction_micro,
            final(risk_manager).lambda_epistemic_micro
                == old(risk_manager).lambda_epistemic_micro,
            final(risk_manager).tp_z_micro == old(risk_manager).tp_z_micro,
            final(risk_manager).sl_z_micro == old(risk_manager).sl_z_micro,
    {
        let mt = get_report_tag(msg, 35);
        let cid = get_report_tag(msg, 11);
        let os = get_report_tag(msg, 39);
        let is_reject = (mt.len() == 1 && mt[0] == 106) || (os.len() == 1 && os[0] == 56);
        proof {
            if mt@.len() == 1 && mt@[0] == 106u8 {
                assert(mt@ =~= seq![106u8]);
            }
            if os@.len() == 1 && os@[0] == 56u8 {
                assert(os@ =~= seq![56u8]);
            }
            if mt@ == seq![106u8] {
                assert(mt@.len() == 1 && mt@[0] == 106u8);
            }
            if os@ == seq![56u8] {
                assert(os@.len() == 1 && os@[0] == 56u8);
            }
        }
        if is_reject {
            let matches_pending = match pending_thesis {
                Some(p) => bytes_eq(p.cl_ord_id.as_slice(), cid.as_slice()),
                None => false,
            };
            if matches_pending {
                risk_manager.status = TradeStatus::Idle;
                *pending_thesis = None;
            }
            return;
        }
        if mt.len() == 1 && mt[0] == 51 {
            proof {
                assert(mt@ =~= seq![51u8]);
            }
            return;
        }
        proof {
            if mt@ == seq![51u8] {
                assert(mt@.len() == 1 && mt@[0] == 51u8);
            }
        }
        if mt.len() == 1 && mt[0] == 56 {
            proof {
                assert(mt@ =~= seq![56u8]);
            }
            if os.len() == 1 && os[0] == 48 {
                proof {
                    assert(os@ =~= seq![48u8]);
                }
                risk_manager.status = TradeStatus::New;
                return;
            }
            proof {
                if os@ == seq![48u8] {
                    assert(os@.len() == 1 && os@[0] == 48u8);
                }
            }
            if os.len() == 1 && os[0] == 50 {
                proof {
                    assert(os@ =~= seq![50u8]);
                }
                let matches_pending = match pending_thesis {
                    Some(p) => bytes_eq(p.cl_ord_id.as_slice(), cid.as_slice()),
                    None => false,
                };
                if matches_pending {
                    risk_manager.status = TradeStatus::Filled;
                    let mut moved: Option<Position> = None;
                    core::mem::swap(pending_thesis, &mut moved);
                    self.active_position = moved;
                }
                return;
            }
            proof {
                if os@ == seq![50u8] {
                    assert(os@.len() == 1 && os@[0] == 50u8);
                }
            }
            if os.len() == 1 && (os[0] == 52 || os[0] == 67) {
                proof {
                    assert(os@ =~= seq![52u8] || os@ =~= seq![67u8]);
                }
                risk_manager.status = TradeStatus::Idle;
                self.active_position = None;
                return;
            }
            proof {
                if os@ == seq![52u8] {
                    assert(os@.len() == 1 && os@[0] == 52u8);
                }
                if os@ == seq![67u8] {
                    assert(os@.len() == 1 && os@[0] == 67u8);
                }
            }
            return;
        }
        proof {
            if mt@ == seq![56u8] {
                assert(mt@.len() == 1 && mt@[0] == 56u8);
            }
        }
    }
}

} // verus!