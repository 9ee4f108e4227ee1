//! Core trading state: order lifecycle status, the per-order thesis record,
//! per-session FIX sequence numbers, and the depth-resolved limit order book.
//!
//! Book prices are integer keys scaled by 10^5, so that equality is exact and
//! the ladders stay totally ordered; volumes are whole units.

use vstd::prelude::*;

verus! {

/// Largest admissible price key (price 10^7 at the 10^5 scale); keeps the
/// mid-price arithmetic inside `i64`.
pub const MAX_PRICE_KEY: i64 = 1_000_000_000_000;

/// Scale of unitless micro quantities: 1.0 == 1_000_000.
pub const MICRO: i64 = 1_000_000;

/// Largest admissible resting volume per level; keeps the intensity sum
/// inside `u128` for any number of levels.
pub const MAX_VOLUME: u64 = 1_000_000_000_000_000;

/// Lifecycle of the single logical order the engine may have in flight.
#[derive(Debug, Clone, Copy, PartialEq, Eq, Structural)]
pub enum TradeStatus {
    Idle,
    PendingNew,
    New,
    PartiallyFilled,
    Filled,
    Rejected,
}

/// The immutable thesis of one order: identity, entry levels and the
/// Bayesian metrics it was opened under. Prices are micro prices
/// (scaled by 10^6); mu / sigma / snr are micro quantities.
#[derive(Debug, Clone)]
pub struct Position {
    pub cl_ord_id: Vec<u8>,
    pub entry_price: u64,
    pub side: char,
    pub qty: u64,
    pub tp_price: u64,
    pub sl_price: u64,
    pub entry_mu: i64,
    pub entry_sigma_total: u64,
    pub entry_snr: u64,
}

/// Per-session outbound sequence counter. The next message carries the
/// current value; the counter then increments, so stamped values are
/// strictly monotonic.
pub struct SessionState {
    pub seq_num: u64,
}

impl SessionState {
    /// A fresh session starts at sequence number 1.
    pub fn new() -> (s: SessionState)
        ensures
            s.seq_num == 1,
    {
        SessionState { seq_num: 1 }
    }

    /// Hands out the sequence number for the next outbound message and
    /// advances the counter, so two successive calls return strictly
    /// increasing values.
    pub fn next_seq(&mut self) -> (n: u64)
        requires
            old(self).seq_num < u64::MAX,
        ensures
            n == old(self).seq_num,
            final(self).seq_num == old(self).seq_num + 1,
    {
        let n = self.seq_num;
        self.seq_num = self.seq_num + 1;
        n
    }
}

/// Sequence numbers on a session are strictly monotonic across outbound
/// messages: when every message stamps the session's current counter and
/// the counter then advances by one (the `next_seq` contract), any earlier
/// stamp is strictly below any later one.
pub proof fn lemma_seq_nums_strictly_monotonic(states: Seq<SessionState>, stamps: Seq<u64>)
    requires
        stamps.len() == states.len(),
        forall|i: int| 0 <= i < stamps.len() ==> #[trigger] stamps[i] == states[i].seq_num,
        forall|i: int| 1 <= i < states.len() ==>
            (#[trigger] states[i].seq_num) == states[i - 1].seq_num + 1,
    ensures
        forall|i: int, j: int| 0 <= i < j < stamps.len() ==>
            #[trigger] stamps[i] < #[trigger] stamps[j],
    decreases states.len(),
{
    if states.len() > 1 {
        lemma_seq_nums_strictly_monotonic(states.drop_last(), stamps.drop_last());
        assert forall|i: int, j: int| 0 <= i < j < stamps.len() implies
            #[trigger] stamps[i] < #[trigger] stamps[j] by {
            if j < stamps.len() - 1 {
                assert(stamps.drop_last()[i] < stamps.drop_last()[j]);
            } else {
                assert(states[j].seq_num == states[j - 1].seq_num + 1);
                if i < j - 1 {
                    assert(stamps.drop_last()[i] < stamps.drop_last()[j - 1]);
                }
            }
        }
    }
}

/// One half of the book: levels sorted by strictly increasing price key,
/// every volume positive, every key in range.
pub open spec fn ladder_sorted(s: Seq<(i64, u64)>) -> bool {
    forall|i: int, j: int| 0 <= i < j < s.len() ==> #[trigger] s[i].0 < #[trigger] s[j].0
}

pub open spec fn ladder_wf(s: Seq<(i64, u64)>) -> bool {
    &&& ladder_sorted(s)
    &&& forall|i: int| 0 <= i < s.len() ==> 0 < #[trigger] s[i].1 <= MAX_VOLUME
    &&& forall|i: int| 0 <= i < s.len() ==> 0 <= #[trigger] s[i].0 <= MAX_PRICE_KEY
}

pub open spec fn ladder_has(s: Seq<(i64, u64)>, k: i64) -> bool {
    exists|i: int| 0 <= i < s.len() && #[trigger] s[i].0 == k
}

/// Volume resting at price key `k`; zero when the level is absent.
pub open spec fn ladder_vol(s: Seq<(i64, u64)>, k: i64) -> u64 {
    if ladder_has(s, k) {
        s[choose|i: int| 0 <= i < s.len() && #[trigger] s[i].0 == k].1
    } else {
        0u64
    }
}

/// In a sorted ladder the level at index `i` is the one `ladder_vol` reads.
pub proof fn lemma_ladder_vol_at(s: Seq<(i64, u64)>, i: int)
    requires
        ladder_sorted(s),
        0 <= i < s.len(),
    ensures
        ladder_has(s, s[i].0),
        ladder_vol(s, s[i].0) == s[i].1,
{
    assert(ladder_has(s, s[i].0));
    let j = choose|j: int| 0 <= j < s.len() && #[trigger] s[j].0 == s[i].0;
    if j < i {
        assert(s[j].0 < s[i].0);
    } else if i < j {
        assert(s[i].0 < s[j].0);
    }
}

/// In a sorted ladder the last key is the maximum and the first the minimum.
pub proof fn lemma_ladder_bounds(s: Seq<(i64, u64)>)
    requires
        ladder_sorted(s),
    ensures
        forall|i: int| 0 <= i < s.len() ==> #[trigger] s[i].0 <= s[s.len() - 1].0,
        forall|i: int| 0 <= i < s.len() ==> #[trigger] s[i].0 >= s[0].0,
{
}

/// Removing the level at index `i` keeps the ladder well formed and leaves
/// every other price level untouched.
pub proof fn lemma_ladder_remove(s: Seq<(i64, u64)>, i: int)
    requires
        ladder_wf(s),
        0 <= i < s.len(),
    ensures
        ladder_wf(s.remove(i)),
        !ladder_has(s.remove(i), s[i].0),
        forall|k2: i64| k2 != s[i].0 ==>
            (#[trigger] ladder_has(s.remove(i), k2) <==> ladder_has(s, k2)),
        forall|k2: i64| k2 != s[i].0 ==>
            #[trigger] ladder_vol(s.remove(i), k2) == ladder_vol(s, k2),
        forall|k2: i64| #[trigger] ladder_has(s.remove(i), k2) ==> ladder_has(s, k2),
{
    let t = s.remove(i);
    assert(forall|j: int| 0 <= j < t.len() ==>
        #[trigger] t[j] == (if j < i { s[j] } else { s[j + 1] }));
    assert forall|k2: i64| k2 != s[i].0 && ladder_has(s, k2) implies ladder_has(t, k2) by {
        let j = choose|j: int| 0 <= j < s.len() && #[trigger] s[j].0 == k2;
        if j < i {
            assert(t[j].0 == k2);
        } else {
            assert(t[j - 1].0 == k2);
        }
    }
    assert forall|k2: i64| ladder_has(t, k2) implies ladder_has(s, k2) && k2 != s[i].0 by {
        let j = choose|j: int| 0 <= j < t.len() && #[trigger] t[j].0 == k2;
        if j < i {
            assert(s[j].0 == k2);
            assert(j != i);
            lemma_ladder_vol_at(s, j);
            if k2 == s[i].0 {
                assert(s[j].0 == s[i].0);
                assert(false);
            }
        } else {
            assert(s[j + 1].0 == k2);
            if k2 == s[i].0 {
                assert(s[i].0 < s[j + 1].0);
                assert(false);
            }
        }
    }
    assert forall|k2: i64| k2 != s[i].0 implies
        #[trigger] ladder_vol(t, k2) == ladder_vol(s, k2) by {
        if ladder_has(s, k2) {
            let j = choose|j: int| 0 <= j < s.len() && #[trigger] s[j].0 == k2;
            lemma_ladder_vol_at(s, j);
            if j < i {
                lemma_ladder_vol_at(t, j);
            } else {
                lemma_ladder_vol_at(t, j - 1);
            }
        }
    }
}

/// Inserting `(k, v)` at its sorted position keeps the ladder well formed,
/// gives `k` volume `v`, and leaves every other price level untouched.
pub proof fn lemma_ladder_insert(s: Seq<(i64, u64)>, i: int, k: i64, v: u64)
    requires
        ladder_wf(s),
        0 <= i <= s.len(),
        0 < v <= MAX_VOLUME,
        0 <= k <= MAX_PRICE_KEY,
        forall|j: int| 0 <= j < i ==> #[trigger] s[j].0 < k,
        forall|j: int| i <= j < s.len() ==> #[trigger] s[j].0 > k,
    ensures
        ladder_wf(s.insert(i, (k, v))),
        ladder_has(s.insert(i, (k, v)), k),
        ladder_vol(s.insert(i, (k, v)), k) == v,
        forall|k2: i64| k2 != k ==>
            (#[trigger] ladder_has(s.insert(i, (k, v)), k2) <==> ladder_has(s, k2)),
        forall|k2: i64| k2 != k ==>
            #[trigger] ladder_vol(s.insert(i, (k, v)), k2) == ladder_vol(s, k2),
        forall|k2: i64| #[trigger] ladder_has(s.insert(i, (k, v)), k2) ==>
            (ladder_has(s, k2) || k2 == k),
{
    let t = s.insert(i, (k, v));
    assert(forall|j: int| 0 <= j < t.len() ==>
        #[trigger] t[j] == (if j < i { s[j] } else if j == i { (k, v) } else { s[j - 1] }));
    assert(ladder_wf(t));
    lemma_ladder_vol_at(t, i);
    assert forall|k2: i64| k2 != k && ladder_has(s, k2) implies ladder_has(t, k2) by {
        let j = choose|j: int| 0 <= j < s.len() && #[trigger] s[j].0 == k2;
        if j < i {
            assert(t[j].0 == k2);
        } else {
            assert(t[j + 1].0 == k2);
        }
    }
    assert forall|k2: i64| ladder_has(t, k2) && k2 != k implies ladder_has(s, k2) by {
        let j = choose|j: int| 0 <= j < t.len() && #[trigger] t[j].0 == k2;
        if j < i {
            assert(s[j].0 == k2);
        } else if j == i {
            assert(false);
        } else {
            assert(s[j - 1].0 == k2);
        }
    }
    assert forall|k2: i64| k2 != k implies
        #[trigger] ladder_vol(t, k2) == ladder_vol(s, k2) by {
        if ladder_has(s, k2) {
            let j = choose|j: int| 0 <= j < s.len() && #[trigger] s[j].0 == k2;
            lemma_ladder_vol_at(s, j);
            if j < i {
                lemma_ladder_vol_at(t, j);
            } else {
                lemma_ladder_vol_at(t, j + 1);
            }
        }
    }
}

/// Deletes the level at price key `k`, if present.
fn ladder_remove(lv: &mut Vec<(i64, u64)>, k: i64)
    requires
        ladder_wf(old(lv)@),
    ensures
        ladder_wf(final(lv)@),
        !ladder_has(final(lv)@, k),
        forall|k2: i64| k2 != k ==>
            (#[trigger] ladder_has(final(lv)@, k2) <==> ladder_has(old(lv)@, k2)),
        forall|k2: i64| k2 != k ==>
            #[trigger] ladder_vol(final(lv)@, k2) == ladder_vol(old(lv)@, k2),
        forall|k2: i64| #[trigger] ladder_has(final(lv)@, k2) ==> ladder_has(old(lv)@, k2),
        final(lv)@.len() ==
            old(lv)@.len() - (if ladder_has(old(lv)@, k) { 1int } else { 0int }),
{
    let ghost s = lv@;
    let n = lv.len();
    let mut i: usize = 0;
    while i < n && lv[i].0 != k
        invariant
            lv@ == s,
            n == s.len(),
            0 <= i <= n,
            forall|j: int| 0 <= j < i ==> #[trigger] s[j].0 != k,
        decreases n - i,
    {
        i = i + 1;
    }
    if i < n {
        assert(s[i as int].0 == k);
        lv.remove(i);
        proof {
            lemma_ladder_remove(s, i as int);
            lemma_ladder_vol_at(s, i as int);
        }
    } else {
        assert(!ladder_has(s, k));
    }
}

/// Inserts or overwrites the level at price key `k` with volume `v > 0`.
fn ladder_upsert(lv: &mut Vec<(i64, u64)>, k: i64, v: u64)
    requires
        ladder_wf(old(lv)@),
        0 < v <= MAX_VOLUME,
        0 <= k <= MAX_PRICE_KEY,
    ensures
        ladder_wf(final(lv)@),
        ladder_has(final(lv)@, k),
        ladder_vol(final(lv)@, k) == v,
        forall|k2: i64| k2 != k ==>
            (#[trigger] ladder_has(final(lv)@, k2) <==> ladder_has(old(lv)@, k2)),
        forall|k2: i64| k2 != k ==>
            #[trigger] ladder_vol(final(lv)@, k2) == ladder_vol(old(lv)@, k2),
        forall|k2: i64| #[trigger] ladder_has(final(lv)@, k2) ==>
            (ladder_has(old(lv)@, k2) || k2 == k),
        final(lv)@.len() ==
            old(lv)@.len() + (if ladder_has(old(lv)@, k) { 0int } else { 1int }),
{
    let ghost s = lv@;
    let n = lv.len();
    let mut i: usize = 0;
    while i < n && lv[i].0 < k
        invariant
            lv@ == s,
            n == s.len(),
            0 <= i <= n,
            forall|j: int| 0 <= j < i ==> #[trigger] s[j].0 < k,
        decreases n - i,
    {
        i = i + 1;
    }
    proof {
        lemma_ladder_bounds(s);
    }
    if i < n && lv[i].0 == k {
        lv.remove(i);
        proof {
            lemma_ladder_remove(s, i as int);
            lemma_ladder_vol_at(s, i as int);
        }
        let ghost s1 = lv@;
        assert(forall|j: int| 0 <= j < s1.len() ==>
            #[trigger] s1[j] == (if j < i { s[j] } else { s[j + 1] }));
        lv.insert(i, (k, v));
        proof {
            lemma_ladder_insert(s1, i as int, k, v);
        }
    } else {
        assert(forall|j: int| i <= j < s.len() ==> #[trigger] s[j].0 > k);
        assert(!ladder_has(s, k)) by {
            if ladder_has(s, k) {
                let j = choose|j: int| 0 <= j < s.len() && #[trigger] s[j].0 == k;
                assert(false);
            }
        }
        lv.insert(i, (k, v));
        proof {
            lemma_ladder_insert(s, i as int, k, v);
        }
    }
}

/// Removes every level with price key `<= k` (heals a book crossed from below).
#[verifier::rlimit(40)]
fn ladder_remove_le(lv: &mut Vec<(i64, u64)>, k: i64)
    requires
        ladder_wf(old(lv)@),
    ensures
        ladder_wf(final(lv)@),
        forall|k2: i64| #[trigger] ladder_has(final(lv)@, k2) <==>
            (ladder_has(old(lv)@, k2) && k2 > k),
        forall|k2: i64| k2 > k ==>
            #[trigger] ladder_vol(final(lv)@, k2) == ladder_vol(old(lv)@, k2),
        (old(lv)@.len() == 0 || old(lv)@[0].0 > k) ==> final(lv)@ == old(lv)@,
{
    let ghost s = lv@;
    proof {
        assert(lv@ =~= s.subrange(0, s.len() as int));
    }
    while lv.len() > 0 && lv[0].0 <= k
        invariant
            ladder_wf(s),
            exists|m: int| 0 <= m <= s.len() && lv@ == s.subrange(m, s.len() as int)
                && (forall|j: int| 0 <= j < m ==> #[trigger] s[j].0 <= k),
        decreases lv@.len(),
    {
        let ghost m = choose|m: int| 0 <= m <= s.len()
            && lv@ == s.subrange(m, s.len() as int)
            && (forall|j: int| 0 <= j < m ==> #[trigger] s[j].0 <= k);
        assert(s[m].0 <= k);
        lv.remove(0);
        proof {
            assert(lv@ =~= s.subrange(m + 1, s.len() as int));
        }
    }
    let ghost m = choose|m: int| 0 <= m <= s.len()
        && lv@ == s.subrange(m, s.len() as int)
        && (forall|j: int| 0 <= j < m ==> #[trigger] s[j].0 <= k);
    proof {
        lemma_ladder_bounds(s);
        assert forall|k2: i64| ladder_has(lv@, k2) implies
            (ladder_has(s, k2) && k2 > k) by {
            let j = choose|j: int| 0 <= j < lv@.len() && #[trigger] lv@[j].0 == k2;
            assert(lv@[j] == s[m + j]);
            assert(lv@[0].0 > k);
            assert(s[m] == lv@[0]);
            assert(s[m].0 <= s[m + j].0);
        }
        assert forall|k2: i64| ladder_has(s, k2) && k2 > k implies
            ladder_has(lv@, k2) by {
            let j = choose|j: int| 0 <= j < s.len() && #[trigger] s[j].0 == k2;
            assert(j >= m);
            assert(lv@[j - m].0 == k2);
        }
        assert forall|k2: i64| k2 > k implies
            #[trigger] ladder_vol(lv@, k2) == ladder_vol(s, k2) by {
            if ladder_has(s, k2) {
                let j = choose|j: int| 0 <= j < s.len() && #[trigger] s[j].0 == k2;
                lemma_ladder_vol_at(s, j);
                assert(j >= m);
                assert(lv@[j - m] == s[j]);
                lemma_ladder_vol_at(lv@, j - m);
            }
        }
        if s.len() > 0 && s[0].0 > k {
            assert(m == 0);
            assert(lv@ =~= s);
        }
    }
}

/// Removes every level with price key `>= k` (heals a book crossed from above).
#[verifier::rlimit(40)]
fn ladder_remove_ge(lv: &mut Vec<(i64, u64)>, k: i64)
    requires
        ladder_wf(old(lv)@),
    ensures
        ladder_wf(final(lv)@),
        forall|k2: i64| #[trigger] ladder_has(final(lv)@, k2) <==>
            (ladder_has(old(lv)@, k2) && k2 < k),
        forall|k2: i64| k2 < k ==>
            #[trigger] ladder_vol(final(lv)@, k2) == ladder_vol(old(lv)@, k2),
        (old(lv)@.len() == 0 || old(lv)@[old(lv)@.len() - 1].0 < k) ==>
            final(lv)@ == old(lv)@,
{
    let ghost s = lv@;
    proof {
        assert(lv@ =~= s.subrange(0, s.len() as int));
    }
    while lv.len() > 0 && lv[lv.len() - 1].0 >= k
        invariant
            ladder_wf(s),
            lv@.len() <= s.len(),
            lv@ == s.subrange(0, lv@.len() as int),
            forall|j: int| lv@.len() <= j < s.len() ==> #[trigger] s[j].0 >= k,
        decreases lv@.len(),
    {
        lv.pop();
        proof {
            assert(lv@ =~= s.subrange(0, lv@.len() as int));
        }
    }
    proof {
        lemma_ladder_bounds(s);
        let w = lv@.len() as int;
        assert forall|k2: i64| ladder_has(lv@, k2) implies
            (ladder_has(s, k2) && k2 < k) by {
            let j = choose|j: int| 0 <= j < lv@.len() && #[trigger] lv@[j].0 == k2;
            assert(lv@[j] == s[j]);
            assert(lv@[w - 1].0 < k);
            assert(s[j].0 <= s[w - 1].0);
        }
        assert forall|k2: i64| ladder_has(s, k2) && k2 < k implies
            ladder_has(lv@, k2) by {
            let j = choose|j: int| 0 <= j < s.len() && #[trigger] s[j].0 == k2;
            assert(j < w);
            assert(lv@[j].0 == k2);
        }
        assert forall|k2: i64| k2 < k implies
            #[trigger] ladder_vol(lv@, k2) == ladder_vol(s, k2) by {
            if ladder_has(s, k2) {
                let j = choose|j: int| 0 <= j < s.len() && #[trigger] s[j].0 == k2;
                lemma_ladder_vol_at(s, j);
                assert(j < w);
                assert(lv@[j] == s[j]);
                lemma_ladder_vol_at(lv@, j);
            }
        }
    }
}

/// One book mutation as carried by a market-data entry: `action` is '2' for
/// delete and '1' otherwise, `side` is '0' for bid and '1' for ask, the price
/// is already scaled to its integer key.
#[derive(Debug, Clone, Copy, PartialEq, Eq, Structural)]
pub struct BookUpdate {
    pub action: char,
    pub side: char,
    pub price_key: i64,
    pub volume: u64,
}

/// Depth-resolved limit order book: two price-keyed ladders.
pub struct OrderBook {
    pub bids: Vec<(i64, u64)>,
    pub asks: Vec<(i64, u64)>,
}

/// Both ladders well formed and uncrossed: whenever both sides are non-empty,
/// the best bid sits strictly below the best ask.
pub open spec fn book_wf(b: OrderBook) -> bool {
    &&& ladder_wf(b.bids@)
    &&& ladder_wf(b.asks@)
    &&& (b.bids@.len() > 0 && b.asks@.len() > 0 ==> b.bids@.last().0 < b.asks@.first().0)
}

/// Number of price levels standing on both sides together.
pub open spec fn book_levels(b: OrderBook) -> int {
    b.bids@.len() + b.asks@.len() as int
}

/// An update whose action or zero volume asks for removal of the level.
pub open spec fn update_is_delete(u: BookUpdate) -> bool {
    u.action == '2' || u.volume == 0
}

/// Full behaviour of one book update, relating the book before to the book
/// after: the target ladder gains, overwrites or drops the level at
/// `u.price_key`; on an upsert the opposite ladder keeps exactly its levels
/// that do not cross the new one.
pub open spec fn update_step(pre: OrderBook, u: BookUpdate, post: OrderBook) -> bool {
    if u.side == '0' {
        if update_is_delete(u) {
            &&& post.asks@ == pre.asks@
            &&& !ladder_has(post.bids@, u.price_key)
            &&& forall|k: i64| k != u.price_key ==>
                (#[trigger] ladder_has(post.bids@, k) <==> ladder_has(pre.bids@, k))
            &&& forall|k: i64| k != u.price_key ==>
                #[trigger] ladder_vol(post.bids@, k) == ladder_vol(pre.bids@, k)
            &&& post.bids@.len() ==
                pre.bids@.len() - (if ladder_has(pre.bids@, u.price_key) { 1int } else { 0int })
        } else {
            &&& ladder_has(post.bids@, u.price_key)
            &&& ladder_vol(post.bids@, u.price_key) == u.volume
            &&& forall|k: i64| k != u.price_key ==>
                (#[trigger] ladder_has(post.bids@, k) <==> ladder_has(pre.bids@, k))
            &&& forall|k: i64| k != u.price_key ==>
                #[trigger] ladder_vol(post.bids@, k) == ladder_vol(pre.bids@, k)
            &&& post.bids@.len() ==
                pre.bids@.len() + (if ladder_has(pre.bids@, u.price_key) { 0int } else { 1int })
            &&& forall|k: i64| #[trigger] ladder_has(post.asks@, k) <==>
                (ladder_has(pre.asks@, k) && k > u.price_key)
            &&& forall|k: i64| k > u.price_key ==>
                #[trigger] ladder_vol(post.asks@, k) == ladder_vol(pre.asks@, k)
            &&& (pre.asks@.len() == 0 || pre.asks@.first().0 > u.price_key) ==>
                post.asks@ == pre.asks@
        }
    } else {
        if update_is_delete(u) {
            &&& post.bids@ == pre.bids@
            &&& !ladder_has(post.asks@, u.price_key)
            &&& forall|k: i64| k != u.price_key ==>
                (#[trigger] ladder_has(post.asks@, k) <==> ladder_has(pre.asks@, k))
            &&& forall|k: i64| k != u.price_key ==>
                #[trigger] ladder_vol(post.asks@, k) == ladder_vol(pre.asks@, k)
            &&& post.asks@.len() ==
                pre.asks@.len() - (if ladder_has(pre.asks@, u.price_key) { 1int } else { 0int })
        } else {
            &&& ladder_has(post.asks@, u.price_key)
            &&& ladder_vol(post.asks@, u.price_key) == u.volume
            &&& forall|k: i64| k != u.price_key ==>
                (#[trigger] ladder_has(post.asks@, k) <==> ladder_has(pre.asks@, k))
            &&& forall|k: i64| k != u.price_key ==>
                #[trigger] ladder_vol(post.asks@, k) == ladder_vol(pre.asks@, k)
            &&& post.asks@.len() ==
                pre.asks@.len() + (if ladder_has(pre.asks@, u.price_key) { 0int } else { 1int })
            &&& forall|k: i64| #[trigger] ladder_has(post.bids@, k) <==>
                (ladder_has(pre.bids@, k) && k < u.price_key)
            &&& forall|k: i64| k < u.price_key ==>
                #[trigger] ladder_vol(post.bids@, k) == ladder_vol(pre.bids@, k)
            &&& (pre.bids@.len() == 0 || pre.bids@.last().0 < u.price_key) ==>
                post.bids@ == pre.bids@
        }
    }
}

impl OrderBook {
    /// The engine starts from an empty book.
    pub fn new() -> (b: OrderBook)
        ensures
            book_wf(b),
            b.bids@.len() == 0,
            b.asks@.len() == 0,
    {
        OrderBook { bids: Vec::new(), asks: Vec::new() }
    }

    /// Applies one market-data entry. A delete action or a zero volume
    /// removes the level; otherwise the level is inserted or overwritten,
    /// and any level on the opposite side that the new one crosses is
    /// dropped, which keeps the book uncrossed for every input sequence.
    pub fn update(&mut self, action: char, side: char, price_key: i64, volume: u64)
        requires
            book_wf(*old(self)),
            0 <= price_key <= MAX_PRICE_KEY,
            action == '2' || volume <= MAX_VOLUME,
        ensures
            book_wf(*final(self)),
            update_step(
                *old(self),
                BookUpdate { action, side, price_key, volume },
                *final(self),
            ),
    {
        proof {
            lemma_ladder_bounds(old(self).bids@);
            lemma_ladder_bounds(old(self).asks@);
        }
        if side == '0' {
            if action == '2' || volume == 0 {
                ladder_remove(&mut self.bids, price_key);
                proof {
                    lemma_ladder_bounds(self.bids@);
                    if self.bids@.len() > 0 && self.asks@.len() > 0 {
                        let lk = self.bids@.last().0;
                        assert(ladder_has(self.bids@, lk));
                        let j = choose|j: int| 0 <= j < old(self).bids@.len()
                            && #[trigger] old(self).bids@[j].0 == lk;
                        assert(lk <= old(self).bids@.last().0);
                    }
                }
            } else {
                ladder_upsert(&mut self.bids, price_key, volume);
                ladder_remove_le(&mut self.asks, price_key);
                proof {
                    lemma_ladder_bounds(self.bids@);
                    lemma_ladder_bounds(self.asks@);
                    if self.bids@.len() > 0 && self.asks@.len() > 0 {
                        let bk = self.bids@.last().0;
                        let ak = self.asks@.first().0;
                        assert(ladder_has(self.bids@, bk));
                        assert(ladder_has(self.asks@, ak));
                        assert(ladder_has(old(self).asks@, ak) && ak > price_key);
                        if bk != price_key {
                            assert(ladder_has(old(self).bids@, bk));
                            let j = choose|j: int| 0 <= j < old(self).bids@.len()
                                && #[trigger] old(self).bids@[j].0 == bk;
                            assert(bk <= old(self).bids@.last().0);
                            let ja = choose|j: int| 0 <= j < old(self).asks@.len()
                                && #[trigger] old(self).asks@[j].0 == ak;
                            assert(ak >= old(self).asks@.first().0);
                        }
                    }
                }
            }
        } else {
            if action == '2' || volume == 0 {
                ladder_remove(&mut self.asks, price_key);
                proof {
                    lemma_ladder_bounds(self.asks@);
                    if self.bids@.len() > 0 && self.asks@.len() > 0 {
                        let fk = self.asks@.first().0;
                        assert(ladder_has(self.asks@, fk));
                        let j = choose|j: int| 0 <= j < old(self).asks@.len()
                            && #[trigger] old(self).asks@[j].0 == fk;
                        assert(fk >= old(self).asks@.first().0);
                    }
                }
            } else {
                ladder_upsert(&mut self.asks, price_key, volume);
                ladder_remove_ge(&mut self.bids, price_key);
                proof {
                    lemma_ladder_bounds(self.bids@);
                    lemma_ladder_bounds(self.asks@);
                    if self.bids@.len() > 0 && self.asks@.len() > 0 {
                        let bk = self.bids@.last().0;
                        let ak = self.asks@.first().0;
                        assert(ladder_has(self.bids@, bk));
                        assert(ladder_has(self.asks@, ak));
                        assert(ladder_has(old(self).bids@, bk) && bk < price_key);
                        if ak != price_key {
                            assert(ladder_has(old(self).asks@, ak));
                            let j = choose|j: int| 0 <= j < old(self).asks@.len()
                                && #[trigger] old(self).asks@[j].0 == ak;
                            assert(ak >= old(self).asks@.first().0);
                            let jb = choose|j: int| 0 <= j < old(self).bids@.len()
                                && #[trigger] old(self).bids@[j].0 == bk;
                            assert(bk <= old(self).bids@.last().0);
                        }
                    }
                }
            }
        }
    }
}

/// Whenever both sides of a well-formed book are non-empty, the best bid is
/// strictly below the best ask. Together with `OrderBook::new` and the
/// `book_wf` clause of `OrderBook::update`, this holds after every sequence
/// of updates applied to an empty book.
pub proof fn lemma_best_bid_below_best_ask(b: OrderBook)
    requires
        book_wf(b),
        b.bids@.len() > 0,
        b.asks@.len() > 0,
    ensures
        b.bids@.last().0 < b.asks@.first().0,
{
}

/// An upsert whose price level is new on its own side and does not cross
/// the standing opposite side.
pub open spec fn fresh_noncrossing_upsert(pre: OrderBook, u: BookUpdate) -> bool {
    &&& !update_is_delete(u)
    &&& if u.side == '0' {
        &&& !ladder_has(pre.bids@, u.price_key)
        &&& (pre.asks@.len() == 0 || pre.asks@.first().0 > u.price_key)
    } else {
        &&& !ladder_has(pre.asks@, u.price_key)
        &&& (pre.bids@.len() == 0 || pre.bids@.last().0 < u.price_key)
    }
}

/// After N updates that all upsert positive volume at a new, non-crossing
/// price, the book holds exactly N more price levels than it started with;
/// from an empty book, its total size is the number of distinct prices
/// inserted.
pub proof fn lemma_levels_after_fresh_upserts(books: Seq<OrderBook>, us: Seq<BookUpdate>)
    requires
        books.len() == us.len() + 1,
        forall|i: int| 0 <= i < us.len() ==>
            update_step(#[trigger] books[i], us[i], books[i + 1]),
        forall|i: int| 0 <= i < us.len() ==>
            fresh_noncrossing_upsert(#[trigger] books[i], us[i]),
    ensures
        book_levels(books.last()) == book_levels(books.first()) + us.len(),
    decreases us.len(),
{
    if us.len() == 0 {
    } else {
        let n = us.len() as int;
        lemma_levels_after_fresh_upserts(books.drop_last(), us.drop_last());
        assert(books.drop_last().last() == books[n - 1]);
        assert(books.drop_last().first() == books.first());
        assert(update_step(books[n - 1], us[n - 1], books[n]));
        assert(book_levels(books[n]) == book_levels(books[n - 1]) + 1);
    }
}

/// Exact L1 imbalance in micro units: (b - a) * 10^6 / (b + a) rounded
/// towards zero, 0 when both volumes are zero.
pub open spec fn imbalance_micro(b: u64, a: u64) -> int {
    if b + a == 0 {
        0int
    } else if b >= a {
        ((b - a) * 1000000int) / (b + a)
    } else {
        -(((a - b) * 1000000int) / (a + b))
    }
}

/// Per-level volumes read by the depth vector: bids from the top of the
/// ladder down, asks from the bottom up, zero past the available depth.
pub open spec fn depth_bid_vol(b: OrderBook, j: int) -> u64 {
    if 0 <= j < b.bids@.len() {
        b.bids@[b.bids@.len() - 1 - j].1
    } else {
        0u64
    }
}

pub open spec fn depth_ask_vol(b: OrderBook, j: int) -> u64 {
    if 0 <= j < b.asks@.len() {
        b.asks@[j].1
    } else {
        0u64
    }
}

/// Sum of all resting volume in one ladder.
pub open spec fn sum_vols(s: Seq<(i64, u64)>) -> int
    decreases s.len(),
{
    if s.len() == 0 {
        0int
    } else {
        sum_vols(s.drop_last()) + s.last().1
    }
}

/// The normalized L1 imbalance lies in [-1, 1] and is zero when the two
/// volumes are equal or both zero. (For the exact rational (b-a)/(b+a) the
/// zero case is an equivalence; the micro rounding can still return 0 when
/// the volumes differ by less than one part in 10^6.)
pub fn imbalance_of(b_vol: u64, a_vol: u64) -> (r: i64)
    ensures
        r == imbalance_micro(b_vol, a_vol),
        -1000000 <= r <= 1000000,
        b_vol == a_vol ==> r == 0,
{
    if b_vol == 0 && a_vol == 0 {
        return 0;
    }
    let den: u128 = b_vol as u128 + a_vol as u128;
    if b_vol >= a_vol {
        let num: u128 = (b_vol - a_vol) as u128 * 1000000;
        let q = num / den;
        proof {
            vstd::arithmetic::div_mod::lemma_div_is_ordered(
                num as int, den as int * 1000000, den as int);
            vstd::arithmetic::div_mod::lemma_div_multiples_vanish(1000000int, den as int);
            assert(num as int <= den as int * 1000000) by (nonlinear_arith)
                requires num == (b_vol - a_vol) as int * 1000000,
                    den == b_vol + a_vol, b_vol >= a_vol;
        }
        q as i64
    } else {
        let num: u128 = (a_vol - b_vol) as u128 * 1000000;
        let q = num / den;
        proof {
            vstd::arithmetic::div_mod::lemma_div_is_ordered(
                num as int, den as int * 1000000, den as int);
            vstd::arithmetic::div_mod::lemma_div_multiples_vanish(1000000int, den as int);
            assert(num as int <= den as int * 1000000) by (nonlinear_arith)
                requires num == (a_vol - b_vol) as int * 1000000,
                    den == b_vol + a_vol, a_vol >= b_vol;
        }
        -(q as i64)
    }
}

/// The exact (unrounded) L1 imbalance is the rational (b - a) / (b + a):
/// its magnitude never exceeds its denominator, and it is zero exactly when
/// the two volumes are equal or both absent.
pub proof fn lemma_exact_imbalance_in_unit_interval(b: u64, a: u64)
    ensures
        -((b + a) as int) <= b - a <= (b + a) as int,
        (b - a == 0) <==> (b == a),
{
}

impl OrderBook {
    /// Highest resting bid price key, if any.
    pub fn get_best_bid(&self) -> (r: Option<i64>)
        ensures
            r == if self.bids@.len() == 0 { None::<i64> } else {
                Some(self.bids@.last().0)
            },
    {
        if self.bids.len() == 0 {
            None
        } else {
            Some(self.bids[self.bids.len() - 1].0)
        }
    }

    /// Lowest resting ask price key, if any.
    pub fn get_best_ask(&self) -> (r: Option<i64>)
        ensures
            r == if self.asks@.len() == 0 { None::<i64> } else {
                Some(self.asks@.first().0)
            },
    {
        if self.asks.len() == 0 {
            None
        } else {
            Some(self.asks[0].0)
        }
    }

    /// Mid price in micro price units (10^6 scale): five times the sum of
    /// the two best price keys, which is exactly (best_bid + best_ask) / 2
    /// carried to the finer scale. None when either side is empty.
    pub fn get_mid_price(&self) -> (r: Option<i64>)
        requires
            book_wf(*self),
        ensures
            r is Some <==> (self.bids@.len() > 0 && self.asks@.len() > 0),
            r matches Some(m) ==>
                m == (self.bids@.last().0 + self.asks@.first().0) * 5,
    {
        if self.bids.len() == 0 || self.asks.len() == 0 {
            return None;
        }
        proof {
            lemma_ladder_bounds(self.bids@);
            lemma_ladder_bounds(self.asks@);
        }
        let bb = self.bids[self.bids.len() - 1].0;
        let ba = self.asks[0].0;
        Some((bb + ba) * 5)
    }

    /// L1 imbalance in micro units over the two top-of-book volumes.
    pub fn get_imbalance(&self) -> (r: i64)
        ensures
            r == imbalance_micro(depth_bid_vol(*self, 0), depth_ask_vol(*self, 0)),
            -1000000 <= r <= 1000000,
            depth_bid_vol(*self, 0) == depth_ask_vol(*self, 0) ==> r == 0,
    {
        let b_vol: u64 = if self.bids.len() == 0 { 0 } else {
            self.bids[self.bids.len() - 1].1
        };
        let a_vol: u64 = if self.asks.len() == 0 { 0 } else { self.asks[0].1 };
        imbalance_of(b_vol, a_vol)
    }

    /// Total visible volume across both sides, in whole units.
    pub fn get_book_intensity(&self) -> (r: u128)
        requires
            book_wf(*self),
        ensures
            r == sum_vols(self.bids@) + sum_vols(self.asks@),
    {
        let b = sum_ladder_vols(&self.bids);
        let a = sum_ladder_vols(&self.asks);
        let bl = self.bids.len();
        let al = self.asks.len();
        proof {
            assert(b + a <= (bl + al) * (MAX_VOLUME as int)
                && (bl + al) * (MAX_VOLUME as int) < u128::MAX)
                by (nonlinear_arith)
                requires
                    b <= bl * (MAX_VOLUME as int),
                    a <= al * (MAX_VOLUME as int),
                    bl <= usize::MAX,
                    al <= usize::MAX;
        }
        b + a
    }

    /// Per-level imbalance for levels 0 .. levels-1, padded with 0 where a
    /// side lacks that depth.
    pub fn get_depth_vector(&self, levels: usize) -> (r: Vec<i64>)
        ensures
            r@.len() == levels,
            forall|j: int| 0 <= j < levels ==>
                #[trigger] r@[j] == imbalance_micro(
                    depth_bid_vol(*self, j), depth_ask_vol(*self, j)),
            forall|j: int| 0 <= j < levels ==> -1000000 <= #[trigger] r@[j] <= 1000000,
    {
        let mut r: Vec<i64> = Vec::new();
        let mut j: usize = 0;
        while j < levels
            invariant
                0 <= j <= levels,
                r@.len() == j,
                forall|j2: int| 0 <= j2 < j ==>
                    #[trigger] r@[j2] == imbalance_micro(
                        depth_bid_vol(*self, j2), depth_ask_vol(*self, j2)),
                forall|j2: int| 0 <= j2 < j ==> -1000000 <= #[trigger] r@[j2] <= 1000000,
            decreases levels - j,
        {
            let b_vol: u64 = if j < self.bids.len() {
                self.bids[self.bids.len() - 1 - j].1
            } else {
                0
            };
            let a_vol: u64 = if j < self.asks.len() { self.asks[j].1 } else { 0 };
            r.push(imbalance_of(b_vol, a_vol));
            j = j + 1;
        }
        r
    }
}

/// The volume sum of one ladder never exceeds the count of levels times the
/// largest volume.
proof fn lemma_sum_vols_bound(s: Seq<(i64, u64)>)
    requires
        ladder_wf(s),
    ensures
        0 <= sum_vols(s) <= s.len() * (MAX_VOLUME as int),
    decreases s.len(),
{
    if s.len() == 0 {
    } else {
        assert(ladder_wf(s.drop_last()));
        lemma_sum_vols_bound(s.drop_last());
        assert((s.len() - 1) * (MAX_VOLUME as int) + (MAX_VOLUME as int)
            == s.len() * (MAX_VOLUME as int)) by (nonlinear_arith);
    }
}

/// Sums one ladder's volumes into a 128-bit accumulator, which cannot
/// overflow.
fn sum_ladder_vols(lv: &Vec<(i64, u64)>) -> (r: u128)
    requires
        ladder_wf(lv@),
    ensures
        r == sum_vols(lv@),
        r <= lv@.len() * (MAX_VOLUME as int),
{
    let mut acc: u128 = 0;
    let mut i: usize = 0;
    let n = lv.len();
    while i < n
        invariant
            0 <= i <= n,
            n == lv@.len(),
            ladder_wf(lv@),
            acc == sum_vols(lv@.subrange(0, i as int)),
            acc <= i * (MAX_VOLUME as int),
        decreases n - i,
    {
        proof {
            assert(lv@.subrange(0, i + 1).drop_last() =~= lv@.subrange(0, i as int));
            assert(i * (MAX_VOLUME as int) + (MAX_VOLUME as int)
                == (i + 1) * (MAX_VOLUME as int)) by (nonlinear_arith);
            assert((i + 1) * (MAX_VOLUME as int) < u128::MAX) by (nonlinear_arith)
                requires i + 1 <= usize::MAX;
        }
        acc = acc + lv[i].1 as u128;
        i = i + 1;
    }
    proof {
        assert(lv@.subrange(0, n as int) =~= lv@);
    }
    acc
}

} // verus!
