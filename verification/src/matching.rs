//! The matching rules of the order book, as a state machine.
//!
//! An incoming limit or market order is resolved against the book one step at a
//! time. A stop order whose trigger price is reached interrupts the order being
//! resolved: it is taken out of its book, trades as an unconditional order until
//! it is done, and then the interrupted order goes on where it stopped.

use vstd::prelude::*;
use crate::order::{
    ConditionalOrder, ConditionalType, Order, OrderComplement, UnconditionalOrder,
    UnconditionalView, complement_part, priority, reassembled, same_order, signed_price,
    unconditional_part,
};
use crate::queue::{
    lemma_queued_sorted, lemma_requeued_sorted, lemma_slots_in_range, lemma_sorted_drop_last, queued,
    requeued, sorted_by_rank,
};

verus! {

/// The four books of an order book, each sorted by rank and served from its end.
///
/// An incoming buy order trades against `limit_buy_orders` and triggers stop
/// orders of `stop_buy_orders`; what it does not trade rests in
/// `limit_sell_orders`, where incoming sell orders find it. Sell orders work the
/// other way around.
pub struct Books {
    pub limit_buy_orders: Seq<UnconditionalOrder>,
    pub limit_sell_orders: Seq<UnconditionalOrder>,
    pub stop_buy_orders: Seq<ConditionalOrder>,
    pub stop_sell_orders: Seq<ConditionalOrder>,
}

/// Every order resting in a limit book has a limit price.
pub open spec fn all_priced(s: Seq<UnconditionalOrder>) -> bool {
    forall|i: int| 0 <= i < s.len() ==> (#[trigger] s[i]).limit_price is Some
}

/// Every stop order of a stop book is on the given side.
pub open spec fn all_on_side(s: Seq<ConditionalOrder>, buy: bool) -> bool {
    forall|i: int| 0 <= i < s.len() ==> (#[trigger] s[i]).buy == buy
}

impl Books {
    pub open spec fn empty() -> Books {
        Books {
            limit_buy_orders: Seq::empty(),
            limit_sell_orders: Seq::empty(),
            stop_buy_orders: Seq::empty(),
            stop_sell_orders: Seq::empty(),
        }
    }

    /// The limit book that an order resolved on the given side trades against.
    pub open spec fn limits(self, buy_side: bool) -> Seq<UnconditionalOrder> {
        if buy_side { self.limit_buy_orders } else { self.limit_sell_orders }
    }

    /// The stop book that an order resolved on the given side triggers.
    pub open spec fn stops(self, buy_side: bool) -> Seq<ConditionalOrder> {
        if buy_side { self.stop_buy_orders } else { self.stop_sell_orders }
    }

    pub open spec fn with_limits(self, buy_side: bool, s: Seq<UnconditionalOrder>) -> Books {
        if buy_side {
            Books { limit_buy_orders: s, ..self }
        } else {
            Books { limit_sell_orders: s, ..self }
        }
    }

    pub open spec fn with_stops(self, buy_side: bool, s: Seq<ConditionalOrder>) -> Books {
        if buy_side {
            Books { stop_buy_orders: s, ..self }
        } else {
            Books { stop_sell_orders: s, ..self }
        }
    }

    pub open spec fn stop_count(self) -> nat {
        self.stop_buy_orders.len() + self.stop_sell_orders.len()
    }

    pub open spec fn limit_count(self) -> nat {
        self.limit_buy_orders.len() + self.limit_sell_orders.len()
    }

    /// The books are sorted, resting limit orders have a price, and each stop
    /// book holds the stop orders of its own side.
    pub open spec fn wf(self) -> bool {
        &&& sorted_by_rank(self.limit_buy_orders)
        &&& sorted_by_rank(self.limit_sell_orders)
        &&& sorted_by_rank(self.stop_buy_orders)
        &&& sorted_by_rank(self.stop_sell_orders)
        &&& all_priced(self.limit_buy_orders)
        &&& all_priced(self.limit_sell_orders)
        &&& all_on_side(self.stop_buy_orders, true)
        &&& all_on_side(self.stop_sell_orders, false)
    }
}

/// An order being resolved.
pub struct Frame {
    /// The order as it came in (for a triggered stop order, what it trades as).
    pub order: UnconditionalOrder,
    /// Present when the order is a triggered stop order.
    pub complement: Option<OrderComplement>,
    /// The volume still to be traded.
    pub remaining: u32,
    /// The resting orders it has traded against so far, in order.
    pub fills: Seq<UnconditionalView>,
    /// Which books it trades against.
    pub buy_side: bool,
    /// Whether the stop book was already looked at in this round.
    pub stops_checked: bool,
}

/// What the resolution of a trade has given so far: orders with the resting
/// orders that they traded against, at most one entry per order.
pub type TradeLog = Seq<(Order, Seq<UnconditionalView>)>;

/// The state of a resolution.
pub struct Matching {
    pub books: Books,
    /// Orders interrupted by triggered stop orders, innermost last.
    pub suspended: Seq<Frame>,
    /// The order being resolved, if any is left.
    pub current: Option<Frame>,
    pub trades: TradeLog,
}

impl Matching {
    pub open spec fn depth(self) -> nat {
        self.suspended.len() + if self.current is Some { 1nat } else { 0nat }
    }
}

/// A resting order as it is reported once traded against.
pub open spec fn filled(o: UnconditionalOrder) -> UnconditionalView {
    UnconditionalView { filled: true, ..o@ }
}

/// No two entries of the log are for the same order.
pub open spec fn distinct_orders(t: TradeLog) -> bool {
    forall|i: int, j: int| 0 <= i < j < t.len() ==> !same_order(#[trigger] t[i].0, #[trigger] t[j].0)
}

/// Records the fills of an order, replacing those recorded before for the same
/// order, as a map does.
pub open spec fn trade_map_insert(t: TradeLog, k: Order, v: Seq<UnconditionalView>) -> TradeLog {
    if exists|i: int| 0 <= i < t.len() && same_order(#[trigger] t[i].0, k) {
        let i = choose|i: int| 0 <= i < t.len() && same_order(#[trigger] t[i].0, k);
        t.update(i, (t[i].0, v))
    } else {
        t.push((k, v))
    }
}

/// The key under which the fills of a resolved order are reported: a triggered
/// stop order is reported as the stop order it was.
pub open spec fn reported_order(f: Frame) -> Order {
    match f.complement {
        Some(c) => Order::StopLimit(reassembled(f.order, c)),
        None => Order::LimitMarket(f.order),
    }
}

/// The resolution of `f` is over: its fills are recorded and the order it
/// interrupted, if any, goes on.
pub open spec fn finish(m: Matching, books: Books, f: Frame) -> Matching {
    Matching {
        books,
        suspended: if m.suspended.len() == 0 { m.suspended } else { m.suspended.drop_last() },
        current: if m.suspended.len() == 0 { None } else { Some(m.suspended.last()) },
        trades: trade_map_insert(m.trades, reported_order(f), f.fills),
    }
}

/// Whether the best stop order of the book that `f` triggers is triggered now:
/// its trigger price is within reach of `f`, and a stop-loss order moreover
/// needs a resting limit order at its trigger price or beyond.
pub open spec fn stop_triggers(b: Books, f: Frame) -> bool {
    let stops = b.stops(f.buy_side);
    let limits = b.limits(f.buy_side);
    &&& !f.stops_checked
    &&& stops.len() > 0
    &&& priority(f.order) >= signed_price(stops.last().trigger_price, f.order.buy)
    &&& (stops.last().condition == ConditionalType::StopAndReverse || (limits.len() > 0
        && signed_price(stops.last().trigger_price, f.order.buy) <= signed_price(
        limits.last().limit_price.unwrap(),
        f.order.buy,
    )))
}

/// The triggered stop order leaves its book and is resolved before `f` goes on;
/// a stop-and-reverse order trades against the other side's books.
pub open spec fn trigger_step(m: Matching, f: Frame) -> Matching {
    let stops = m.books.stops(f.buy_side);
    let s = stops.last();
    let u = unconditional_part(s);
    Matching {
        books: m.books.with_stops(f.buy_side, stops.drop_last()),
        suspended: m.suspended.push(Frame { stops_checked: true, ..f }),
        current: Some(
            Frame {
                order: u,
                complement: Some(complement_part(s)),
                remaining: u.volume,
                fills: Seq::empty(),
                buy_side: if s.condition == ConditionalType::StopAndReverse {
                    !f.buy_side
                } else {
                    f.buy_side
                },
                stops_checked: false,
            },
        ),
        trades: m.trades,
    }
}

/// What of `f` rests in the book when nothing more is within its reach: the
/// order with the volume it has not traded.
pub open spec fn unfilled_rest(f: Frame) -> UnconditionalOrder {
    UnconditionalOrder { volume: f.remaining, ..f.order }
}

/// `f` trades against the best resting limit order if its price is within
/// reach: all of it if `f` has more volume left (and `f` goes on), or the part
/// that `f` still needs (and `f` is done). If no resting order is within reach,
/// the untraded rest of `f` rests in the other book (a market order only if some
/// resting order was out of its reach, which cannot be) and `f` is done.
pub open spec fn limit_step(m: Matching, f: Frame) -> Matching {
    let limits = m.books.limits(f.buy_side);
    let backlog = m.books.limits(!f.buy_side);
    if limits.len() > 0 {
        let n = limits.last();
        if priority(f.order) >= signed_price(n.limit_price.unwrap(), f.order.buy) {
            if f.remaining > n.volume {
                Matching {
                    books: m.books.with_limits(f.buy_side, limits.drop_last()),
                    current: Some(
                        Frame {
                            remaining: (f.remaining - n.volume) as u32,
                            fills: f.fills.push(filled(n)),
                            stops_checked: false,
                            ..f
                        },
                    ),
                    ..m
                }
            } else if f.remaining == n.volume {
                finish(
                    m,
                    m.books.with_limits(f.buy_side, limits.drop_last()),
                    Frame { fills: f.fills.push(filled(n)), ..f },
                )
            } else {
                let rest = UnconditionalOrder { volume: (n.volume - f.remaining) as u32, ..n };
                let part = UnconditionalOrder { volume: f.remaining, ..n };
                finish(
                    m,
                    m.books.with_limits(f.buy_side, requeued(limits.drop_last(), rest)),
                    Frame { fills: f.fills.push(filled(part)), ..f },
                )
            }
        } else {
            finish(m, m.books.with_limits(!f.buy_side, queued(backlog, unfilled_rest(f))), f)
        }
    } else if f.order.limit_price is Some {
        finish(m, m.books.with_limits(!f.buy_side, queued(backlog, unfilled_rest(f))), f)
    } else {
        finish(m, m.books, f)
    }
}

/// One step of a resolution.
pub open spec fn step(m: Matching) -> Matching {
    match m.current {
        Some(f) => if stop_triggers(m.books, f) {
            trigger_step(m, f)
        } else {
            limit_step(m, f)
        },
        None => m,
    }
}

/// Every step takes a stop order out of its books, or leaves them and finishes
/// an order, or leaves both and takes a limit order out of its books.
pub proof fn lemma_step_decreases(m: Matching)
    requires
        m.current is Some,
    ensures
        step(m).books.stop_count() < m.books.stop_count() || (step(m).books.stop_count()
            == m.books.stop_count() && (step(m).depth() < m.depth() || (step(m).depth()
            == m.depth() && step(m).books.limit_count() < m.books.limit_count()))),
{
    let f = m.current->0;
    lemma_slots_in_range(m.books.limits(!f.buy_side), f.order);
    if !stop_triggers(m.books, f) {
        let limits = m.books.limits(f.buy_side);
        if limits.len() > 0 {
            let n = limits.last();
            if priority(f.order) >= signed_price(n.limit_price.unwrap(), f.order.buy)
                && f.remaining < n.volume {
                let rest = UnconditionalOrder { volume: (n.volume - f.remaining) as u32, ..n };
                lemma_slots_in_range(limits.drop_last(), rest);
            }
        }
    }
}

/// The state reached when no order is left to resolve.
pub open spec fn run(m: Matching) -> Matching
    decreases m.books.stop_count(), m.depth(), m.books.limit_count(),
{
    if m.current is None {
        m
    } else {
        proof {
            lemma_step_decreases(m);
        }
        run(step(m))
    }
}


proof fn lemma_priced_drop_last(s: Seq<UnconditionalOrder>)
    requires
        all_priced(s),
        s.len() > 0,
    ensures
        all_priced(s.drop_last()),
{
    assert forall|i: int| 0 <= i < s.drop_last().len() implies (#[trigger] s.drop_last()[i]).limit_price is Some by {
        assert(s.drop_last()[i] == s[i]);
    }
}

proof fn lemma_priced_insert(s: Seq<UnconditionalOrder>, x: UnconditionalOrder)
    requires
        all_priced(s),
        sorted_by_rank(s),
        x.limit_price is Some,
    ensures
        all_priced(queued(s, x)),
        all_priced(requeued(s, x)),
        sorted_by_rank(queued(s, x)),
        sorted_by_rank(requeued(s, x)),
{
    lemma_slots_in_range(s, x);
    lemma_queued_sorted(s, x);
    lemma_requeued_sorted(s, x);
    assert forall|i: int| 0 <= i < queued(s, x).len() implies (#[trigger] queued(s, x)[i]).limit_price is Some by {
        if queued(s, x)[i] != x {
            let j = choose|j: int| 0 <= j < s.len() && s[j] == queued(s, x)[i];
            assert(s[j].limit_price is Some);
        }
    }
    assert forall|i: int| 0 <= i < requeued(s, x).len() implies (#[trigger] requeued(s, x)[i]).limit_price is Some by {
        if requeued(s, x)[i] != x {
            let j = choose|j: int| 0 <= j < s.len() && s[j] == requeued(s, x)[i];
            assert(s[j].limit_price is Some);
        }
    }
}

pub proof fn lemma_stop_insert(s: Seq<ConditionalOrder>, x: ConditionalOrder, buy: bool)
    requires
        all_on_side(s, buy),
        sorted_by_rank(s),
        x.buy == buy,
    ensures
        all_on_side(queued(s, x), buy),
        sorted_by_rank(queued(s, x)),
{
    lemma_slots_in_range(s, x);
    lemma_queued_sorted(s, x);
    assert forall|i: int| 0 <= i < queued(s, x).len() implies (#[trigger] queued(s, x)[i]).buy == buy by {
        if queued(s, x)[i] != x {
            let j = choose|j: int| 0 <= j < s.len() && s[j] == queued(s, x)[i];
            assert(s[j].buy == buy);
        }
    }
}

proof fn lemma_side_drop_last(s: Seq<ConditionalOrder>, buy: bool)
    requires
        all_on_side(s, buy),
        s.len() > 0,
    ensures
        all_on_side(s.drop_last(), buy),
{
    assert forall|i: int| 0 <= i < s.drop_last().len() implies (#[trigger] s.drop_last()[i]).buy == buy by {
        assert(s.drop_last()[i] == s[i]);
    }
}

/// Recording fills keeps one entry per order.
pub proof fn lemma_trade_map_insert(t: TradeLog, k: Order, v: Seq<UnconditionalView>)
    requires
        distinct_orders(t),
    ensures
        distinct_orders(trade_map_insert(t, k, v)),
        exists|i: int| 0 <= i < trade_map_insert(t, k, v).len() && same_order(#[trigger] trade_map_insert(t, k, v)[i].0, k)
            && trade_map_insert(t, k, v)[i].1 == v,
{
    let r = trade_map_insert(t, k, v);
    if exists|i: int| 0 <= i < t.len() && same_order(#[trigger] t[i].0, k) {
        let i = choose|i: int| 0 <= i < t.len() && same_order(#[trigger] t[i].0, k);
        assert forall|a: int, b: int| 0 <= a < b < r.len() implies !same_order(#[trigger] r[a].0, #[trigger] r[b].0) by {
            assert(r[a].0 == t[a].0 && r[b].0 == t[b].0);
        }
        assert(same_order(r[i].0, k) && r[i].1 == v);
    } else {
        assert forall|a: int, b: int| 0 <= a < b < r.len() implies !same_order(#[trigger] r[a].0, #[trigger] r[b].0) by {
            if b < t.len() {
                assert(r[a].0 == t[a].0 && r[b].0 == t[b].0);
            } else {
                assert(r[a].0 == t[a].0);
                assert(!same_order(t[a].0, k));
            }
        }
        assert(same_order(r[t.len() as int].0, k));
    }
}

/// The state of a resolution that the order book's invariants hold of.
pub open spec fn matching_wf(m: Matching) -> bool {
    m.books.wf() && distinct_orders(m.trades)
}

/// Every step keeps the books sorted, resting limit orders priced, each stop
/// book on its own side, and one log entry per order.
pub proof fn lemma_step_wf(m: Matching)
    requires
        matching_wf(m),
    ensures
        matching_wf(step(m)),
{
    if let Some(f) = m.current {
        let b = m.books;
        let limits = b.limits(f.buy_side);
        let backlog = b.limits(!f.buy_side);
        let stops = b.stops(f.buy_side);
        lemma_trade_map_insert(m.trades, reported_order(f), f.fills);
        if stop_triggers(b, f) {
            lemma_sorted_drop_last(stops);
            lemma_side_drop_last(stops, f.buy_side);
        } else if limits.len() > 0 {
            let n = limits.last();
            assert(n.limit_price is Some);
            lemma_sorted_drop_last(limits);
            lemma_priced_drop_last(limits);
            if priority(f.order) >= signed_price(n.limit_price.unwrap(), f.order.buy) {
                lemma_trade_map_insert(m.trades, reported_order(f), f.fills.push(filled(n)));
                let part = UnconditionalOrder { volume: f.remaining, ..n };
                lemma_trade_map_insert(m.trades, reported_order(f), f.fills.push(filled(part)));
                let rest = UnconditionalOrder { volume: (n.volume - f.remaining) as u32, ..n };
                lemma_priced_insert(limits.drop_last(), rest);
            } else {
                assert(f.order.limit_price is Some);
                lemma_priced_insert(backlog, unfilled_rest(f));
            }
        } else if f.order.limit_price is Some {
            lemma_priced_insert(backlog, unfilled_rest(f));
        }
    }
}

/// Running a resolution to its end keeps the invariants.
pub proof fn lemma_run_wf(m: Matching)
    requires
        matching_wf(m),
    ensures
        matching_wf(run(m)),
        run(m).current is None,
    decreases m.books.stop_count(), m.depth(), m.books.limit_count(),
{
    if m.current is Some {
        lemma_step_decreases(m);
        lemma_step_wf(m);
        lemma_run_wf(step(m));
    }
}

/// The resolution of an incoming unconditional order, on its own side.
pub open spec fn start(b: Books, o: UnconditionalOrder) -> Matching {
    Matching {
        books: b,
        suspended: Seq::empty(),
        current: Some(
            Frame {
                order: o,
                complement: None,
                remaining: o.volume,
                fills: Seq::empty(),
                buy_side: o.buy,
                stops_checked: false,
            },
        ),
        trades: Seq::empty(),
    }
}

/// What the order book becomes, and which trades it reports, when an order comes
/// in: a limit or market order is resolved; a stop order is only placed in the
/// stop book of its side.
pub open spec fn resolve(b: Books, order: Order) -> (Books, TradeLog) {
    match order {
        Order::LimitMarket(o) => {
            let m = run(start(b, o));
            (m.books, m.trades)
        },
        Order::StopLimit(s) => (
            if s.buy {
                Books { stop_buy_orders: queued(b.stop_buy_orders, s), ..b }
            } else {
                Books { stop_sell_orders: queued(b.stop_sell_orders, s), ..b }
            },
            Seq::empty(),
        ),
    }
}

} // verus!
