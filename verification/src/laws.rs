//! What every resolution of an order guarantees.

use vstd::prelude::*;
use crate::order::{
    ConditionalOrder, Order, UnconditionalOrder, UnconditionalView, priority, signed_price,
};
use crate::queue::{
    lemma_slots_in_range, queued, rank_le, requeued, slot_after_equals, slot_before_equals,
    sorted_by_rank, Ranked,
};
use crate::matching::{
    Books, Frame, Matching, TradeLog, distinct_orders, filled, finish, lemma_step_decreases,
    lemma_step_wf, lemma_trade_map_insert, matching_wf, reported_order, resolve, run,
    start, step, stop_triggers, trade_map_insert, trigger_step, all_priced, unfilled_rest, limit_step,
};

verus! {

/// The total volume of a list of fills.
pub open spec fn fill_volume(s: Seq<UnconditionalView>) -> int
    decreases s.len(),
{
    if s.len() == 0 {
        0
    } else {
        fill_volume(s.drop_last()) + s.last().volume
    }
}

/// The volume of an order.
pub open spec fn order_volume(o: Order) -> int {
    match o {
        Order::LimitMarket(u) => u.volume as int,
        Order::StopLimit(s) => s.volume as int,
    }
}

/// A reported fill is marked as filled and carries the price it traded at.
pub open spec fn fill_ok(x: UnconditionalView) -> bool {
    x.filled && x.limit_price is Some
}

/// The fills of an order are reported fills, within the reach of its limit price.
pub open spec fn fills_within_limit(o: UnconditionalOrder, fills: Seq<UnconditionalView>) -> bool {
    forall|i: int| 0 <= i < fills.len() ==> fill_ok(#[trigger] fills[i]) && priority(o) >= signed_price(
        fills[i].limit_price.unwrap(),
        o.buy,
    )
}

spec fn frame_ok(f: Frame) -> bool {
    &&& fills_within_limit(f.order, f.fills)
    &&& fill_volume(f.fills) + f.remaining == f.order.volume
}

spec fn entry_ok(e: (Order, Seq<UnconditionalView>)) -> bool {
    &&& forall|i: int| 0 <= i < e.1.len() ==> fill_ok(#[trigger] e.1[i])
    &&& fill_volume(e.1) <= order_volume(e.0)
}

spec fn bottom(m: Matching) -> Frame {
    if m.suspended.len() > 0 { m.suspended[0] } else { m.current->0 }
}

spec fn frames_ok(m: Matching) -> bool {
    &&& forall|i: int| 0 <= i < m.suspended.len() ==> frame_ok(#[trigger] m.suspended[i])
    &&& m.current is Some ==> frame_ok(m.current->0)
}

/// What holds throughout the resolution of the incoming order `o`.
pub closed spec fn resolution_inv(m: Matching, o: UnconditionalOrder) -> bool {
    &&& matching_wf(m)
    &&& frames_ok(m)
    &&& forall|i: int| 0 <= i < m.trades.len() ==> entry_ok(#[trigger] m.trades[i])
    &&& if m.depth() > 0 {
        &&& m.suspended.len() > 0 ==> m.current is Some
        &&& bottom(m).order == o
        &&& bottom(m).complement is None
        &&& forall|i: int| 1 <= i < m.suspended.len() ==> (#[trigger] m.suspended[i]).complement is Some
        &&& m.suspended.len() > 0 ==> m.current->0.complement is Some
        &&& forall|i: int| 0 <= i < m.trades.len() ==> (#[trigger] m.trades[i]).0 is StopLimit
    } else {
        &&& m.trades.len() > 0
        &&& m.trades.last().0 == Order::LimitMarket(o)
        &&& fills_within_limit(o, m.trades.last().1)
        &&& fill_volume(m.trades.last().1) <= o.volume
        &&& forall|i: int| 0 <= i < m.trades.len() - 1 ==> (#[trigger] m.trades[i]).0 is StopLimit
    }
}

proof fn lemma_fill_volume_push(s: Seq<UnconditionalView>, x: UnconditionalView)
    ensures
        fill_volume(s.push(x)) == fill_volume(s) + x.volume,
{
    assert(s.push(x).drop_last() =~= s);
}

proof fn lemma_fills_push(o: UnconditionalOrder, s: Seq<UnconditionalView>, x: UnconditionalView)
    requires
        fills_within_limit(o, s),
        fill_ok(x),
        priority(o) >= signed_price(x.limit_price.unwrap(), o.buy),
    ensures
        fills_within_limit(o, s.push(x)),
{
    assert forall|i: int| 0 <= i < s.push(x).len() implies fill_ok(#[trigger] s.push(x)[i]) && priority(o)
        >= signed_price(s.push(x)[i].limit_price.unwrap(), o.buy) by {
        if i < s.len() {
            assert(s.push(x)[i] == s[i]);
        }
    }
}

/// Recording the fills of a finished frame keeps every entry within its volume.
proof fn lemma_insert_entries_ok(t: TradeLog, f: Frame)
    requires
        distinct_orders(t),
        forall|i: int| 0 <= i < t.len() ==> entry_ok(#[trigger] t[i]),
        fills_within_limit(f.order, f.fills),
        fill_volume(f.fills) <= f.order.volume,
    ensures
        forall|i: int| 0 <= i < trade_map_insert(t, reported_order(f), f.fills).len() ==> entry_ok(
            #[trigger] trade_map_insert(t, reported_order(f), f.fills)[i],
        ),
{
    let k = reported_order(f);
    let r = trade_map_insert(t, k, f.fills);
    assert(order_volume(k) == f.order.volume);
    assert forall|i: int| 0 <= i < r.len() implies entry_ok(#[trigger] r[i]) by {
        if i < t.len() && r[i] == t[i] {
        } else {
            assert(r[i].1 == f.fills);
            assert(crate::order::same_order(r[i].0, k));
            assert(order_volume(r[i].0) == order_volume(k));
            assert forall|j: int| 0 <= j < r[i].1.len() implies fill_ok(#[trigger] r[i].1[j]) by {
                assert(fill_ok(f.fills[j]));
            }
        }
    }
}

/// Every step keeps the invariant of the resolution of `o`.
pub proof fn lemma_step_inv(m: Matching, o: UnconditionalOrder)
    requires
        resolution_inv(m, o),
        m.current is Some,
    ensures
        resolution_inv(step(m), o),
{
    lemma_step_wf(m);
    let f = m.current->0;
    let b = m.books;
    let n2 = step(m);
    assert(frame_ok(f));
    if stop_triggers(b, f) {
        let t = trigger_step(m, f);
        assert(frame_ok(Frame { stops_checked: true, ..f }));
        assert(frame_ok(t.current->0));
        assert forall|i: int| 0 <= i < t.suspended.len() implies frame_ok(#[trigger] t.suspended[i]) by {
            if i < m.suspended.len() {
                assert(t.suspended[i] == m.suspended[i]);
            }
        }
        if m.suspended.len() > 0 {
            assert(t.suspended[0] == m.suspended[0]);
            assert forall|i: int| 1 <= i < t.suspended.len() implies (#[trigger] t.suspended[i]).complement is Some by {
                if i < m.suspended.len() {
                    assert(t.suspended[i] == m.suspended[i]);
                }
            }
        }
        assert(resolution_inv(t, o));
    } else {
        let limits = b.limits(f.buy_side);
        lemma_trade_map_insert(m.trades, reported_order(f), f.fills);
        if limits.len() > 0 {
            let n = limits.last();
            assert(n.limit_price is Some);
            if priority(f.order) >= signed_price(n.limit_price.unwrap(), f.order.buy) {
                if f.remaining > n.volume {
                    lemma_fill_volume_push(f.fills, filled(n));
                    lemma_fills_push(f.order, f.fills, filled(n));
                    assert(frame_ok(n2.current->0));
                    assert(resolution_inv(n2, o));
                } else {
                    let part = if f.remaining == n.volume { n } else { UnconditionalOrder { volume: f.remaining, ..n } };
                    let g = Frame { fills: f.fills.push(filled(part)), ..f };
                    lemma_fill_volume_push(f.fills, filled(part));
                    lemma_fills_push(f.order, f.fills, filled(part));
                    lemma_trade_map_insert(m.trades, reported_order(g), g.fills);
                    lemma_insert_entries_ok(m.trades, g);
                    assert(n2 == finish(m, n2.books, g));
                    self::lemma_finish_inv(m, n2.books, g, o);
                }
            } else {
                lemma_insert_entries_ok(m.trades, f);
                self::lemma_finish_inv(m, n2.books, f, o);
            }
        } else {
            lemma_insert_entries_ok(m.trades, f);
            self::lemma_finish_inv(m, n2.books, f, o);
        }
    }
}

/// Finishing the current frame `g` (the current frame with more fills) keeps the invariant.
proof fn lemma_finish_inv(m: Matching, books: Books, g: Frame, o: UnconditionalOrder)
    requires
        resolution_inv(m, o),
        m.current is Some,
        g.order == m.current->0.order,
        g.complement == m.current->0.complement,
        fills_within_limit(g.order, g.fills),
        fill_volume(g.fills) <= g.order.volume,
        books.wf(),
        distinct_orders(trade_map_insert(m.trades, reported_order(g), g.fills)),
        forall|i: int| 0 <= i < trade_map_insert(m.trades, reported_order(g), g.fills).len() ==> entry_ok(
            #[trigger] trade_map_insert(m.trades, reported_order(g), g.fills)[i],
        ),
    ensures
        resolution_inv(finish(m, books, g), o),
{
    let r = finish(m, books, g);
    let t = m.trades;
    let k = reported_order(g);
    if m.suspended.len() > 0 {
        assert(g.complement is Some);
        assert(k is StopLimit);
        assert forall|i: int| 0 <= i < r.suspended.len() implies frame_ok(#[trigger] r.suspended[i]) by {
            assert(r.suspended[i] == m.suspended[i]);
        }
        assert(frame_ok(m.suspended[m.suspended.len() - 1]));
        if r.suspended.len() > 0 {
            assert(r.suspended[0] == m.suspended[0]);
            assert forall|i: int| 1 <= i < r.suspended.len() implies (#[trigger] r.suspended[i]).complement is Some by {
                assert(r.suspended[i] == m.suspended[i]);
            }
            assert(m.suspended.len() > 1);
            assert(r.current->0 == m.suspended[m.suspended.len() - 1]);
        } else {
            assert(r.current->0 == m.suspended[0]);
        }
        assert forall|i: int| 0 <= i < r.trades.len() implies (#[trigger] r.trades[i]).0 is StopLimit by {
            if exists|j: int| 0 <= j < t.len() && crate::order::same_order(#[trigger] t[j].0, k) {
                let j = choose|j: int| 0 <= j < t.len() && crate::order::same_order(#[trigger] t[j].0, k);
                assert(r.trades[i].0 == t[i].0);
            } else if i < t.len() {
                assert(r.trades[i].0 == t[i].0);
            }
        }
        assert(resolution_inv(r, o));
    } else {
        assert(g.order == o && g.complement is None);
        assert(k == Order::LimitMarket(o));
        assert(!exists|j: int| 0 <= j < t.len() && crate::order::same_order(#[trigger] t[j].0, k)) by {
            if exists|j: int| 0 <= j < t.len() && crate::order::same_order(#[trigger] t[j].0, k) {
                let j = choose|j: int| 0 <= j < t.len() && crate::order::same_order(#[trigger] t[j].0, k);
                assert(t[j].0 is StopLimit);
            }
        }
        assert(r.trades == t.push((k, g.fills)));
        assert forall|i: int| 0 <= i < r.trades.len() - 1 implies (#[trigger] r.trades[i]).0 is StopLimit by {
            assert(r.trades[i] == t[i]);
        }
        assert(resolution_inv(r, o));
    }
}


/// A resolution runs to its end keeping the invariant.
pub proof fn lemma_run_keeps_inv(m: Matching, o: UnconditionalOrder)
    requires
        resolution_inv(m, o),
    ensures
        resolution_inv(run(m), o),
        run(m).current is None,
{
    lemma_run_inv(m, o);
}

/// The resolution of `o` starts in a state that the invariant holds of.
pub proof fn lemma_start_inv(b: Books, o: UnconditionalOrder)
    requires
        b.wf(),
    ensures
        resolution_inv(start(b, o), o),
{
    assert(fill_volume(Seq::<UnconditionalView>::empty()) == 0);
}

/// While the incoming order `o` is being resolved it is the bottom of the stack of
/// orders being resolved, every other order there is a triggered stop order, and
/// only stop orders have been reported; once it is done, something is reported.
pub proof fn lemma_resolution_inv_facts(m: Matching, o: UnconditionalOrder)
    requires
        resolution_inv(m, o),
    ensures
        m.books.wf(),
        m.suspended.len() > 0 ==> m.current is Some,
        m.suspended.len() > 0 ==> m.suspended[0].order == o && m.suspended[0].complement is None,
        m.suspended.len() > 0 ==> m.current->0.complement is Some,
        m.suspended.len() == 0 && m.current is Some ==> m.current->0.order == o && m.current->0.complement is None,
        forall|i: int| 1 <= i < m.suspended.len() ==> (#[trigger] m.suspended[i]).complement is Some,
        m.depth() > 0 ==> forall|i: int| 0 <= i < m.trades.len() ==> (#[trigger] m.trades[i]).0 is StopLimit,
        m.depth() == 0 ==> m.trades.len() > 0,
{
}

proof fn lemma_run_inv(m: Matching, o: UnconditionalOrder)
    requires
        resolution_inv(m, o),
    ensures
        resolution_inv(run(m), o),
        run(m).current is None,
    decreases m.books.stop_count(), m.depth(), m.books.limit_count(),
{
    if m.current is Some {
        lemma_step_decreases(m);
        lemma_step_inv(m, o);
        lemma_run_inv(step(m), o);
    } else {
        assert(m.depth() == 0);
    }
}


spec fn stops_prefix(m: Matching, b: Books) -> bool {
    &&& m.books.stop_buy_orders.len() <= b.stop_buy_orders.len()
    &&& m.books.stop_buy_orders == b.stop_buy_orders.take(m.books.stop_buy_orders.len() as int)
    &&& m.books.stop_sell_orders.len() <= b.stop_sell_orders.len()
    &&& m.books.stop_sell_orders == b.stop_sell_orders.take(m.books.stop_sell_orders.len() as int)
}

proof fn lemma_run_stops_prefix(m: Matching, b: Books)
    requires
        stops_prefix(m, b),
    ensures
        stops_prefix(run(m), b),
    decreases m.books.stop_count(), m.depth(), m.books.limit_count(),
{
    if m.current is Some {
        lemma_step_decreases(m);
        let f = m.current->0;
        let n = step(m);
        if stop_triggers(m.books, f) {
            if f.buy_side {
                assert(m.books.stop_buy_orders.drop_last() =~= b.stop_buy_orders.take(m.books.stop_buy_orders.len() - 1));
            } else {
                assert(m.books.stop_sell_orders.drop_last() =~= b.stop_sell_orders.take(m.books.stop_sell_orders.len() - 1));
            }
        }
        assert(stops_prefix(n, b));
        lemma_run_stops_prefix(n, b);
    }
}

/// An incoming limit or market order adds no stop order: the stop orders it
/// triggers leave their books from the front, and the rest stay as they were.
pub proof fn lemma_stop_books_only_shrink(b: Books, o: UnconditionalOrder)
    ensures
        ({
            let after = resolve(b, Order::LimitMarket(o)).0;
            &&& after.stop_buy_orders.len() <= b.stop_buy_orders.len()
            &&& after.stop_buy_orders == b.stop_buy_orders.take(after.stop_buy_orders.len() as int)
            &&& after.stop_sell_orders.len() <= b.stop_sell_orders.len()
            &&& after.stop_sell_orders == b.stop_sell_orders.take(after.stop_sell_orders.len() as int)
        }),
{
    let m = start(b, o);
    assert(b.stop_buy_orders.take(b.stop_buy_orders.len() as int) =~= b.stop_buy_orders);
    assert(b.stop_sell_orders.take(b.stop_sell_orders.len() as int) =~= b.stop_sell_orders);
    lemma_run_stops_prefix(m, b);
}

/// A stop order only joins the stop book of its side: nothing trades, and the
/// limit books and the other stop book stay as they were.
pub proof fn lemma_stop_order_rests(b: Books, s: ConditionalOrder)
    ensures
        resolve(b, Order::StopLimit(s)).1.len() == 0,
        resolve(b, Order::StopLimit(s)).0.limit_buy_orders == b.limit_buy_orders,
        resolve(b, Order::StopLimit(s)).0.limit_sell_orders == b.limit_sell_orders,
        resolve(b, Order::StopLimit(s)).0.stops(s.buy) == queued(b.stops(s.buy), s),
        resolve(b, Order::StopLimit(s)).0.stops(!s.buy) == b.stops(!s.buy),
        resolve(b, Order::StopLimit(s)).0.stops(s.buy).to_multiset() == b.stops(s.buy).to_multiset().insert(s),
{
    lemma_slots_in_range(b.stops(s.buy), s);
    vstd::seq_lib::to_multiset_insert(b.stops(s.buy), crate::queue::slot_before_equals(b.stops(s.buy), s), s);
}

/// An incoming order that triggers no stop order and finds no resting order
/// within the reach of its limit price trades nothing: it rests in the book if
/// it has a limit price, and a market order is dropped. Its report is its own
/// entry with no fills.
pub proof fn lemma_order_out_of_reach_rests(b: Books, o: UnconditionalOrder)
    requires
        !stop_triggers(b, start(b, o).current->0),
        b.limits(o.buy).len() == 0 || priority(o) < signed_price(
            b.limits(o.buy).last().limit_price.unwrap(),
            o.buy,
        ),
    ensures
        resolve(b, Order::LimitMarket(o)).1 == seq![(Order::LimitMarket(o), Seq::<UnconditionalView>::empty())],
        resolve(b, Order::LimitMarket(o)).0 == (if o.limit_price is Some {
            b.with_limits(!o.buy, queued(b.limits(!o.buy), o))
        } else {
            b
        }),
{
    let m = start(b, o);
    let n = step(m);
    assert(n.current is None);
    assert(run(n) == n);
    if b.limits(o.buy).len() > 0 {
        assert(o.limit_price is Some);
    }
    assert(n.books == (if o.limit_price is Some {
        b.with_limits(!o.buy, queued(b.limits(!o.buy), o))
    } else {
        b
    }));
    assert(n.trades =~= seq![(Order::LimitMarket(o), Seq::<UnconditionalView>::empty())]);
}


/// The total volume of a book.
pub open spec fn book_volume(s: Seq<UnconditionalOrder>) -> int
    decreases s.len(),
{
    if s.len() == 0 {
        0
    } else {
        book_volume(s.drop_last()) + s.last().volume
    }
}

/// Whether the price of a resting order is within the reach of an incoming order.
pub open spec fn within_reach(o: UnconditionalOrder, r: UnconditionalOrder) -> bool {
    priority(o) >= signed_price(r.limit_price.unwrap(), o.buy)
}

/// The volume of the orders of a book within the reach of `o`.
pub open spec fn reachable_volume(s: Seq<UnconditionalOrder>, o: UnconditionalOrder) -> int
    decreases s.len(),
{
    if s.len() == 0 {
        0
    } else {
        reachable_volume(s.drop_last(), o) + if within_reach(o, s.last()) {
            s.last().volume as int
        } else {
            0
        }
    }
}

/// Every order of a book is on the other side than `buy`.
pub open spec fn all_opposite(s: Seq<UnconditionalOrder>, buy: bool) -> bool {
    forall|i: int| 0 <= i < s.len() ==> (#[trigger] s[i]).buy == !buy
}

pub open spec fn min(a: int, b: int) -> int {
    if a <= b { a } else { b }
}

proof fn lemma_reachable_nonneg(s: Seq<UnconditionalOrder>, o: UnconditionalOrder)
    ensures
        reachable_volume(s, o) >= 0,
        book_volume(s) >= 0,
    decreases s.len(),
{
    if s.len() > 0 {
        lemma_reachable_nonneg(s.drop_last(), o);
    }
}

/// Inserting an order adds its volume.
proof fn lemma_book_volume_insert(s: Seq<UnconditionalOrder>, i: int, x: UnconditionalOrder)
    requires
        0 <= i <= s.len(),
    ensures
        book_volume(s.insert(i, x)) == book_volume(s) + x.volume,
    decreases s.len(),
{
    if i == s.len() {
        assert(s.insert(i, x).drop_last() =~= s);
    } else {
        assert(s.insert(i, x).drop_last() =~= s.drop_last().insert(i, x));
        lemma_book_volume_insert(s.drop_last(), i, x);
    }
}

proof fn lemma_book_volume_queued(s: Seq<UnconditionalOrder>, x: UnconditionalOrder)
    ensures
        book_volume(queued(s, x)) == book_volume(s) + x.volume,
        book_volume(requeued(s, x)) == book_volume(s) + x.volume,
{
    lemma_slots_in_range(s, x);
    lemma_book_volume_insert(s, slot_before_equals(s, x), x);
    lemma_book_volume_insert(s, slot_after_equals(s, x), x);
}

proof fn lemma_none_within_reach(s: Seq<UnconditionalOrder>, o: UnconditionalOrder)
    requires
        forall|i: int| 0 <= i < s.len() ==> !within_reach(o, #[trigger] s[i]),
    ensures
        reachable_volume(s, o) == 0,
    decreases s.len(),
{
    if s.len() > 0 {
        assert forall|i: int| 0 <= i < s.drop_last().len() implies !within_reach(o, #[trigger] s.drop_last()[i]) by {
            assert(s.drop_last()[i] == s[i]);
        }
        lemma_none_within_reach(s.drop_last(), o);
        assert(!within_reach(o, s[s.len() - 1]));
    }
}

/// In a sorted book of the other side, the best order being out of reach puts
/// every order out of reach.
proof fn lemma_best_out_of_reach(s: Seq<UnconditionalOrder>, o: UnconditionalOrder)
    requires
        sorted_by_rank(s),
        all_priced(s),
        all_opposite(s, o.buy),
        s.len() > 0,
        !within_reach(o, s.last()),
    ensures
        forall|i: int| 0 <= i < s.len() ==> !within_reach(o, #[trigger] s[i]),
        reachable_volume(s, o) == 0,
{
    let l = s.len() - 1;
    assert forall|i: int| 0 <= i < s.len() implies !within_reach(o, #[trigger] s[i]) by {
        if i < l {
            assert(rank_le(s[i].rank(), s[l].rank()));
        }
        assert(s[i].buy == !o.buy && s[l].buy == !o.buy);
        assert(s[i].limit_price is Some && s[l].limit_price is Some);
    }
    lemma_none_within_reach(s, o);
}

/// The conditions under which an incoming order meets no stop order and trades
/// only against orders of the other side.
pub open spec fn plain_matching(b: Books, o: UnconditionalOrder) -> bool {
    &&& b.wf()
    &&& b.stops(o.buy).len() == 0
    &&& all_opposite(b.limits(o.buy), o.buy)
}

/// What resolving `o` in such books gives.
pub open spec fn plain_outcome(b: Books, o: UnconditionalOrder, r: Books, t: TradeLog) -> bool {
    let a0 = b.limits(o.buy);
    let fills = t[0].1;
    let a1 = r.limits(o.buy);
    &&& t.len() == 1
    &&& t[0].0 == Order::LimitMarket(o)
    &&& fills.len() <= a0.len()
    &&& forall|i: int| 0 <= i < fills.len() ==> #[trigger] fills[i] == UnconditionalView {
        volume: fills[i].volume,
        ..filled(a0[a0.len() - 1 - i])
    }
    &&& forall|i: int| 0 <= i < fills.len() - 1 ==> (#[trigger] fills[i]).volume == a0[a0.len() - 1 - i].volume
    &&& fill_volume(fills) == min(o.volume as int, reachable_volume(a0, o))
    &&& fill_volume(fills) < o.volume ==> forall|i: int| 0 <= i < a1.len() ==> !within_reach(o, #[trigger] a1[i])
    &&& book_volume(a1) + fill_volume(fills) == book_volume(a0)
    &&& book_volume(r.limits(!o.buy)) == book_volume(b.limits(!o.buy)) + if o.limit_price is Some {
        o.volume - fill_volume(fills)
    } else {
        0
    }
    &&& r.stop_buy_orders == b.stop_buy_orders
    &&& r.stop_sell_orders == b.stop_sell_orders
}

spec fn plain_inv(m: Matching, b: Books, o: UnconditionalOrder) -> bool {
    let a0 = b.limits(o.buy);
    let f = m.current->0;
    let j = a0.len() - f.fills.len();
    let cur = a0.take(j);
    &&& m.current is Some
    &&& m.suspended.len() == 0
    &&& m.trades.len() == 0
    &&& f.order == o
    &&& f.complement is None
    &&& f.buy_side == o.buy
    &&& f.fills.len() <= a0.len()
    &&& m.books == b.with_limits(o.buy, cur)
    &&& forall|i: int| 0 <= i < f.fills.len() ==> #[trigger] f.fills[i] == filled(a0[a0.len() - 1 - i])
    &&& fill_volume(f.fills) + f.remaining == o.volume
    &&& fill_volume(f.fills) + book_volume(cur) == book_volume(a0)
    &&& fill_volume(f.fills) + reachable_volume(cur, o) == reachable_volume(a0, o)
}

proof fn lemma_plain_run(b: Books, o: UnconditionalOrder, m: Matching)
    requires
        plain_matching(b, o),
        plain_inv(m, b, o),
    ensures
        plain_outcome(b, o, run(m).books, run(m).trades),
    decreases m.books.stop_count(), m.depth(), m.books.limit_count(),
{
    let s = o.buy;
    let a0 = b.limits(s);
    let f = m.current->0;
    let k = f.fills.len();
    let j = a0.len() - k;
    let cur = a0.take(j);
    let backlog = b.limits(!s);
    assert(m.books.limits(s) == cur);
    assert(m.books.limits(!s) == backlog);
    assert(m.books.stops(s) == b.stops(s));
    assert(!stop_triggers(m.books, f));
    let m2 = step(m);
    assert(m2 == limit_step(m, f));
    lemma_step_decreases(m);
    lemma_reachable_nonneg(cur, o);
    assert(sorted_by_rank(cur) && all_priced(cur) && all_opposite(cur, s)) by {
        assert forall|x: int, y: int| 0 <= x < y < cur.len() implies rank_le(#[trigger] cur[x].rank(), #[trigger] cur[y].rank()) by {
            assert(cur[x] == a0[x] && cur[y] == a0[y]);
        }
        assert forall|x: int| 0 <= x < cur.len() implies (#[trigger] cur[x]).limit_price is Some && cur[x].buy == !s by {
            assert(cur[x] == a0[x]);
        }
    }
    if cur.len() > 0 {
        let n = cur.last();
        assert(n == a0[j - 1]);
        let rest_books = cur.drop_last();
        assert(rest_books =~= a0.take(j - 1));
        assert(book_volume(cur) == book_volume(rest_books) + n.volume);
        assert(reachable_volume(cur, o) == reachable_volume(rest_books, o) + if within_reach(o, n) { n.volume as int } else { 0 });
        lemma_reachable_nonneg(rest_books, o);
        if within_reach(o, n) {
            let g_fills_full = f.fills.push(filled(n));
            lemma_fill_volume_push(f.fills, filled(n));
            if f.remaining > n.volume {
                let f2 = m2.current->0;
                assert(f2.fills == g_fills_full);
                assert(m2.books =~~= b.with_limits(s, a0.take(a0.len() - f2.fills.len())));
                assert forall|i: int| 0 <= i < f2.fills.len() implies #[trigger] f2.fills[i] == filled(a0[a0.len() - 1 - i]) by {
                    if i < k {
                        assert(f2.fills[i] == f.fills[i]);
                    }
                }
                assert(plain_inv(m2, b, o));
                lemma_plain_run(b, o, m2);
            } else {
                let part = if f.remaining == n.volume { n } else { UnconditionalOrder { volume: f.remaining, ..n } };
                let fills = f.fills.push(filled(part));
                lemma_fill_volume_push(f.fills, filled(part));
                assert(m2.current is None);
                assert(run(m2) == m2);
                assert(m2.trades =~= seq![(Order::LimitMarket(o), fills)]);
                assert forall|i: int| 0 <= i < fills.len() implies #[trigger] fills[i] == UnconditionalView {
                    volume: fills[i].volume,
                    ..filled(a0[a0.len() - 1 - i])
                } by {
                    if i < k {
                        assert(fills[i] == f.fills[i]);
                    }
                }
                assert forall|i: int| 0 <= i < fills.len() - 1 implies (#[trigger] fills[i]).volume == a0[a0.len() - 1 - i].volume by {
                    assert(fills[i] == f.fills[i]);
                }
                if f.remaining < n.volume {
                    let rest = UnconditionalOrder { volume: (n.volume - f.remaining) as u32, ..n };
                    lemma_book_volume_queued(rest_books, rest);
                }
                assert(plain_outcome(b, o, m2.books, m2.trades));
            }
        } else {
            lemma_best_out_of_reach(cur, o);
            lemma_book_volume_queued(backlog, unfilled_rest(f));
            assert(n.limit_price is Some);
            if o.limit_price is None {
                assert(priority(o) == i64::MAX as int);
                assert(signed_price(n.limit_price.unwrap(), o.buy) < 0x1_0000_0000);
                assert(within_reach(o, n));
            }
            assert(m2.current is None);
            assert(run(m2) == m2);
            assert(m2.trades =~= seq![(Order::LimitMarket(o), f.fills)]);
            assert forall|i: int| 0 <= i < f.fills.len() - 1 implies (#[trigger] f.fills[i]).volume == a0[a0.len() - 1 - i].volume by {
                assert(f.fills[i] == filled(a0[a0.len() - 1 - i]));
            }
            assert(plain_outcome(b, o, m2.books, m2.trades));
        }
    } else {
        lemma_book_volume_queued(backlog, unfilled_rest(f));
        assert(m2.current is None);
        assert(run(m2) == m2);
        assert(m2.trades =~= seq![(Order::LimitMarket(o), f.fills)]);
        assert forall|i: int| 0 <= i < f.fills.len() - 1 implies (#[trigger] f.fills[i]).volume == a0[a0.len() - 1 - i].volume by {
            assert(f.fills[i] == filled(a0[a0.len() - 1 - i]));
        }
        assert(plain_outcome(b, o, m2.books, m2.trades));
    }
}

/// Where no stop order of its side waits and the book it trades against holds
/// orders of the other side only, an incoming order trades against the best
/// resting orders first: its fills are the best orders of the book, best first,
/// each in full but the last. It trades the lesser of its volume and the volume
/// within its reach, and passes over no order within its reach unless it is
/// completely filled. Volume is conserved: what it trades leaves the book it
/// trades against, and what it does not trade (if it has a limit price) joins
/// the other book.
pub proof fn lemma_plain_limit_matching(b: Books, o: UnconditionalOrder)
    requires
        plain_matching(b, o),
    ensures
        plain_outcome(b, o, resolve(b, Order::LimitMarket(o)).0, resolve(b, Order::LimitMarket(o)).1),
{
    let m0 = start(b, o);
    let a0 = b.limits(o.buy);
    assert(a0.take(a0.len() as int) =~= a0);
    assert(b.with_limits(o.buy, a0) =~~= b);
    assert(fill_volume(Seq::<UnconditionalView>::empty()) == 0);
    assert(plain_inv(m0, b, o));
    lemma_plain_run(b, o, m0);
}

/// The report of an incoming limit or market order ends with the order's own
/// entry, preceded only by entries for the stop orders it triggered. Every
/// reported fill is marked as filled and carries its price; the incoming order
/// never trades beyond its limit price, nor more than its volume; and no stop
/// order is reported with more fill volume than it has.
pub proof fn lemma_incoming_order_report(b: Books, o: UnconditionalOrder)
    requires
        b.wf(),
    ensures
        ({
            let t = resolve(b, Order::LimitMarket(o)).1;
            &&& t.len() > 0
            &&& t.last().0 == Order::LimitMarket(o)
            &&& fills_within_limit(o, t.last().1)
            &&& fill_volume(t.last().1) <= o.volume
            &&& forall|i: int| 0 <= i < t.len() - 1 ==> (#[trigger] t[i]).0 is StopLimit
            &&& forall|i: int, j: int| 0 <= i < t.len() && 0 <= j < t[i].1.len() ==> fill_ok(#[trigger] t[i].1[j])
            &&& forall|i: int| 0 <= i < t.len() ==> fill_volume(#[trigger] t[i].1) <= order_volume(t[i].0)
            &&& distinct_orders(t)
        }),
{
    let m = start(b, o);
    assert(fill_volume(Seq::<UnconditionalView>::empty()) == 0);
    assert(resolution_inv(m, o));
    lemma_run_inv(m, o);
    let t = run(m).trades;
    assert forall|i: int, j: int| 0 <= i < t.len() && 0 <= j < t[i].1.len() implies fill_ok(#[trigger] t[i].1[j]) by {
        assert(entry_ok(t[i]));
    }
    assert forall|i: int| 0 <= i < t.len() implies fill_volume(#[trigger] t[i].1) <= order_volume(t[i].0) by {
        assert(entry_ok(t[i]));
    }
}

} // verus!
