//! How resolutions relate to one another, and where resting orders come from.

use vstd::prelude::*;
use crate::order::{
    ConditionalOrder, ConditionalType, Order, UnconditionalOrder, UnconditionalView, priority,
    same_order, signed_price, unconditional_part,
};
use crate::queue::{lemma_slots_in_range, queued, requeued};
use crate::laws::{lemma_resolution_inv_facts, lemma_start_inv, lemma_step_inv, resolution_inv};
use crate::matching::{
    Books, Frame, Matching, TradeLog, filled, finish, lemma_step_decreases, limit_step, resolve,
    run, start, step, stop_triggers, trade_map_insert, trigger_step, unfilled_rest,
};

verus! {

/// A frame with its report key left out: whether it is a triggered stop order.
pub open spec fn without_complement(f: Frame) -> Frame {
    Frame { complement: None, ..f }
}

/// Two states of a resolution that agree on the books and on the orders left to
/// resolve, but for which of those orders are triggered stop orders, and that may
/// differ in what they reported so far.
pub open spec fn alike_but_reports(m1: Matching, m2: Matching) -> bool {
    &&& m1.books == m2.books
    &&& m1.suspended.len() == m2.suspended.len()
    &&& forall|i: int| 0 <= i < m1.suspended.len() ==> without_complement(#[trigger] m1.suspended[i])
        == without_complement(m2.suspended[i])
    &&& (m1.current is Some <==> m2.current is Some)
    &&& m1.current is Some ==> without_complement(m1.current->0) == without_complement(m2.current->0)
}

proof fn lemma_finish_alike(m1: Matching, m2: Matching, books: Books, f1: Frame, f2: Frame)
    requires
        alike_but_reports(m1, m2),
        without_complement(f1) == without_complement(f2),
    ensures
        alike_but_reports(finish(m1, books, f1), finish(m2, books, f2)),
{
    let r1 = finish(m1, books, f1);
    let r2 = finish(m2, books, f2);
    if m1.suspended.len() > 0 {
        let k = m1.suspended.len() - 1;
        assert(without_complement(m1.suspended[k]) == without_complement(m2.suspended[k]));
        assert forall|i: int| 0 <= i < r1.suspended.len() implies without_complement(#[trigger] r1.suspended[i])
            == without_complement(r2.suspended[i]) by {
            assert(r1.suspended[i] == m1.suspended[i] && r2.suspended[i] == m2.suspended[i]);
        }
    }
}

/// One step keeps two resolutions alike but for reports.
proof fn lemma_step_alike(m1: Matching, m2: Matching)
    requires
        alike_but_reports(m1, m2),
    ensures
        alike_but_reports(step(m1), step(m2)),
{
    if m1.current is Some {
        let f1 = m1.current->0;
        let f2 = m2.current->0;
        let b = m1.books;
        assert(f1.order == f2.order && f1.remaining == f2.remaining && f1.fills == f2.fills
            && f1.buy_side == f2.buy_side && f1.stops_checked == f2.stops_checked);
        assert(stop_triggers(b, f1) == stop_triggers(b, f2));
        if stop_triggers(b, f1) {
            let t1 = trigger_step(m1, f1);
            let t2 = trigger_step(m2, f2);
            assert forall|i: int| 0 <= i < t1.suspended.len() implies without_complement(#[trigger] t1.suspended[i])
                == without_complement(t2.suspended[i]) by {
                if i < m1.suspended.len() {
                    assert(t1.suspended[i] == m1.suspended[i] && t2.suspended[i] == m2.suspended[i]);
                }
            }
            assert(alike_but_reports(t1, t2));
        } else {
            let limits = b.limits(f1.buy_side);
            let backlog = b.limits(!f1.buy_side);
            assert(unfilled_rest(f1) == unfilled_rest(f2));
            if limits.len() > 0 {
                let n = limits.last();
                if f1.remaining < n.volume {
                    let part = UnconditionalOrder { volume: f1.remaining, ..n };
                    let rest = UnconditionalOrder { volume: (n.volume - f1.remaining) as u32, ..n };
                    lemma_finish_alike(
                        m1,
                        m2,
                        b.with_limits(f1.buy_side, requeued(limits.drop_last(), rest)),
                        Frame { fills: f1.fills.push(crate::matching::filled(part)), ..f1 },
                        Frame { fills: f2.fills.push(crate::matching::filled(part)), ..f2 },
                    );
                } else if f1.remaining == n.volume {
                    lemma_finish_alike(
                        m1,
                        m2,
                        b.with_limits(f1.buy_side, limits.drop_last()),
                        Frame { fills: f1.fills.push(crate::matching::filled(n)), ..f1 },
                        Frame { fills: f2.fills.push(crate::matching::filled(n)), ..f2 },
                    );
                }
                lemma_finish_alike(m1, m2, b.with_limits(!f1.buy_side, queued(backlog, unfilled_rest(f1))), f1, f2);
            } else {
                lemma_finish_alike(m1, m2, b.with_limits(!f1.buy_side, queued(backlog, unfilled_rest(f1))), f1, f2);
                lemma_finish_alike(m1, m2, b, f1, f2);
            }
            assert(alike_but_reports(limit_step(m1, f1), limit_step(m2, f2)));
        }
    }
}

/// How a resolution moves orders in, out of and between the books does not
/// depend on which of the orders being resolved are triggered stop orders, nor on
/// what was reported so far: two states alike up to those end alike, with the
/// same books.
pub proof fn lemma_run_alike(m1: Matching, m2: Matching)
    requires
        alike_but_reports(m1, m2),
    ensures
        alike_but_reports(run(m1), run(m2)),
        run(m1).books == run(m2).books,
    decreases m1.books.stop_count(), m1.depth(), m1.books.limit_count(),
{
    if m1.current is Some {
        lemma_step_decreases(m1);
        lemma_step_alike(m1, m2);
        lemma_run_alike(step(m1), step(m2));
    }
}

/// `r` is `q` with at most its volume.
pub open spec fn derived_from(r: UnconditionalOrder, q: UnconditionalOrder) -> bool {
    r == (UnconditionalOrder { volume: r.volume, ..q }) && r.volume <= q.volume
}

/// Where a resting order after resolving `o` in `b` can come from: an order that
/// rested in `b`, the incoming order, or what a stop order of `b` trades as — in
/// each case with nothing changed but a smaller or equal volume.
pub open spec fn has_origin(b: Books, o: UnconditionalOrder, r: UnconditionalOrder) -> bool {
    ||| exists|i: int| 0 <= i < b.limit_buy_orders.len() && derived_from(r, #[trigger] b.limit_buy_orders[i])
    ||| exists|i: int| 0 <= i < b.limit_sell_orders.len() && derived_from(r, #[trigger] b.limit_sell_orders[i])
    ||| derived_from(r, o)
    ||| exists|i: int| 0 <= i < b.stop_buy_orders.len() && derived_from(r, unconditional_part(#[trigger] b.stop_buy_orders[i]))
    ||| exists|i: int| 0 <= i < b.stop_sell_orders.len() && derived_from(r, unconditional_part(#[trigger] b.stop_sell_orders[i]))
}

spec fn order_origin(b: Books, o: UnconditionalOrder, u: UnconditionalOrder) -> bool {
    ||| u == o
    ||| exists|i: int| 0 <= i < b.stop_buy_orders.len() && u == unconditional_part(#[trigger] b.stop_buy_orders[i])
    ||| exists|i: int| 0 <= i < b.stop_sell_orders.len() && u == unconditional_part(#[trigger] b.stop_sell_orders[i])
}

spec fn frame_origin(b: Books, o: UnconditionalOrder, f: Frame) -> bool {
    order_origin(b, o, f.order) && f.remaining <= f.order.volume
}

spec fn book_origins(b: Books, o: UnconditionalOrder, s: Seq<UnconditionalOrder>) -> bool {
    forall|i: int| 0 <= i < s.len() ==> has_origin(b, o, #[trigger] s[i])
}

spec fn origin_inv(m: Matching, b: Books, o: UnconditionalOrder) -> bool {
    &&& book_origins(b, o, m.books.limit_buy_orders)
    &&& book_origins(b, o, m.books.limit_sell_orders)
    &&& m.books.stop_buy_orders.len() <= b.stop_buy_orders.len()
    &&& m.books.stop_buy_orders == b.stop_buy_orders.take(m.books.stop_buy_orders.len() as int)
    &&& m.books.stop_sell_orders.len() <= b.stop_sell_orders.len()
    &&& m.books.stop_sell_orders == b.stop_sell_orders.take(m.books.stop_sell_orders.len() as int)
    &&& forall|i: int| 0 <= i < m.suspended.len() ==> frame_origin(b, o, #[trigger] m.suspended[i])
    &&& m.current is Some ==> frame_origin(b, o, m.current->0)
}

proof fn lemma_derived_trans(b: Books, o: UnconditionalOrder, r: UnconditionalOrder, q: UnconditionalOrder)
    requires
        has_origin(b, o, q),
        derived_from(r, q),
    ensures
        has_origin(b, o, r),
{
    if exists|i: int| 0 <= i < b.limit_buy_orders.len() && derived_from(q, #[trigger] b.limit_buy_orders[i]) {
        let i = choose|i: int| 0 <= i < b.limit_buy_orders.len() && derived_from(q, #[trigger] b.limit_buy_orders[i]);
        assert(derived_from(r, b.limit_buy_orders[i]));
    } else if exists|i: int| 0 <= i < b.limit_sell_orders.len() && derived_from(q, #[trigger] b.limit_sell_orders[i]) {
        let i = choose|i: int| 0 <= i < b.limit_sell_orders.len() && derived_from(q, #[trigger] b.limit_sell_orders[i]);
        assert(derived_from(r, b.limit_sell_orders[i]));
    } else if derived_from(q, o) {
        assert(derived_from(r, o));
    } else if exists|i: int| 0 <= i < b.stop_buy_orders.len() && derived_from(q, unconditional_part(#[trigger] b.stop_buy_orders[i])) {
        let i = choose|i: int| 0 <= i < b.stop_buy_orders.len() && derived_from(q, unconditional_part(#[trigger] b.stop_buy_orders[i]));
        assert(derived_from(r, unconditional_part(b.stop_buy_orders[i])));
    } else {
        let i = choose|i: int| 0 <= i < b.stop_sell_orders.len() && derived_from(q, unconditional_part(#[trigger] b.stop_sell_orders[i]));
        assert(derived_from(r, unconditional_part(b.stop_sell_orders[i])));
    }
}

proof fn lemma_drop_last_origins(b: Books, o: UnconditionalOrder, s: Seq<UnconditionalOrder>)
    requires
        book_origins(b, o, s),
        s.len() > 0,
    ensures
        book_origins(b, o, s.drop_last()),
        has_origin(b, o, s.last()),
{
    assert forall|i: int| 0 <= i < s.drop_last().len() implies has_origin(b, o, #[trigger] s.drop_last()[i]) by {
        assert(s.drop_last()[i] == s[i]);
    }
}

proof fn lemma_insert_origins(b: Books, o: UnconditionalOrder, s: Seq<UnconditionalOrder>, x: UnconditionalOrder)
    requires
        book_origins(b, o, s),
        has_origin(b, o, x),
    ensures
        book_origins(b, o, queued(s, x)),
        book_origins(b, o, requeued(s, x)),
{
    lemma_slots_in_range(s, x);
    assert forall|i: int| 0 <= i < queued(s, x).len() implies has_origin(b, o, #[trigger] queued(s, x)[i]) by {
        if queued(s, x)[i] != x {
            let j = choose|j: int| 0 <= j < s.len() && s[j] == queued(s, x)[i];
            assert(has_origin(b, o, s[j]));
        }
    }
    assert forall|i: int| 0 <= i < requeued(s, x).len() implies has_origin(b, o, #[trigger] requeued(s, x)[i]) by {
        if requeued(s, x)[i] != x {
            let j = choose|j: int| 0 <= j < s.len() && s[j] == requeued(s, x)[i];
            assert(has_origin(b, o, s[j]));
        }
    }
}

proof fn lemma_frame_rest_origin(b: Books, o: UnconditionalOrder, f: Frame)
    requires
        frame_origin(b, o, f),
    ensures
        has_origin(b, o, unfilled_rest(f)),
{
    let r = unfilled_rest(f);
    if f.order == o {
        assert(derived_from(r, o));
    } else if exists|i: int| 0 <= i < b.stop_buy_orders.len() && f.order == unconditional_part(#[trigger] b.stop_buy_orders[i]) {
        let i = choose|i: int| 0 <= i < b.stop_buy_orders.len() && f.order == unconditional_part(#[trigger] b.stop_buy_orders[i]);
        assert(derived_from(r, unconditional_part(b.stop_buy_orders[i])));
    } else {
        let i = choose|i: int| 0 <= i < b.stop_sell_orders.len() && f.order == unconditional_part(#[trigger] b.stop_sell_orders[i]);
        assert(derived_from(r, unconditional_part(b.stop_sell_orders[i])));
    }
}

/// Origins of the books after `books` replaces the limit book of one side.
proof fn lemma_with_limits_origins(b: Books, o: UnconditionalOrder, m: Matching, side: bool, s: Seq<UnconditionalOrder>)
    requires
        origin_inv(m, b, o),
        book_origins(b, o, s),
    ensures
        book_origins(b, o, m.books.with_limits(side, s).limit_buy_orders),
        book_origins(b, o, m.books.with_limits(side, s).limit_sell_orders),
{
}

proof fn lemma_step_origins(m: Matching, b: Books, o: UnconditionalOrder)
    requires
        origin_inv(m, b, o),
        m.current is Some,
    ensures
        origin_inv(step(m), b, o),
{
    let f = m.current->0;
    let bk = m.books;
    let side = f.buy_side;
    let limits = bk.limits(side);
    let backlog = bk.limits(!side);
    let n2 = step(m);
    assert(book_origins(b, o, limits) && book_origins(b, o, backlog));
    if stop_triggers(bk, f) {
        let stops = bk.stops(side);
        let s = stops.last();
        let k = stops.len() - 1;
        if side {
            assert(stops[k] == b.stop_buy_orders[k]);
            assert(stops.drop_last() =~= b.stop_buy_orders.take(k));
        } else {
            assert(stops[k] == b.stop_sell_orders[k]);
            assert(stops.drop_last() =~= b.stop_sell_orders.take(k));
        }
        assert(order_origin(b, o, unconditional_part(s)));
        assert forall|i: int| 0 <= i < n2.suspended.len() implies frame_origin(b, o, #[trigger] n2.suspended[i]) by {
            if i < m.suspended.len() {
                assert(n2.suspended[i] == m.suspended[i]);
            }
        }
        assert(origin_inv(n2, b, o));
    } else {
        lemma_frame_rest_origin(b, o, f);
        lemma_insert_origins(b, o, backlog, unfilled_rest(f));
        lemma_with_limits_origins(b, o, m, !side, queued(backlog, unfilled_rest(f)));
        if m.suspended.len() > 0 {
            assert forall|i: int| 0 <= i < m.suspended.drop_last().len() implies frame_origin(b, o, #[trigger] m.suspended.drop_last()[i]) by {
                assert(m.suspended.drop_last()[i] == m.suspended[i]);
            }
            assert(frame_origin(b, o, m.suspended[m.suspended.len() - 1]));
        }
        if limits.len() > 0 {
            let n = limits.last();
            lemma_drop_last_origins(b, o, limits);
            lemma_with_limits_origins(b, o, m, side, limits.drop_last());
            if f.remaining < n.volume {
                let rest = UnconditionalOrder { volume: (n.volume - f.remaining) as u32, ..n };
                assert(derived_from(rest, n));
                lemma_derived_trans(b, o, rest, n);
                lemma_insert_origins(b, o, limits.drop_last(), rest);
                lemma_with_limits_origins(b, o, m, side, requeued(limits.drop_last(), rest));
            }
        }
        assert(origin_inv(n2, b, o));
    }
}

proof fn lemma_run_origins(m: Matching, b: Books, o: UnconditionalOrder)
    requires
        origin_inv(m, b, o),
    ensures
        origin_inv(run(m), b, o),
    decreases m.books.stop_count(), m.depth(), m.books.limit_count(),
{
    if m.current is Some {
        lemma_step_decreases(m);
        lemma_step_origins(m, b, o);
        lemma_run_origins(step(m), b, o);
    }
}

/// Every order resting in the books after a limit or market order is resolved
/// comes from before: it is an order that rested in the books, the incoming
/// order, or what a stop order of the books trades as, with nothing changed but
/// possibly a smaller volume — in particular with its side, id and price.
pub proof fn lemma_resting_orders_have_origins(b: Books, o: UnconditionalOrder)
    ensures
        ({
            let after = resolve(b, Order::LimitMarket(o)).0;
            &&& forall|i: int| 0 <= i < after.limit_buy_orders.len() ==> has_origin(b, o, #[trigger] after.limit_buy_orders[i])
            &&& forall|i: int| 0 <= i < after.limit_sell_orders.len() ==> has_origin(b, o, #[trigger] after.limit_sell_orders[i])
        }),
{
    let m = start(b, o);
    assert(b.stop_buy_orders.take(b.stop_buy_orders.len() as int) =~= b.stop_buy_orders);
    assert(b.stop_sell_orders.take(b.stop_sell_orders.len() as int) =~= b.stop_sell_orders);
    assert forall|i: int| 0 <= i < b.limit_buy_orders.len() implies has_origin(b, o, #[trigger] b.limit_buy_orders[i]) by {
        assert(derived_from(b.limit_buy_orders[i], b.limit_buy_orders[i]));
    }
    assert forall|i: int| 0 <= i < b.limit_sell_orders.len() implies has_origin(b, o, #[trigger] b.limit_sell_orders[i]) by {
        assert(derived_from(b.limit_sell_orders[i], b.limit_sell_orders[i]));
    }
    assert(origin_inv(m, b, o));
    lemma_run_origins(m, b, o);
}

/// The frame of the incoming order, had it come in as `o` with the fill `x`
/// already made.
pub open spec fn lift_frame(f: Frame, o: UnconditionalOrder, x: UnconditionalView) -> Frame {
    Frame { order: o, fills: seq![x] + f.fills, ..f }
}

/// The state of a resolution, had the incoming order come in as `o` with the fill
/// `x` already made: the incoming order's frame is the bottom one while it is
/// being resolved, and its report is the last entry once it is done.
pub open spec fn lift(m: Matching, o: UnconditionalOrder, x: UnconditionalView) -> Matching {
    if m.suspended.len() > 0 {
        Matching { suspended: m.suspended.update(0, lift_frame(m.suspended[0], o, x)), ..m }
    } else if m.current is Some {
        Matching { current: Some(lift_frame(m.current->0, o, x)), ..m }
    } else {
        Matching {
            trades: m.trades.update(
                m.trades.len() - 1,
                (Order::LimitMarket(o), seq![x] + m.trades.last().1),
            ),
            ..m
        }
    }
}

proof fn lemma_insert_stop_key(t: TradeLog, k: Order, v: Seq<UnconditionalView>)
    requires
        forall|i: int| 0 <= i < t.len() ==> (#[trigger] t[i]).0 is StopLimit,
        k is LimitMarket,
    ensures
        trade_map_insert(t, k, v) == t.push((k, v)),
{
    if exists|i: int| 0 <= i < t.len() && same_order(#[trigger] t[i].0, k) {
        let i = choose|i: int| 0 <= i < t.len() && same_order(#[trigger] t[i].0, k);
        assert(t[i].0 is StopLimit);
    }
}

proof fn lemma_finish_lift_inner(m: Matching, books: Books, g: Frame, o: UnconditionalOrder, x: UnconditionalView)
    requires
        m.suspended.len() > 0,
    ensures
        finish(lift(m, o, x), books, g) == lift(finish(m, books, g), o, x),
{
    let l = lift(m, o, x);
    let a = finish(l, books, g);
    let c = finish(m, books, g);
    if m.suspended.len() == 1 {
        assert(a.suspended =~= c.suspended);
        assert(a == lift(c, o, x));
    } else {
        assert(l.suspended.drop_last() =~= m.suspended.drop_last().update(0, lift_frame(m.suspended[0], o, x)));
        assert(a == lift(c, o, x));
    }
}

/// One step of a resolution does the same whether the incoming order came in as
/// `o2` or as `o` with the fill `x` already made.
proof fn lemma_step_lift(m: Matching, o: UnconditionalOrder, o2: UnconditionalOrder, x: UnconditionalView)
    requires
        resolution_inv(m, o2),
        m.current is Some,
        o2 == (UnconditionalOrder { volume: o2.volume, ..o }),
    ensures
        step(lift(m, o, x)) == lift(step(m), o, x),
{
    lemma_resolution_inv_facts(m, o2);
    let l = lift(m, o, x);
    let c = m.current->0;
    let b = m.books;
    assert(priority(o) == priority(o2));
    if m.suspended.len() > 0 {
        assert(l.current == m.current);
        if stop_triggers(b, c) {
            let t1 = trigger_step(l, c);
            let t2 = trigger_step(m, c);
            assert(t1.suspended =~= t2.suspended.update(0, lift_frame(t2.suspended[0], o, x)));
            assert(t1 == lift(t2, o, x));
        } else {
            let limits = b.limits(c.buy_side);
            let backlog = b.limits(!c.buy_side);
            if limits.len() > 0 {
                let n = limits.last();
                if c.remaining < n.volume {
                    let part = UnconditionalOrder { volume: c.remaining, ..n };
                    let rest = UnconditionalOrder { volume: (n.volume - c.remaining) as u32, ..n };
                    lemma_finish_lift_inner(m, b.with_limits(c.buy_side, requeued(limits.drop_last(), rest)), Frame { fills: c.fills.push(filled(part)), ..c }, o, x);
                } else if c.remaining == n.volume {
                    lemma_finish_lift_inner(m, b.with_limits(c.buy_side, limits.drop_last()), Frame { fills: c.fills.push(filled(n)), ..c }, o, x);
                }
                lemma_finish_lift_inner(m, b.with_limits(!c.buy_side, queued(backlog, unfilled_rest(c))), c, o, x);
            } else {
                lemma_finish_lift_inner(m, b.with_limits(!c.buy_side, queued(backlog, unfilled_rest(c))), c, o, x);
                lemma_finish_lift_inner(m, b, c, o, x);
            }
            assert(limit_step(l, c) == lift(limit_step(m, c), o, x));
        }
    } else {
        let lc = lift_frame(c, o, x);
        assert(l.current == Some(lc));
        assert(stop_triggers(b, lc) == stop_triggers(b, c));
        assert(unfilled_rest(lc) == unfilled_rest(c));
        if stop_triggers(b, c) {
            let t1 = trigger_step(l, lc);
            let t2 = trigger_step(m, c);
            assert(t1.suspended =~= t2.suspended.update(0, lift_frame(t2.suspended[0], o, x)));
            assert(t1 == lift(t2, o, x));
        } else {
            let limits = b.limits(c.buy_side);
            let backlog = b.limits(!c.buy_side);
            let t = m.trades;
            if limits.len() > 0 {
                let n = limits.last();
                if priority(c.order) >= signed_price(n.limit_price.unwrap(), c.order.buy) {
                    if c.remaining > n.volume {
                        assert(seq![x] + c.fills.push(filled(n)) =~= (seq![x] + c.fills).push(filled(n)));
                    } else {
                        let part = if c.remaining == n.volume { n } else { UnconditionalOrder { volume: c.remaining, ..n } };
                        let g = Frame { fills: c.fills.push(filled(part)), ..c };
                        let lg = Frame { fills: lc.fills.push(filled(part)), ..lc };
                        assert(seq![x] + c.fills.push(filled(part)) =~= (seq![x] + c.fills).push(filled(part)));
                        assert(lg == lift_frame(g, o, x));
                        lemma_insert_stop_key(t, Order::LimitMarket(o), lg.fills);
                        lemma_insert_stop_key(t, Order::LimitMarket(o2), g.fills);
                        let r = trade_map_insert(t, Order::LimitMarket(o2), g.fills);
                        assert(trade_map_insert(t, Order::LimitMarket(o), lg.fills) =~= r.update(r.len() - 1, (Order::LimitMarket(o), seq![x] + r.last().1)));
                    }
                } else {
                    lemma_insert_stop_key(t, Order::LimitMarket(o), lc.fills);
                    lemma_insert_stop_key(t, Order::LimitMarket(o2), c.fills);
                    let r = trade_map_insert(t, Order::LimitMarket(o2), c.fills);
                    assert(trade_map_insert(t, Order::LimitMarket(o), lc.fills) =~= r.update(r.len() - 1, (Order::LimitMarket(o), seq![x] + r.last().1)));
                }
            } else {
                lemma_insert_stop_key(t, Order::LimitMarket(o), lc.fills);
                lemma_insert_stop_key(t, Order::LimitMarket(o2), c.fills);
                let r = trade_map_insert(t, Order::LimitMarket(o2), c.fills);
                assert(trade_map_insert(t, Order::LimitMarket(o), lc.fills) =~= r.update(r.len() - 1, (Order::LimitMarket(o), seq![x] + r.last().1)));
            }
            assert(limit_step(l, lc) == lift(limit_step(m, c), o, x));
        }
    }
}

proof fn lemma_run_lift(m: Matching, o: UnconditionalOrder, o2: UnconditionalOrder, x: UnconditionalView)
    requires
        resolution_inv(m, o2),
        o2 == (UnconditionalOrder { volume: o2.volume, ..o }),
    ensures
        run(lift(m, o, x)) == lift(run(m), o, x),
    decreases m.books.stop_count(), m.depth(), m.books.limit_count(),
{
    if m.current is Some {
        lemma_step_decreases(m);
        lemma_step_lift(m, o, o2, x);
        lemma_step_inv(m, o2);
        lemma_run_lift(step(m), o, o2, x);
        assert(lift(m, o, x).current is Some);
    } else {
        lemma_resolution_inv_facts(m, o2);
        assert(lift(m, o, x).current is None);
    }
}

/// Once an incoming order has taken the whole best resting order and goes on, the
/// rest of its resolution is that of a fresh order with the volume it has left, in
/// the book without that resting order: the stop orders are looked at again
/// before it trades on, the books end the same, and the report is the same but
/// for its own entry, which starts with the resting order taken first.
pub proof fn lemma_goes_on_like_a_fresh_order(b: Books, o: UnconditionalOrder)
    requires
        b.wf(),
        b.limits(o.buy).len() > 0,
        priority(o) >= signed_price(b.limits(o.buy).last().limit_price.unwrap(), o.buy),
        o.volume > b.limits(o.buy).last().volume,
        ({
            let st = b.stops(o.buy);
            ||| st.len() == 0
            ||| priority(o) < signed_price(st.last().trigger_price, o.buy)
            ||| (st.last().condition == ConditionalType::StopLoss && signed_price(st.last().trigger_price, o.buy)
                > signed_price(b.limits(o.buy).last().limit_price.unwrap(), o.buy))
        }),
    ensures
        ({
            let n = b.limits(o.buy).last();
            let o2 = UnconditionalOrder { volume: (o.volume - n.volume) as u32, ..o };
            let b2 = b.with_limits(o.buy, b.limits(o.buy).drop_last());
            let (r, t) = resolve(b, Order::LimitMarket(o));
            let (r2, t2) = resolve(b2, Order::LimitMarket(o2));
            &&& r == r2
            &&& t2.len() > 0
            &&& t == t2.update(t2.len() - 1, (Order::LimitMarket(o), seq![filled(n)] + t2.last().1))
        }),
{
    let n = b.limits(o.buy).last();
    let o2 = UnconditionalOrder { volume: (o.volume - n.volume) as u32, ..o };
    let b2 = b.with_limits(o.buy, b.limits(o.buy).drop_last());
    let m0 = start(b, o);
    let m2 = start(b2, o2);
    assert(!stop_triggers(b, m0.current->0));
    let m1 = step(m0);
    assert(m1.current->0.fills =~= seq![filled(n)] + m2.current->0.fills);
    assert(m1 == lift(m2, o, filled(n)));
    crate::queue::lemma_sorted_drop_last(b.limits(o.buy));
    assert(b2.wf()) by {
        let l = b.limits(o.buy);
        assert forall|i: int| 0 <= i < l.drop_last().len() implies (#[trigger] l.drop_last()[i]).limit_price is Some by {
            assert(l.drop_last()[i] == l[i]);
        }
    }
    lemma_start_inv(b2, o2);
    lemma_run_lift(m2, o, o2, filled(n));
    crate::laws::lemma_run_keeps_inv(m2, o2);
    lemma_resolution_inv_facts(run(m2), o2);
}

proof fn lemma_run_stop_count(m: Matching)
    ensures
        run(m).books.stop_count() <= m.books.stop_count(),
    decreases m.books.stop_count(), m.depth(), m.books.limit_count(),
{
    if m.current is Some {
        lemma_step_decreases(m);
        lemma_run_stop_count(step(m));
    }
}

/// Whether the best stop order of `stops` is triggered by an order `u` that
/// trades against `limits`: its trigger is within the reach of `u`, and for a
/// stop-loss order the best resting price is at its trigger or beyond.
pub open spec fn best_stop_triggered_by(
    stops: Seq<ConditionalOrder>,
    limits: Seq<UnconditionalOrder>,
    u: UnconditionalOrder,
) -> bool {
    &&& stops.len() > 0
    &&& priority(u) >= signed_price(stops.last().trigger_price, u.buy)
    &&& (stops.last().condition == ConditionalType::StopAndReverse || (limits.len() > 0
        && signed_price(stops.last().trigger_price, u.buy) <= signed_price(limits.last().limit_price.unwrap(), u.buy)))
}

/// Triggers cascade: when the incoming order triggers the best stop order of its
/// side, the order that stop order trades as looks at the stop book of the books
/// it trades against (a stop-loss order those of the incoming order, a
/// stop-and-reverse order those of the other side) before it trades, and
/// triggers that book's best stop order in turn where it can: at least two stop
/// orders leave the books.
pub proof fn lemma_triggered_orders_trigger_in_turn(b: Books, o: UnconditionalOrder)
    requires
        best_stop_triggered_by(b.stops(o.buy), b.limits(o.buy), o),
        ({
            let s1 = b.stops(o.buy).last();
            let u = unconditional_part(s1);
            let side = if s1.condition == ConditionalType::StopAndReverse { !o.buy } else { o.buy };
            let after_first = b.with_stops(o.buy, b.stops(o.buy).drop_last());
            best_stop_triggered_by(after_first.stops(side), after_first.limits(side), u)
        }),
    ensures
        resolve(b, Order::LimitMarket(o)).0.stop_count() + 2 <= b.stop_count(),
{
    let m0 = start(b, o);
    assert(stop_triggers(b, m0.current->0));
    let m1 = step(m0);
    assert(m1 == trigger_step(m0, m0.current->0));
    let c = m1.current->0;
    assert(stop_triggers(m1.books, c));
    let m2 = step(m1);
    assert(m2 == trigger_step(m1, c));
    assert(m2.books.stop_count() + 2 == b.stop_count());
    assert(run(m0) == run(m1));
    assert(run(m1) == run(m2));
    lemma_run_stop_count(m2);
}

} // verus!
