//! The order book: four priority queues and the resolution of incoming orders.

use vstd::prelude::*;
use crate::order::{
    ConditionalOrder, ConditionalType, Order, OrderComplement, UnconditionalOrder,
    UnconditionalView, exec_priority, exec_signed_price,
};
use crate::queue::{RankedQueue, queued, requeued};
use crate::matching::{
    Books, Frame, Matching, TradeLog, distinct_orders, finish, lemma_run_wf, lemma_step_wf,
    lemma_stop_insert, limit_step, matching_wf, reported_order, resolve,
    run, start, step, stop_triggers, trade_map_insert, trigger_step,
};

verus! {

/// The fills of an order: the resting orders it traded against, in the order it
/// met them, each with the volume traded and marked as filled.
#[derive(Debug)]
pub struct Trade {
    pub order: Order,
    pub fills: Vec<UnconditionalOrder>,
}

pub open spec fn fills_view(v: Seq<UnconditionalOrder>) -> Seq<UnconditionalView> {
    v.map_values(|o: UnconditionalOrder| o@)
}

impl View for Trade {
    type V = (Order, Seq<UnconditionalView>);

    open spec fn view(&self) -> (Order, Seq<UnconditionalView>) {
        (self.order, fills_view(self.fills@))
    }
}

pub open spec fn trades_view(t: Seq<Trade>) -> TradeLog {
    t.map_values(|x: Trade| x@)
}

/// The four books; see `Books`.
#[derive(Debug)]
struct BookSet {
    limit_buy_orders: RankedQueue<UnconditionalOrder>,
    limit_sell_orders: RankedQueue<UnconditionalOrder>,
    stop_buy_orders: RankedQueue<ConditionalOrder>,
    stop_sell_orders: RankedQueue<ConditionalOrder>,
}

/// A limit order book. Contains both limit and stop order books.
#[derive(Debug)]
pub struct Orderbook {
    books: BookSet,
    symbol: String,
}

impl View for Orderbook {
    type V = Books;

    closed spec fn view(&self) -> Books {
        self.books@
    }
}

impl View for BookSet {
    type V = Books;

    closed spec fn view(&self) -> Books {
        Books {
            limit_buy_orders: self.limit_buy_orders@,
            limit_sell_orders: self.limit_sell_orders@,
            stop_buy_orders: self.stop_buy_orders@,
            stop_sell_orders: self.stop_sell_orders@,
        }
    }
}

/// An order being resolved; see `Frame`.
struct Pending {
    order: UnconditionalOrder,
    complement: Option<OrderComplement>,
    remaining: u32,
    fills: Vec<UnconditionalOrder>,
    buy_side: bool,
    stops_checked: bool,
}

impl View for Pending {
    type V = Frame;

    closed spec fn view(&self) -> Frame {
        Frame {
            order: self.order,
            complement: self.complement,
            remaining: self.remaining,
            fills: fills_view(self.fills@),
            buy_side: self.buy_side,
            stops_checked: self.stops_checked,
        }
    }
}

spec fn frames_view(s: Seq<Pending>) -> Seq<Frame> {
    s.map_values(|p: Pending| p@)
}

spec fn state(books: Books, suspended: Seq<Pending>, current: Option<Pending>, trades: Seq<Trade>) -> Matching {
    Matching {
        books,
        suspended: frames_view(suspended),
        current: match current {
            Some(p) => Some(p@),
            None => None,
        },
        trades: trades_view(trades),
    }
}

/// Records the fills of a resolved order, replacing those recorded before for the
/// same order.
fn record_trade(trades: &mut Vec<Trade>, key: Order, fills: Vec<UnconditionalOrder>)
    requires
        distinct_orders(trades_view(old(trades)@)),
    ensures
        trades_view(final(trades)@) == trade_map_insert(trades_view(old(trades)@), key, fills_view(fills@)),
{
    let ghost t = trades_view(trades@);
    let n = trades.len();
    let mut i: usize = 0;
    while i < n
        invariant
            n == trades@.len(),
            trades@ == old(trades)@,
            t == trades_view(trades@),
            distinct_orders(t),
            i <= n,
            forall|j: int| 0 <= j < i ==> !crate::order::same_order(#[trigger] t[j].0, key),
        decreases n - i,
    {
        if trades[i].order.same_order(&key) {
            let k = trades[i].order;
            assert(t[i as int] == trades@[i as int]@);
            assert(crate::order::same_order(t[i as int].0, key));
            trades[i] = Trade { order: k, fills };
            proof {
                let w = choose|w: int| 0 <= w < t.len() && crate::order::same_order(#[trigger] t[w].0, key);
                assert(0 <= w < t.len() && crate::order::same_order(t[w].0, key));
                if w != i {
                    if w < i {
                        assert(!crate::order::same_order(t[w].0, t[i as int].0));
                    } else {
                        assert(!crate::order::same_order(t[i as int].0, t[w].0));
                    }
                }
                assert(trades_view(trades@) =~= t.update(i as int, (t[i as int].0, fills_view(fills@))));
            }
            return;
        }
        i = i + 1;
    }
    trades.push(Trade { order: key, fills });
    proof {
        assert(trades_view(trades@) =~= t.push((key, fills_view(fills@))));
    }
}

/// Ends the resolution of `f`: records its fills and hands back the order that it
/// interrupted, if any.
fn finish_pending(f: Pending, suspended: &mut Vec<Pending>, trades: &mut Vec<Trade>) -> (next: Option<Pending>)
    requires
        distinct_orders(trades_view(old(trades)@)),
    ensures
        trades_view(final(trades)@) == trade_map_insert(trades_view(old(trades)@), reported_order(f@), f@.fills),
        old(suspended)@.len() == 0 ==> next is None && final(suspended)@ == old(suspended)@,
        old(suspended)@.len() > 0 ==> next == Some(old(suspended)@.last()) && final(suspended)@
            == old(suspended)@.drop_last(),
{
    let key = match f.complement {
        Some(c) => Order::StopLimit(ConditionalOrder::from((f.order, c))),
        None => Order::LimitMarket(f.order),
    };
    record_trade(trades, key, f.fills);
    suspended.pop()
}

impl BookSet {
    fn new() -> (b: BookSet)
        ensures
            b@ == Books::empty(),
    {
        let b = BookSet {
            limit_buy_orders: RankedQueue::new(),
            limit_sell_orders: RankedQueue::new(),
            stop_buy_orders: RankedQueue::new(),
            stop_sell_orders: RankedQueue::new(),
        };
        assert(b@ =~~= Books::empty());
        b
    }

    fn stop_top(&self, buy_side: bool) -> (s: Option<ConditionalOrder>)
        ensures
            s == (if self@.stops(buy_side).len() == 0 {
                None
            } else {
                Some(self@.stops(buy_side).last())
            }),
    {
        let top = if buy_side {
            self.stop_buy_orders.peek()
        } else {
            self.stop_sell_orders.peek()
        };
        match top {
            Some(s) => Some(*s),
            None => None,
        }
    }

    fn limit_top(&self, buy_side: bool) -> (n: Option<UnconditionalOrder>)
        ensures
            n == (if self@.limits(buy_side).len() == 0 {
                None
            } else {
                Some(self@.limits(buy_side).last())
            }),
    {
        let top = if buy_side {
            self.limit_buy_orders.peek()
        } else {
            self.limit_sell_orders.peek()
        };
        match top {
            Some(n) => Some(*n),
            None => None,
        }
    }

    fn pop_stop(&mut self, buy_side: bool) -> (s: ConditionalOrder)
        requires
            old(self)@.stops(buy_side).len() > 0,
        ensures
            s == old(self)@.stops(buy_side).last(),
            final(self)@ == old(self)@.with_stops(buy_side, old(self)@.stops(buy_side).drop_last()),
    {
        let top = if buy_side {
            self.stop_buy_orders.pop()
        } else {
            self.stop_sell_orders.pop()
        };
        assert(self@ =~~= old(self)@.with_stops(buy_side, old(self)@.stops(buy_side).drop_last()));
        top.unwrap()
    }

    fn pop_limit(&mut self, buy_side: bool) -> (n: UnconditionalOrder)
        requires
            old(self)@.limits(buy_side).len() > 0,
        ensures
            n == old(self)@.limits(buy_side).last(),
            final(self)@ == old(self)@.with_limits(buy_side, old(self)@.limits(buy_side).drop_last()),
    {
        let top = if buy_side {
            self.limit_buy_orders.pop()
        } else {
            self.limit_sell_orders.pop()
        };
        assert(self@ =~~= old(self)@.with_limits(buy_side, old(self)@.limits(buy_side).drop_last()));
        top.unwrap()
    }

    fn push_limit(&mut self, buy_side: bool, o: UnconditionalOrder)
        ensures
            final(self)@ == old(self)@.with_limits(buy_side, queued(old(self)@.limits(buy_side), o)),
    {
        if buy_side {
            self.limit_buy_orders.push(o);
        } else {
            self.limit_sell_orders.push(o);
        }
        assert(self@ =~~= old(self)@.with_limits(buy_side, queued(old(self)@.limits(buy_side), o)));
    }

    fn requeue_limit(&mut self, buy_side: bool, o: UnconditionalOrder)
        ensures
            final(self)@ == old(self)@.with_limits(buy_side, requeued(old(self)@.limits(buy_side), o)),
    {
        if buy_side {
            self.limit_buy_orders.push_front_of_equals(o);
        } else {
            self.limit_sell_orders.push_front_of_equals(o);
        }
        assert(self@ =~~= old(self)@.with_limits(buy_side, requeued(old(self)@.limits(buy_side), o)));
    }

    /// Whether the best stop order that `f` can trigger is triggered now.
    fn stop_triggered(&self, f: &Pending) -> (r: bool)
        requires
            self@.wf(),
        ensures
            r == stop_triggers(self@, f@),
    {
        if f.stops_checked {
            return false;
        }
        match self.stop_top(f.buy_side) {
            None => false,
            Some(s) => {
                let trigger = exec_signed_price(s.trigger_price, f.order.buy);
                if exec_priority(&f.order) >= trigger {
                    match s.condition {
                        ConditionalType::StopAndReverse => true,
                        ConditionalType::StopLoss => match self.limit_top(f.buy_side) {
                            Some(n) => {
                                proof {
                                    let l = self@.limits(f.buy_side);
                                    assert(l[l.len() - 1].limit_price is Some);
                                }
                                trigger <= exec_signed_price(n.limit_price.unwrap(), f.order.buy)
                            },
                            None => false,
                        },
                    }
                } else {
                    false
                }
            },
        }
    }

    /// Resolves an incoming unconditional order against the books, together with
    /// every stop order that it triggers, and reports the trades.
    fn trade_orders(&mut self, order: UnconditionalOrder) -> (trades: Vec<Trade>)
        requires
            old(self)@.wf(),
        ensures
            final(self)@.wf(),
            final(self)@ == run(start(old(self)@, order)).books,
            trades_view(trades@) == run(start(old(self)@, order)).trades,
    {
        let ghost init = start(self@, order);
        let mut trades: Vec<Trade> = Vec::new();
        let mut suspended: Vec<Pending> = Vec::new();
        let mut current: Option<Pending> = Some(
            Pending {
                order,
                complement: None,
                remaining: order.volume,
                fills: Vec::new(),
                buy_side: order.buy,
                stops_checked: false,
            },
        );
        proof {
            let m0 = state(self@, suspended@, current, trades@);
            assert(m0.suspended =~= init.suspended);
            assert(m0.trades =~= init.trades);
            assert(m0.current->0.fills =~= init.current->0.fills);
            assert(m0 == init);
        }
        loop
            invariant
                matching_wf(state(self@, suspended@, current, trades@)),
                run(state(self@, suspended@, current, trades@)) == run(init),
            ensures
                current is None,
                matching_wf(state(self@, suspended@, current, trades@)),
                run(state(self@, suspended@, current, trades@)) == run(init),
            decreases
                state(self@, suspended@, current, trades@).books.stop_count(),
                state(self@, suspended@, current, trades@).depth(),
                state(self@, suspended@, current, trades@).books.limit_count(),
        {
            let ghost m = state(self@, suspended@, current, trades@);
            if current.is_none() {
                break;
            }
            let mut f = current.unwrap();
            let ghost fv = f@;
            let ghost sus = suspended@;
            let ghost tr = trades@;
            proof {
                assert(m.current == Some(fv));
                lemma_step_wf(m);
                crate::matching::lemma_step_decreases(m);
            }
            let side = f.buy_side;
            if self.stop_triggered(&f) {
                let s = self.pop_stop(side);
                let (u, c): (UnconditionalOrder, OrderComplement) = s.into();
                let child_side = match s.condition {
                    ConditionalType::StopAndReverse => !side,
                    ConditionalType::StopLoss => side,
                };
                f.stops_checked = true;
                let ghost parked = f@;
                suspended.push(f);
                current = Some(
                    Pending {
                        order: u,
                        complement: Some(c),
                        remaining: u.volume,
                        fills: Vec::new(),
                        buy_side: child_side,
                        stops_checked: false,
                    },
                );
                proof {
                    let m2 = state(self@, suspended@, current, trades@);
                    let t = trigger_step(m, fv);
                    assert(parked == (Frame { stops_checked: true, ..fv }));
                    assert(m2.suspended =~= frames_view(sus).push(parked));
                    assert(m2.current->0.fills =~= t.current->0.fills);
                    assert(m2.books == t.books);
                    assert(m2 == t);
                    assert(step(m) == t);
                }
            } else {
                let ghost l = self@.limits(side);
                match self.limit_top(side) {
                    Some(n) => {
                        proof {
                            assert(l[l.len() - 1].limit_price is Some);
                        }
                        let price = n.limit_price.unwrap();
                        if exec_priority(&f.order) >= exec_signed_price(price, f.order.buy) {
                            if f.remaining > n.volume {
                                let mut executed = self.pop_limit(side);
                                executed.fill();
                                f.remaining = f.remaining - executed.volume;
                                let ghost fills_before = f.fills@;
                                f.fills.push(executed);
                                f.stops_checked = false;
                                current = Some(f);
                                proof {
                                    let m2 = state(self@, suspended@, current, trades@);
                                    let t = limit_step(m, fv);
                                    assert(fills_view(fills_before.push(executed)) =~= fills_view(fills_before).push(executed@));
                                    assert(m2.current == t.current);
                                    assert(m2 == t);
                                }
                            } else if f.remaining == n.volume {
                                let mut executed = self.pop_limit(side);
                                executed.fill();
                                let ghost fills_before = f.fills@;
                                f.fills.push(executed);
                                let ghost done = f@;
                                current = finish_pending(f, &mut suspended, &mut trades);
                                proof {
                                    assert(fills_view(fills_before.push(executed)) =~= fills_view(fills_before).push(executed@));
                                    assert(done == (Frame { fills: fv.fills.push(crate::matching::filled(n)), ..fv }));
                                    self.lemma_finished(m, done, sus, suspended@, current, tr, trades@);
                                }
                            } else {
                                let mut top = self.pop_limit(side);
                                let mut executed = top.split_at_volume(f.remaining);
                                executed.fill();
                                self.requeue_limit(side, top);
                                let ghost fills_before = f.fills@;
                                f.fills.push(executed);
                                let ghost done = f@;
                                current = finish_pending(f, &mut suspended, &mut trades);
                                proof {
                                    let part = UnconditionalOrder { volume: fv.remaining, ..n };
                                    assert(fills_view(fills_before.push(executed)) =~= fills_view(fills_before).push(executed@));
                                    assert(done == (Frame { fills: fv.fills.push(crate::matching::filled(part)), ..fv }));
                                    self.lemma_finished(m, done, sus, suspended@, current, tr, trades@);
                                }
                            }
                        } else {
                            self.push_limit(!side, UnconditionalOrder { volume: f.remaining, ..f.order });
                            let ghost done = f@;
                            current = finish_pending(f, &mut suspended, &mut trades);
                            proof {
                                self.lemma_finished(m, done, sus, suspended@, current, tr, trades@);
                            }
                        }
                    },
                    None => {
                        if f.order.limit_price.is_some() {
                            self.push_limit(!side, UnconditionalOrder { volume: f.remaining, ..f.order });
                        }
                        let ghost done = f@;
                        current = finish_pending(f, &mut suspended, &mut trades);
                        proof {
                            self.lemma_finished(m, done, sus, suspended@, current, tr, trades@);
                        }
                    },
                }
            }
        }
        proof {
            let m = state(self@, suspended@, current, trades@);
            assert(run(m) == m);
        }
        trades
    }

    /// After a frame finished, the state is what `finish` says.
    proof fn lemma_finished(
        &self,
        m: Matching,
        done: Frame,
        sus: Seq<Pending>,
        sus2: Seq<Pending>,
        current: Option<Pending>,
        tr: Seq<Trade>,
        tr2: Seq<Trade>,
    )
        requires
            m.suspended == frames_view(sus),
            m.trades == trades_view(tr),
            trades_view(tr2) == trade_map_insert(trades_view(tr), reported_order(done), done.fills),
            sus.len() == 0 ==> current is None && sus2 == sus,
            sus.len() > 0 ==> current == Some(sus.last()) && sus2 == sus.drop_last(),
        ensures
            state(self@, sus2, current, tr2) == finish(m, self@, done),
    {
        let m2 = state(self@, sus2, current, tr2);
        let t = finish(m, self@, done);
        if sus.len() > 0 {
            assert(frames_view(sus2) =~= frames_view(sus).drop_last());
        }
        assert(m2.suspended == t.suspended);
        assert(m2 == t);
    }

}

impl BookSet {
    /// Adds a stop order to the stop book of its side.
    fn add_stop(&mut self, order: ConditionalOrder)
        requires
            old(self)@.wf(),
        ensures
            final(self)@.wf(),
            final(self)@ == resolve(old(self)@, Order::StopLimit(order)).0,
    {
        proof {
            if order.buy {
                lemma_stop_insert(self@.stop_buy_orders, order, true);
            } else {
                lemma_stop_insert(self@.stop_sell_orders, order, false);
            }
        }
        if order.buy {
            self.stop_buy_orders.push(order);
        } else {
            self.stop_sell_orders.push(order);
        }
        assert(self@ =~~= resolve(old(self)@, Order::StopLimit(order)).0);
    }
}

impl Orderbook {
    /// The books are sorted, resting limit orders have a price, and each stop
    /// book holds the stop orders of its own side.
    #[verifier::type_invariant]
    spec fn inv(&self) -> bool {
        self.books@.wf()
    }

    /// The symbol of the traded asset.
    pub closed spec fn ticker(&self) -> String {
        self.symbol
    }

    /// Constructs a new, empty book.
    pub fn new(symbol: String) -> (book: Orderbook)
        ensures
            book@ == Books::empty(),
            book@.wf(),
            book.ticker() == symbol,
    {
        Orderbook { books: BookSet::new(), symbol }
    }

    /// The symbol of the traded asset.
    pub fn symbol(&self) -> (s: &String)
        ensures
            *s == self.ticker(),
    {
        &self.symbol
    }

    /// Main method to resolve an incoming order: a limit or market order trades
    /// against the books, a stop order is placed in the stop book of its side.
    /// Reports, for the incoming order and for each stop order it triggered, the
    /// resting orders traded against.
    pub fn resolve_order(&mut self, order_to_resolve: Order) -> (trades: Vec<Trade>)
        ensures
            final(self)@.wf(),
            final(self).ticker() == old(self).ticker(),
            (final(self)@, trades_view(trades@)) == resolve(old(self)@, order_to_resolve),
    {
        proof {
            use_type_invariant(&*self);
        }
        let mut books = BookSet::new();
        std::mem::swap(&mut books, &mut self.books);
        let trades = match order_to_resolve {
            Order::LimitMarket(order) => {
                proof {
                    lemma_run_wf(start(books@, order));
                }
                books.trade_orders(order)
            },
            Order::StopLimit(order) => {
                books.add_stop(order);
                let trades = Vec::new();
                assert(trades_view(trades@) =~= Seq::<(Order, Seq<UnconditionalView>)>::empty());
                trades
            },
        };
        self.books = books;
        trades
    }
}

} // verus!
