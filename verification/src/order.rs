//! Orders: unconditional (limit and market) orders, conditional (stop) orders,
//! and the conversions between them.
//!
//! Prices are integral numbers of ticks, the smallest price increment.

use vstd::prelude::*;
use crate::clock::system_now;
use std::time::SystemTime;
use crate::queue::Ranked;
use vstd::std_specs::cmp::PartialEqSpecImpl;
use vstd::std_specs::convert::FromSpecImpl;

verus! {

/// What a conditional order turns into once its trigger price is reached.
#[derive(PartialEq, Eq, Debug, Copy, Clone, Structural)]
pub enum ConditionalType {
    /// Trades against the book on the opposite side of the stop order.
    StopLoss,
    /// Trades against the book on the same side as the stop order.
    StopAndReverse,
}

/// Unconditional orders. These orders can be either limit orders
/// or market orders, depending whether they have a limit price or not.
#[derive(Debug, Copy, Clone)]
pub struct UnconditionalOrder {
    pub id: u32,
    pub buy: bool,
    pub volume: u32,
    pub limit_price: Option<u32>,
    pub created_at: SystemTime,
    pub filled_at: Option<SystemTime>,
}

/// Conditional orders: stop market and stop limit orders, executed once their
/// trigger price is reached. They interrupt the ordinary trade execution of a
/// limit order and are handled with priority.
#[derive(Debug, Copy, Clone)]
pub struct ConditionalOrder {
    pub id: u32,
    pub buy: bool,
    pub volume: u32,
    pub limit_price: Option<u32>,
    pub trigger_price: u32,
    pub condition: ConditionalType,
    pub created_at: SystemTime,
    pub filled_at: Option<SystemTime>,
}

/// What a conditional order keeps aside while it trades as an unconditional order,
/// so that it can be put together again afterwards.
#[derive(Debug, Copy, Clone, PartialEq, Eq, Structural)]
pub struct OrderComplement {
    pub trigger_price: u32,
    pub condition: ConditionalType,
}

/// A generic order type.
#[derive(Debug, Copy, Clone)]
pub enum Order {
    LimitMarket(UnconditionalOrder),
    StopLimit(ConditionalOrder),
}

/// An unconditional order with its fill time reduced to whether it was filled:
/// the fill time is read from the clock and nothing is known of it.
pub struct UnconditionalView {
    pub id: u32,
    pub buy: bool,
    pub volume: u32,
    pub limit_price: Option<u32>,
    pub created_at: SystemTime,
    pub filled: bool,
}

impl View for UnconditionalOrder {
    type V = UnconditionalView;

    open spec fn view(&self) -> UnconditionalView {
        UnconditionalView {
            id: self.id,
            buy: self.buy,
            volume: self.volume,
            limit_price: self.limit_price,
            created_at: self.created_at,
            filled: self.filled_at is Some,
        }
    }
}

/// +1 for a buy order, -1 for a sell order.
pub open spec fn direction(buy: bool) -> int {
    if buy { 1 } else { -1 }
}

/// The unconditional order that a conditional order trades as: a stop-loss order
/// trades on the opposite side, a stop-and-reverse order on its own side.
pub open spec fn unconditional_part(s: ConditionalOrder) -> UnconditionalOrder {
    UnconditionalOrder {
        id: s.id,
        buy: if s.condition == ConditionalType::StopLoss { !s.buy } else { s.buy },
        volume: s.volume,
        limit_price: s.limit_price,
        created_at: s.created_at,
        filled_at: None,
    }
}

/// What a conditional order keeps aside while it trades.
pub open spec fn complement_part(s: ConditionalOrder) -> OrderComplement {
    OrderComplement { trigger_price: s.trigger_price, condition: s.condition }
}

/// The conditional order put together from its traded part and its complement.
pub open spec fn reassembled(u: UnconditionalOrder, c: OrderComplement) -> ConditionalOrder {
    ConditionalOrder {
        id: u.id,
        buy: if c.condition == ConditionalType::StopLoss { !u.buy } else { u.buy },
        volume: u.volume,
        limit_price: u.limit_price,
        trigger_price: c.trigger_price,
        condition: c.condition,
        created_at: u.created_at,
        filled_at: None,
    }
}

/// Two orders are the same key of a trade map when they are of the same kind
/// and agree on id and volume.
pub open spec fn same_order(a: Order, b: Order) -> bool {
    match (a, b) {
        (Order::LimitMarket(x), Order::LimitMarket(y)) => x.id == y.id && x.volume == y.volume,
        (Order::StopLimit(x), Order::StopLimit(y)) => x.id == y.id && x.volume == y.volume,
        _ => false,
    }
}


/// Where a price places an order in its book: buy prices count up, sell prices
/// count down, and no price at all ranks below every price.
pub open spec fn price_rank(price: Option<u32>, buy: bool) -> int {
    match price {
        Some(p) => direction(buy) * p,
        None => -0x1_0000_0000,
    }
}

/// How far an order reaches into the book: its limit price, signed by its
/// direction, or no bound at all for a market order.
pub open spec fn priority(o: UnconditionalOrder) -> int {
    match o.limit_price {
        Some(p) => direction(o.buy) * p,
        None => i64::MAX as int,
    }
}

/// An exec integer as a mathematical integer.
pub open spec fn wide(x: i64) -> int {
    x as int
}

/// An optional exec integer as an optional mathematical integer.
pub open spec fn wide_opt(x: Option<i64>) -> Option<int> {
    match x {
        Some(y) => Some(y as int),
        None => None,
    }
}

/// A volume as a mathematical integer.
pub open spec fn wide_u32(x: u32) -> int {
    x as int
}

/// A price signed by the direction of an order.
pub open spec fn signed_price(p: u32, buy: bool) -> int {
    direction(buy) * p
}


/// A signed price is the price for a buy order and its negation for a sell order.
pub proof fn lemma_signed_price(p: u32, buy: bool)
    ensures
        signed_price(p, buy) == if buy { p as int } else { -(p as int) },
{
}

/// A price signed by the direction of an order.
pub fn exec_signed_price(p: u32, buy: bool) -> (r: i64)
    ensures
        r == signed_price(p, buy),
{
    if buy { p as i64 } else { -(p as i64) }
}

/// Where a price places an order in its book.
pub fn exec_price_rank(price: Option<u32>, buy: bool) -> (r: i64)
    ensures
        r == price_rank(price, buy),
{
    match price {
        Some(p) => exec_signed_price(p, buy),
        None => -0x1_0000_0000,
    }
}

/// The limit price signed by the order's direction, or `i64::MAX` for a market order.
pub fn exec_priority(o: &UnconditionalOrder) -> (r: i64)
    ensures
        r == priority(*o),
{
    match o.limit_price {
        Some(p) => exec_signed_price(p, o.buy),
        None => i64::MAX,
    }
}

/// Resting limit orders are served best price first, then larger volume first.
impl Ranked for UnconditionalOrder {
    open spec fn rank(&self) -> (int, int, int) {
        (price_rank(self.limit_price, self.buy), self.volume as int, 0)
    }

    fn ranks_below(&self, other: &Self) -> (r: bool) {
        let a = exec_price_rank(self.limit_price, self.buy);
        let b = exec_price_rank(other.limit_price, other.buy);
        a < b || (a == b && self.volume < other.volume)
    }
}

/// Stop orders are served by signed trigger price, then volume, then limit price.
impl Ranked for ConditionalOrder {
    open spec fn rank(&self) -> (int, int, int) {
        (signed_price(self.trigger_price, self.buy), self.volume as int, price_rank(self.limit_price, self.buy))
    }

    fn ranks_below(&self, other: &Self) -> (r: bool) {
        let a = exec_signed_price(self.trigger_price, self.buy);
        let b = exec_signed_price(other.trigger_price, other.buy);
        let la = exec_price_rank(self.limit_price, self.buy);
        let lb = exec_price_rank(other.limit_price, other.buy);
        a < b || (a == b && (self.volume < other.volume || (self.volume == other.volume && la < lb)))
    }
}

impl UnconditionalOrder {
    /// A new order, stamped with the current time and not filled.
    pub fn new(id: u32, buy: bool, volume: u32, limit_price: Option<u32>) -> (o: UnconditionalOrder)
        ensures
            o.id == id,
            o.buy == buy,
            o.volume == volume,
            o.limit_price == limit_price,
            o.filled_at is None,
    {
        UnconditionalOrder { id, buy, limit_price, volume, created_at: system_now(), filled_at: None }
    }

    /// Marks the order as filled, with the current time.
    pub fn fill(&mut self)
        ensures
            final(self).filled_at is Some,
            *final(self) == (UnconditionalOrder { filled_at: final(self).filled_at, ..*old(self) }),
    {
        self.filled_at = Some(system_now());
    }

    /// Splits off a part of the order into a new one: this order keeps what is
    /// left of its volume (none, if more is split off than it has).
    pub fn split_at_volume(&mut self, vol_to_split: u32) -> (part: UnconditionalOrder)
        ensures
            final(self).volume == (if vol_to_split <= old(self).volume {
                old(self).volume - vol_to_split
            } else {
                0
            }),
            *final(self) == (UnconditionalOrder { volume: final(self).volume, ..*old(self) }),
            part == (UnconditionalOrder { volume: vol_to_split, ..*final(self) }),
    {
        self.volume = self.volume.saturating_sub(vol_to_split);
        UnconditionalOrder { volume: vol_to_split, ..*self }
    }

    /// Becomes 1 and -1 for a buy and sell order.
    pub fn trade_direction(&self) -> (d: i8)
        ensures
            d == direction(self.buy),
    {
        if self.buy { 1 } else { -1 }
    }
}

impl ConditionalOrder {
    /// A new conditional order, stamped with the current time and not filled.
    pub fn new(
        id: u32,
        buy: bool,
        volume: u32,
        limit_price: Option<u32>,
        condition: ConditionalType,
        trigger_price: u32,
    ) -> (o: ConditionalOrder)
        ensures
            o.id == id,
            o.buy == buy,
            o.volume == volume,
            o.limit_price == limit_price,
            o.condition == condition,
            o.trigger_price == trigger_price,
            o.filled_at is None,
    {
        ConditionalOrder {
            id,
            buy,
            limit_price,
            condition,
            trigger_price,
            volume,
            created_at: system_now(),
            filled_at: None,
        }
    }

    /// Becomes 1 and -1 for a buy and sell order.
    pub fn trade_direction(&self) -> (d: i8)
        ensures
            d == direction(self.buy),
    {
        if self.buy { 1 } else { -1 }
    }
}

/// Takes a conditional order apart into the unconditional order that it trades
/// as and the complement that it keeps aside.
impl From<ConditionalOrder> for (UnconditionalOrder, OrderComplement) {
    fn from(stop_order: ConditionalOrder) -> (parts: (UnconditionalOrder, OrderComplement)) {
        let buy = if let ConditionalType::StopLoss = stop_order.condition {
            !stop_order.buy
        } else {
            stop_order.buy
        };
        (
            UnconditionalOrder {
                limit_price: stop_order.limit_price,
                buy,
                id: stop_order.id,
                volume: stop_order.volume,
                created_at: stop_order.created_at,
                filled_at: None,
            },
            OrderComplement { trigger_price: stop_order.trigger_price, condition: stop_order.condition },
        )
    }
}

impl FromSpecImpl<ConditionalOrder> for (UnconditionalOrder, OrderComplement) {
    open spec fn obeys_from_spec() -> bool {
        true
    }

    open spec fn from_spec(stop_order: ConditionalOrder) -> (UnconditionalOrder, OrderComplement) {
        (unconditional_part(stop_order), complement_part(stop_order))
    }
}

/// Puts a conditional order together again from the unconditional order it traded
/// as and its complement.
impl From<(UnconditionalOrder, OrderComplement)> for ConditionalOrder {
    fn from(order_tuple: (UnconditionalOrder, OrderComplement)) -> (s: ConditionalOrder) {
        let buy = if let ConditionalType::StopLoss = order_tuple.1.condition {
            !order_tuple.0.buy
        } else {
            order_tuple.0.buy
        };
        ConditionalOrder {
            limit_price: order_tuple.0.limit_price,
            buy,
            id: order_tuple.0.id,
            volume: order_tuple.0.volume,
            created_at: order_tuple.0.created_at,
            filled_at: None,
            trigger_price: order_tuple.1.trigger_price,
            condition: order_tuple.1.condition,
        }
    }
}

impl FromSpecImpl<(UnconditionalOrder, OrderComplement)> for ConditionalOrder {
    open spec fn obeys_from_spec() -> bool {
        true
    }

    open spec fn from_spec(order_tuple: (UnconditionalOrder, OrderComplement)) -> ConditionalOrder {
        reassembled(order_tuple.0, order_tuple.1)
    }
}

impl Order {
    /// Whether the two orders are the same key of a trade map.
    pub fn same_order(&self, other: &Order) -> (r: bool)
        ensures
            r == same_order(*self, *other),
    {
        match (self, other) {
            (Order::LimitMarket(x), Order::LimitMarket(y)) => x.id == y.id && x.volume == y.volume,
            (Order::StopLimit(x), Order::StopLimit(y)) => x.id == y.id && x.volume == y.volume,
            _ => false,
        }
    }
}


/// Orders are told apart by id and volume.
impl PartialEq for UnconditionalOrder {
    fn eq(&self, other: &Self) -> (r: bool) {
        self.id == other.id && self.volume == other.volume
    }
}

impl PartialEqSpecImpl for UnconditionalOrder {
    open spec fn obeys_eq_spec() -> bool {
        true
    }

    open spec fn eq_spec(&self, other: &Self) -> bool {
        self.id == other.id && self.volume == other.volume
    }
}

impl Eq for UnconditionalOrder {}

/// `Hash::hash` of `u32`, which feeds the integer to the hasher.
///
/// Nothing is stated of it: what a hasher does with its input is not the
/// library's concern.
pub assume_specification<H: core::hash::Hasher>[<u32 as core::hash::Hash>::hash::<H>](value: &u32, state: &mut H);

/// Orders hash by id alone, in line with equality by id and volume.
impl core::hash::Hash for UnconditionalOrder {
    fn hash<H: core::hash::Hasher>(&self, state: &mut H) {
        self.id.hash(state);
    }
}

/// Orders are told apart by id and volume.
impl PartialEq for ConditionalOrder {
    fn eq(&self, other: &Self) -> (r: bool) {
        self.id == other.id && self.volume == other.volume
    }
}

impl PartialEqSpecImpl for ConditionalOrder {
    open spec fn obeys_eq_spec() -> bool {
        true
    }

    open spec fn eq_spec(&self, other: &Self) -> bool {
        self.id == other.id && self.volume == other.volume
    }
}

impl Eq for ConditionalOrder {}

/// Orders hash by id alone, in line with equality by id and volume.
impl core::hash::Hash for ConditionalOrder {
    fn hash<H: core::hash::Hasher>(&self, state: &mut H) {
        self.id.hash(state);
    }
}

/// Orders of the same kind are told apart by id and volume.
impl PartialEq for Order {
    fn eq(&self, other: &Self) -> (r: bool) {
        self.same_order(other)
    }
}

impl PartialEqSpecImpl for Order {
    open spec fn obeys_eq_spec() -> bool {
        true
    }

    open spec fn eq_spec(&self, other: &Self) -> bool {
        same_order(*self, *other)
    }
}

impl Eq for Order {}

/// Orders hash by kind and id, in line with equality by kind, id and volume.
impl core::hash::Hash for Order {
    fn hash<H: core::hash::Hasher>(&self, state: &mut H) {
        match self {
            Order::LimitMarket(o) => {
                0u32.hash(state);
                o.hash(state);
            },
            Order::StopLimit(o) => {
                1u32.hash(state);
                o.hash(state);
            },
        }
    }
}

/// Taking a conditional order apart and putting it together again gives back
/// the order, with its fill time cleared.
pub proof fn lemma_parts_round_trip(s: ConditionalOrder)
    ensures
        reassembled(unconditional_part(s), complement_part(s))
            == (ConditionalOrder { filled_at: None, ..s }),
{
}

/// Putting a conditional order together and taking it apart again gives back
/// the unconditional order, with its fill time cleared, and the complement.
pub proof fn lemma_reassembled_round_trip(u: UnconditionalOrder, c: OrderComplement)
    ensures
        unconditional_part(reassembled(u, c)) == (UnconditionalOrder { filled_at: None, ..u }),
        complement_part(reassembled(u, c)) == c,
{
}

} // verus!
