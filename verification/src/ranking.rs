//! The comparisons of orders: by limit price signed by direction, then volume
//! (and, for conditional orders, by trigger price first).

use vstd::prelude::*;
use core::cmp::Ordering;
use vstd::std_specs::cmp::PartialOrdSpecImpl;
use crate::queue::{Ranked, rank_lt};
use crate::order::{
    lemma_signed_price,
    ConditionalOrder, UnconditionalOrder, exec_signed_price, signed_price, wide, wide_opt, wide_u32,
};

verus! {

pub open spec fn int_order(a: int, b: int) -> Ordering {
    if a < b {
        Ordering::Less
    } else if a == b {
        Ordering::Equal
    } else {
        Ordering::Greater
    }
}

/// Options order `None` below every `Some`.
pub open spec fn option_order(a: Option<int>, b: Option<int>) -> Ordering {
    match (a, b) {
        (None, None) => Ordering::Equal,
        (None, Some(_)) => Ordering::Less,
        (Some(_), None) => Ordering::Greater,
        (Some(x), Some(y)) => int_order(x, y),
    }
}

/// Lexicographic: the second comparison counts only where the first finds equality.
pub open spec fn then_order(first: Ordering, next: Ordering) -> Ordering {
    if first == Ordering::Equal {
        next
    } else {
        first
    }
}

/// A limit price signed by the direction `buy`.
pub open spec fn signed_limit(p: Option<u32>, buy: bool) -> Option<int> {
    match p {
        Some(q) => Some(signed_price(q, buy)),
        None => None,
    }
}

/// Limit price signed by the order's own direction, then volume.
pub open spec fn unconditional_order(a: UnconditionalOrder, b: UnconditionalOrder) -> Ordering {
    then_order(
        option_order(signed_limit(a.limit_price, a.buy), signed_limit(b.limit_price, b.buy)),
        int_order(wide_u32(a.volume), wide_u32(b.volume)),
    )
}

/// Trigger price signed by the order's own direction, then volume, then limit
/// price signed by the direction of the order it is compared with.
pub open spec fn conditional_order(a: ConditionalOrder, b: ConditionalOrder) -> Ordering {
    then_order(
        int_order(signed_price(a.trigger_price, a.buy), signed_price(b.trigger_price, b.buy)),
        then_order(
            int_order(wide_u32(a.volume), wide_u32(b.volume)),
            option_order(signed_limit(a.limit_price, b.buy), signed_limit(b.limit_price, a.buy)),
        ),
    )
}


/// The books serve orders by the orders' own comparison: one limit order ranks
/// below another in a book exactly when it compares less.
pub proof fn lemma_limit_rank_is_comparison(a: UnconditionalOrder, b: UnconditionalOrder)
    ensures
        rank_lt(a.rank(), b.rank()) <==> unconditional_order(a, b) == Ordering::Less,
{
}

/// Within a stop book, whose orders are all on one side, a stop order ranks below
/// another exactly when it compares less.
pub proof fn lemma_stop_rank_is_comparison(a: ConditionalOrder, b: ConditionalOrder)
    requires
        a.buy == b.buy,
    ensures
        rank_lt(a.rank(), b.rank()) <==> conditional_order(a, b) == Ordering::Less,
{
}


/// Stop orders are served by trigger price first: of two buy stop orders the one
/// with the higher trigger compares greater and ranks higher in its book; of two
/// sell stop orders the one with the lower trigger does.
pub proof fn lemma_stop_trigger_precedence(a: ConditionalOrder, b: ConditionalOrder)
    requires
        a.buy == b.buy,
        a.trigger_price < b.trigger_price,
    ensures
        a.buy ==> conditional_order(a, b) == Ordering::Less && rank_lt(a.rank(), b.rank()),
        !a.buy ==> conditional_order(a, b) == Ordering::Greater && rank_lt(b.rank(), a.rank()),
{
    lemma_signed_price(a.trigger_price, a.buy);
    lemma_signed_price(b.trigger_price, b.buy);
}

/// Limit orders are served by limit price first: of two buy orders the one with
/// the higher limit compares greater and ranks higher; of two sell orders the one
/// with the lower limit does; a market order compares below any limit order.
pub proof fn lemma_limit_price_precedence(a: UnconditionalOrder, b: UnconditionalOrder)
    requires
        a.buy == b.buy,
        b.limit_price is Some,
    ensures
        a.limit_price is None ==> unconditional_order(a, b) == Ordering::Less && rank_lt(a.rank(), b.rank()),
        a.limit_price is Some && a.limit_price.unwrap() < b.limit_price.unwrap() ==> (if a.buy {
            unconditional_order(a, b) == Ordering::Less && rank_lt(a.rank(), b.rank())
        } else {
            unconditional_order(a, b) == Ordering::Greater && rank_lt(b.rank(), a.rank())
        }),
{
    if a.limit_price is Some {
        lemma_signed_price(a.limit_price.unwrap(), a.buy);
    }
    lemma_signed_price(b.limit_price.unwrap(), b.buy);
}

fn exec_int_order(a: i64, b: i64) -> (r: Ordering)
    ensures
        r == int_order(wide(a), wide(b)),
{
    if a < b {
        Ordering::Less
    } else if a == b {
        Ordering::Equal
    } else {
        Ordering::Greater
    }
}

fn exec_option_order(a: Option<i64>, b: Option<i64>) -> (r: Ordering)
    ensures
        r == option_order(wide_opt(a), wide_opt(b)),
{
    match (a, b) {
        (None, None) => Ordering::Equal,
        (None, Some(_)) => Ordering::Less,
        (Some(_), None) => Ordering::Greater,
        (Some(x), Some(y)) => exec_int_order(x, y),
    }
}

fn exec_signed_limit(p: Option<u32>, buy: bool) -> (r: Option<i64>)
    ensures
        wide_opt(r) == signed_limit(p, buy),
{
    match p {
        Some(q) => Some(exec_signed_price(q, buy)),
        None => None,
    }
}

impl PartialOrd for UnconditionalOrder {
    fn partial_cmp(&self, other: &Self) -> (r: Option<Ordering>) {
        let first = exec_option_order(
            exec_signed_limit(self.limit_price, self.buy),
            exec_signed_limit(other.limit_price, other.buy),
        );
        let volumes = if self.volume < other.volume {
            Ordering::Less
        } else if self.volume == other.volume {
            Ordering::Equal
        } else {
            Ordering::Greater
        };
        match first {
            Ordering::Equal => Some(volumes),
            _ => Some(first),
        }
    }
}

impl PartialOrdSpecImpl for UnconditionalOrder {
    open spec fn obeys_partial_cmp_spec() -> bool {
        true
    }

    open spec fn partial_cmp_spec(&self, other: &Self) -> Option<Ordering> {
        Some(unconditional_order(*self, *other))
    }
}

impl PartialOrd for ConditionalOrder {
    fn partial_cmp(&self, other: &Self) -> (r: Option<Ordering>) {
        let triggers = exec_int_order(
            exec_signed_price(self.trigger_price, self.buy),
            exec_signed_price(other.trigger_price, other.buy),
        );
        let volumes = if self.volume < other.volume {
            Ordering::Less
        } else if self.volume == other.volume {
            Ordering::Equal
        } else {
            Ordering::Greater
        };
        let limits = exec_option_order(
            exec_signed_limit(self.limit_price, other.buy),
            exec_signed_limit(other.limit_price, self.buy),
        );
        match triggers {
            Ordering::Equal => match volumes {
                Ordering::Equal => Some(limits),
                _ => Some(volumes),
            },
            _ => Some(triggers),
        }
    }
}

impl PartialOrdSpecImpl for ConditionalOrder {
    open spec fn obeys_partial_cmp_spec() -> bool {
        true
    }

    open spec fn partial_cmp_spec(&self, other: &Self) -> Option<Ordering> {
        Some(conditional_order(*self, *other))
    }
}

} // verus!
