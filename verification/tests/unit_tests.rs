use craes::order::{ConditionalOrder, ConditionalType, Order, UnconditionalOrder};
use craes::orderbook::{Orderbook, Trade};
use std::collections::HashMap;

// Prices are written in hundredths: 10.0 is 1000.

/// The reported trades as a map from orders to the resting orders they traded against.
fn as_map(trades: Vec<Trade>) -> HashMap<Order, Vec<UnconditionalOrder>> {
    trades.into_iter().map(|t| (t.order, t.fills)).collect()
}

#[test]
fn simple_buy_transaction() {
    let limit_sell = Order::LimitMarket(UnconditionalOrder::new(1, false, 10, Some(1000)));
    let market_buy = Order::LimitMarket(UnconditionalOrder::new(2, true, 10, None));
    let mut order_book = Orderbook::new("tester".to_string());

    let _ = order_book.resolve_order(limit_sell);
    let trade = as_map(order_book.resolve_order(market_buy));

    let mut trade_predicted = HashMap::new();
    trade_predicted.insert(market_buy, vec![UnconditionalOrder::new(1, false, 10, Some(1000))]);
    assert_eq!(trade, trade_predicted);
}

#[test]
fn simple_sell_transaction() {
    let limit_buy = Order::LimitMarket(UnconditionalOrder::new(1, true, 10, Some(1000)));
    let market_sell = Order::LimitMarket(UnconditionalOrder::new(2, false, 10, None));
    let mut order_book = Orderbook::new("tester".to_string());

    let _ = order_book.resolve_order(limit_buy);
    let trade = as_map(order_book.resolve_order(market_sell));

    let mut trade_predicted = HashMap::new();
    trade_predicted.insert(market_sell, vec![UnconditionalOrder::new(1, true, 10, Some(1000))]);
    assert_eq!(trade, trade_predicted);
}

#[test]
fn buy_with_limit_order() {
    let limit_sell = Order::LimitMarket(UnconditionalOrder::new(1, false, 10, Some(1000)));
    let limit_buy = Order::LimitMarket(UnconditionalOrder::new(2, true, 10, Some(1100)));
    let mut order_book = Orderbook::new("tester".to_string());

    let _ = order_book.resolve_order(limit_sell);
    let trade = as_map(order_book.resolve_order(limit_buy));

    let mut trade_predicted = HashMap::new();
    trade_predicted.insert(limit_buy, vec![UnconditionalOrder::new(1, false, 10, Some(1000))]);
    assert_eq!(trade, trade_predicted);
}

#[test]
fn sell_with_limit_order() {
    let limit_buy = Order::LimitMarket(UnconditionalOrder::new(1, true, 10, Some(1000)));
    let limit_sell = Order::LimitMarket(UnconditionalOrder::new(2, false, 10, Some(900)));
    let mut order_book = Orderbook::new("tester".to_string());

    let _ = order_book.resolve_order(limit_buy);
    let trade = as_map(order_book.resolve_order(limit_sell));

    let mut trade_predicted = HashMap::new();
    trade_predicted.insert(limit_sell, vec![UnconditionalOrder::new(1, true, 10, Some(1000))]);
    assert_eq!(trade, trade_predicted);
}

#[test]
fn no_trades_at_market() {
    let limit_buy_low = Order::LimitMarket(UnconditionalOrder::new(1, true, 10, Some(900)));
    let limit_sell_high = Order::LimitMarket(UnconditionalOrder::new(2, false, 10, Some(1200)));
    let limit_buy = Order::LimitMarket(UnconditionalOrder::new(1, true, 10, Some(1000)));
    let limit_sell = Order::LimitMarket(UnconditionalOrder::new(2, false, 10, Some(1100)));
    let mut order_book = Orderbook::new("tester".to_string());

    let _ = order_book.resolve_order(limit_buy);
    let _ = order_book.resolve_order(limit_buy_low);
    let _ = order_book.resolve_order(limit_sell_high);
    let trade = as_map(order_book.resolve_order(limit_sell));

    let mut trade_predicted: HashMap<Order, Vec<UnconditionalOrder>> = HashMap::new();
    trade_predicted.insert(limit_sell, Vec::new());
    assert_eq!(trade, trade_predicted);
}

#[test]
fn partial_buy_transaction() {
    let limit_sell = Order::LimitMarket(UnconditionalOrder::new(1, false, 10, Some(1000)));
    let market_buy = Order::LimitMarket(UnconditionalOrder::new(2, true, 5, None));
    let mut order_book = Orderbook::new("tester".to_string());

    let _ = order_book.resolve_order(limit_sell);
    let trade = as_map(order_book.resolve_order(market_buy));

    let limit_sell_inner = UnconditionalOrder::new(1, false, 5, Some(1000));
    let mut trade_predicted = HashMap::new();
    trade_predicted.insert(market_buy, vec![limit_sell_inner]);
    assert_eq!(trade, trade_predicted);
}

#[test]
fn two_step_buy_transaction() {
    let large_limit_sell = Order::LimitMarket(UnconditionalOrder::new(1, false, 20, Some(1000)));
    let limit_buy = Order::LimitMarket(UnconditionalOrder::new(2, true, 10, Some(1100)));
    let market_buy = Order::LimitMarket(UnconditionalOrder::new(3, true, 10, None));
    let mut order_book = Orderbook::new("tester".to_string());

    let _ = order_book.resolve_order(large_limit_sell);
    let mut trade = as_map(order_book.resolve_order(limit_buy));
    let second_trade = as_map(order_book.resolve_order(market_buy));
    trade.extend(second_trade);

    let limit_sell_inner = UnconditionalOrder::new(1, false, 10, Some(1000));
    let mut trade_predicted = HashMap::new();
    trade_predicted.insert(market_buy, vec![limit_sell_inner]);
    trade_predicted.insert(limit_buy, vec![limit_sell_inner]);
    assert_eq!(trade, trade_predicted);
}

#[test]
fn simple_stop_buy_transaction() {
    let large_limit_sell = Order::LimitMarket(UnconditionalOrder::new(1, false, 20, Some(1200)));
    let small_limit_sell = Order::LimitMarket(UnconditionalOrder::new(2, false, 3, Some(1100)));
    let large_limit_buy = Order::LimitMarket(UnconditionalOrder::new(3, true, 20, Some(1000)));
    let stop_market_sell = Order::StopLimit(ConditionalOrder::new(
        4,
        true,
        10,
        None,
        ConditionalType::StopAndReverse,
        1150,
    ));
    let market_buy = Order::LimitMarket(UnconditionalOrder::new(5, true, 10, None));
    let mut order_book = Orderbook::new("tester".to_string());

    let _ = order_book.resolve_order(large_limit_sell);
    let _ = order_book.resolve_order(small_limit_sell);
    let _ = order_book.resolve_order(large_limit_buy);
    let _ = order_book.resolve_order(stop_market_sell);
    let trade = as_map(order_book.resolve_order(market_buy));

    let trades_market_buy = vec![
        UnconditionalOrder::new(2, false, 3, Some(1100)),
        UnconditionalOrder::new(1, false, 7, Some(1200)),
    ];
    let trades_stop_sell = vec![UnconditionalOrder::new(3, true, 10, Some(1000))];
    let mut trade_predicted = HashMap::new();
    trade_predicted.insert(market_buy, trades_market_buy);
    trade_predicted.insert(stop_market_sell, trades_stop_sell);
    assert_eq!(trade, trade_predicted);
}
