use std::cmp::Ordering;
use std::collections::hash_map::DefaultHasher;
use std::hash::{Hash, Hasher};

use craes::config::Config;
use craes::order::{ConditionalOrder, ConditionalType, Order, OrderComplement, UnconditionalOrder};
use craes::orderbook::{Orderbook, Trade};
use craes::setup::ExchangeSetup;

fn fills_of<'a>(trades: &'a [Trade], order: &Order) -> &'a Vec<UnconditionalOrder> {
    &trades.iter().find(|t| t.order == *order).expect("entry for the order").fills
}

#[test]
fn stop_order_round_trip() {
    let stop = ConditionalOrder::new(7, true, 12, Some(1500), ConditionalType::StopLoss, 1400);
    let parts: (UnconditionalOrder, OrderComplement) = stop.into();
    // a stop-loss order trades on the other side
    assert!(!parts.0.buy);
    assert_eq!(parts.0.id, 7);
    assert_eq!(parts.0.volume, 12);
    assert_eq!(parts.0.limit_price, Some(1500));
    assert_eq!(parts.1, OrderComplement { trigger_price: 1400, condition: ConditionalType::StopLoss });
    let back = ConditionalOrder::from(parts);
    assert!(back.buy);
    assert_eq!(back.id, 7);
    assert_eq!(back.volume, 12);
    assert_eq!(back.limit_price, Some(1500));
    assert_eq!(back.trigger_price, 1400);
    assert_eq!(back.condition, ConditionalType::StopLoss);
    assert_eq!(back.created_at, stop.created_at);
    assert!(back.filled_at.is_none());
}

#[test]
fn stop_and_reverse_keeps_its_side() {
    let stop = ConditionalOrder::new(8, false, 3, None, ConditionalType::StopAndReverse, 900);
    let parts: (UnconditionalOrder, OrderComplement) = stop.into();
    assert!(!parts.0.buy);
    let back = ConditionalOrder::from(parts);
    assert!(!back.buy);
    assert_eq!(back.condition, ConditionalType::StopAndReverse);
}

#[test]
fn split_at_volume_splits_and_saturates() {
    let mut o = UnconditionalOrder::new(1, false, 10, Some(1000));
    let part = o.split_at_volume(4);
    assert_eq!(o.volume, 6);
    assert_eq!(part.volume, 4);
    assert_eq!(part.id, 1);
    assert_eq!(part.limit_price, Some(1000));
    let rest = o.split_at_volume(9);
    assert_eq!(o.volume, 0);
    assert_eq!(rest.volume, 9);
}

#[test]
fn fill_marks_the_order() {
    let mut o = UnconditionalOrder::new(1, true, 10, None);
    assert!(o.filled_at.is_none());
    o.fill();
    assert!(o.filled_at.is_some());
    assert_eq!(o.volume, 10);
}

#[test]
fn trade_directions() {
    assert_eq!(UnconditionalOrder::new(1, true, 1, None).trade_direction(), 1);
    assert_eq!(UnconditionalOrder::new(1, false, 1, None).trade_direction(), -1);
    assert_eq!(ConditionalOrder::new(1, true, 1, None, ConditionalType::StopLoss, 5).trade_direction(), 1);
    assert_eq!(ConditionalOrder::new(1, false, 1, None, ConditionalType::StopLoss, 5).trade_direction(), -1);
}

#[test]
fn orders_equal_by_id_and_volume() {
    let a = UnconditionalOrder::new(1, true, 10, Some(1000));
    let b = UnconditionalOrder::new(1, false, 10, None);
    let c = UnconditionalOrder::new(1, true, 11, Some(1000));
    assert_eq!(a, b);
    assert_ne!(a, c);
    assert_ne!(
        Order::LimitMarket(a),
        Order::StopLimit(ConditionalOrder::new(1, true, 10, None, ConditionalType::StopLoss, 1))
    );
}

#[test]
fn comparisons_follow_signed_price_then_volume() {
    let sell_low = UnconditionalOrder::new(1, false, 10, Some(1000));
    let sell_high = UnconditionalOrder::new(2, false, 10, Some(1100));
    // for sells a lower price compares greater
    assert_eq!(sell_low.partial_cmp(&sell_high), Some(Ordering::Greater));
    let buy_low = UnconditionalOrder::new(3, true, 10, Some(1000));
    let buy_high = UnconditionalOrder::new(4, true, 5, Some(1100));
    assert_eq!(buy_low.partial_cmp(&buy_high), Some(Ordering::Less));
    let market = UnconditionalOrder::new(5, true, 10, None);
    assert_eq!(market.partial_cmp(&buy_low), Some(Ordering::Less));
    let buy_low_big = UnconditionalOrder::new(6, true, 20, Some(1000));
    assert_eq!(buy_low.partial_cmp(&buy_low_big), Some(Ordering::Less));
    assert_eq!(buy_low.partial_cmp(&buy_low), Some(Ordering::Equal));

    let s1 = ConditionalOrder::new(1, true, 10, None, ConditionalType::StopLoss, 1200);
    let s2 = ConditionalOrder::new(2, true, 10, Some(900), ConditionalType::StopLoss, 1200);
    let s3 = ConditionalOrder::new(3, true, 10, None, ConditionalType::StopLoss, 1300);
    assert_eq!(s1.partial_cmp(&s2), Some(Ordering::Less));
    assert_eq!(s1.partial_cmp(&s3), Some(Ordering::Less));
    assert_eq!(s3.partial_cmp(&s2), Some(Ordering::Greater));
}

#[test]
fn stop_order_only_rests() {
    let mut book = Orderbook::new("tester".to_string());
    let stop = Order::StopLimit(ConditionalOrder::new(1, true, 10, None, ConditionalType::StopAndReverse, 1000));
    let trades = book.resolve_order(stop);
    assert!(trades.is_empty());
}

#[test]
fn order_out_of_reach_rests_and_trades_later() {
    let mut book = Orderbook::new("tester".to_string());
    let sell = Order::LimitMarket(UnconditionalOrder::new(1, false, 10, Some(1100)));
    let t1 = book.resolve_order(sell);
    assert_eq!(t1.len(), 1);
    assert_eq!(t1[0].order, sell);
    assert!(t1[0].fills.is_empty());
    let buy = Order::LimitMarket(UnconditionalOrder::new(2, true, 10, Some(1000)));
    let t2 = book.resolve_order(buy);
    assert_eq!(t2.len(), 1);
    assert!(t2[0].fills.is_empty());
    // a buy that reaches the resting sell trades against it, leaving the resting buy alone
    let buy2 = Order::LimitMarket(UnconditionalOrder::new(3, true, 4, Some(1200)));
    let t3 = book.resolve_order(buy2);
    assert_eq!(fills_of(&t3, &buy2), &vec![UnconditionalOrder::new(1, false, 4, Some(1100))]);
    assert!(fills_of(&t3, &buy2)[0].filled_at.is_some());
    // the resting buy is found by a sell at its price
    let sell2 = Order::LimitMarket(UnconditionalOrder::new(4, false, 10, Some(1000)));
    let t4 = book.resolve_order(sell2);
    assert_eq!(fills_of(&t4, &sell2), &vec![UnconditionalOrder::new(2, true, 10, Some(1000))]);
}

#[test]
fn market_order_on_empty_book_is_dropped() {
    let mut book = Orderbook::new("tester".to_string());
    let market = Order::LimitMarket(UnconditionalOrder::new(1, true, 10, None));
    let t1 = book.resolve_order(market);
    assert_eq!(t1.len(), 1);
    assert!(t1[0].fills.is_empty());
    let sell = Order::LimitMarket(UnconditionalOrder::new(2, false, 10, None));
    let t2 = book.resolve_order(sell);
    assert!(fills_of(&t2, &sell).is_empty());
}

#[test]
fn best_price_is_served_first_and_equal_ranks_in_arrival_order() {
    let mut book = Orderbook::new("tester".to_string());
    let _ = book.resolve_order(Order::LimitMarket(UnconditionalOrder::new(1, false, 5, Some(1100))));
    let _ = book.resolve_order(Order::LimitMarket(UnconditionalOrder::new(2, false, 5, Some(1000))));
    let _ = book.resolve_order(Order::LimitMarket(UnconditionalOrder::new(3, false, 5, Some(1000))));
    let market = Order::LimitMarket(UnconditionalOrder::new(4, true, 15, None));
    let t = book.resolve_order(market);
    let ids: Vec<u32> = fills_of(&t, &market).iter().map(|o| o.id).collect();
    assert_eq!(ids, vec![2, 3, 1]);
}

#[test]
fn limit_order_never_trades_beyond_its_limit() {
    let mut book = Orderbook::new("tester".to_string());
    let _ = book.resolve_order(Order::LimitMarket(UnconditionalOrder::new(1, false, 5, Some(1000))));
    let _ = book.resolve_order(Order::LimitMarket(UnconditionalOrder::new(2, false, 5, Some(1050))));
    let _ = book.resolve_order(Order::LimitMarket(UnconditionalOrder::new(3, false, 5, Some(1100))));
    let buy = Order::LimitMarket(UnconditionalOrder::new(4, true, 15, Some(1050)));
    let t = book.resolve_order(buy);
    assert_eq!(t.last().unwrap().order, buy);
    let fills = fills_of(&t, &buy);
    assert_eq!(fills.iter().map(|o| o.id).collect::<Vec<u32>>(), vec![1, 2]);
    assert!(fills.iter().all(|o| o.limit_price.unwrap() <= 1050));
    assert_eq!(fills.iter().map(|o| o.volume).sum::<u32>(), 10);
}

#[test]
fn partly_filled_limit_order_rests_with_its_unfilled_volume() {
    let mut book = Orderbook::new("tester".to_string());
    let _ = book.resolve_order(Order::LimitMarket(UnconditionalOrder::new(1, false, 3, Some(1000))));
    let bid = Order::LimitMarket(UnconditionalOrder::new(2, true, 10, Some(1100)));
    let t = book.resolve_order(bid);
    assert_eq!(fills_of(&t, &bid), &vec![UnconditionalOrder::new(1, false, 3, Some(1000))]);
    let sell = Order::LimitMarket(UnconditionalOrder::new(3, false, 10, None));
    let t2 = book.resolve_order(sell);
    assert_eq!(t2.len(), 1);
    assert_eq!(fills_of(&t2, &sell), &vec![UnconditionalOrder::new(2, true, 7, Some(1100))]);
    // nothing of the bid is left
    let sell2 = Order::LimitMarket(UnconditionalOrder::new(4, false, 10, None));
    let t3 = book.resolve_order(sell2);
    assert!(fills_of(&t3, &sell2).is_empty());
}

#[test]
fn stop_loss_triggers_when_the_book_reaches_it() {
    let mut book = Orderbook::new("tester".to_string());
    // resting sells at 10.00 and 10.50
    let _ = book.resolve_order(Order::LimitMarket(UnconditionalOrder::new(1, false, 5, Some(1000))));
    let _ = book.resolve_order(Order::LimitMarket(UnconditionalOrder::new(2, false, 5, Some(1050))));
    // a resting buy at 9.00
    let _ = book.resolve_order(Order::LimitMarket(UnconditionalOrder::new(3, true, 5, Some(900))));
    // a buy stop-loss at 10.00: once triggered it trades, as a sell, against the
    // same book as the order that triggered it, and before that order
    let stop = Order::StopLimit(ConditionalOrder::new(4, true, 2, None, ConditionalType::StopLoss, 1000));
    let _ = book.resolve_order(stop);
    let buy = Order::LimitMarket(UnconditionalOrder::new(5, true, 5, Some(1000)));
    let t = book.resolve_order(buy);
    assert_eq!(t.len(), 2);
    assert_eq!(t[1].order, buy);
    assert_eq!(fills_of(&t, &stop), &vec![UnconditionalOrder::new(1, false, 2, Some(1000))]);
    assert_eq!(fills_of(&t, &buy), &vec![UnconditionalOrder::new(1, false, 3, Some(1000))]);
}

#[test]
fn stop_loss_waits_for_a_resting_order_at_its_trigger() {
    let mut book = Orderbook::new("tester".to_string());
    let _ = book.resolve_order(Order::LimitMarket(UnconditionalOrder::new(1, false, 5, Some(900))));
    let stop = Order::StopLimit(ConditionalOrder::new(2, true, 2, None, ConditionalType::StopLoss, 1000));
    let _ = book.resolve_order(stop);
    let buy = Order::LimitMarket(UnconditionalOrder::new(3, true, 5, Some(1000)));
    let t = book.resolve_order(buy);
    assert_eq!(t.len(), 1);
    assert_eq!(fills_of(&t, &buy), &vec![UnconditionalOrder::new(1, false, 5, Some(900))]);
}

#[test]
fn default_config_and_database_params() {
    let c = Config::default();
    assert_eq!(c.server_addr, "127.0.0.1");
    assert_eq!(c.server_port, 8080);
    assert_eq!(c.database_port, 5432);
    assert_eq!(c.database_params(), "host=127.0.0.1 user=postgres dbname=craes port=5432");
    let d = Config {
        server_addr: "0.0.0.0".to_string(),
        server_port: 1,
        database_addr: "10.0.0.2".to_string(),
        database_user: "exchange".to_string(),
        database_name: "book".to_string(),
        database_port: 0,
    };
    assert_eq!(d.database_params(), "host=10.0.0.2 user=exchange dbname=book port=0");
}

#[test]
fn exchange_setup_from_rows() {
    let setup = ExchangeSetup::from_rows(
        &vec![1, 65537, -1],
        vec![
            ("alice".to_string(), "one".to_string()),
            ("bob".to_string(), "two".to_string()),
            ("alice".to_string(), "three".to_string()),
        ],
        -1,
    );
    assert_eq!(setup.asset_ids, vec![1u16, 1, 65535]);
    assert_eq!(setup.max_order_id_at_boot, u32::MAX);
    assert_eq!(setup.auth_pairs.passphrase(&"alice".to_string()), Some(&"three".to_string()));
    assert_eq!(setup.auth_pairs.passphrase(&"bob".to_string()), Some(&"two".to_string()));
    assert_eq!(setup.auth_pairs.passphrase(&"carol".to_string()), None);
}

#[test]
fn triggered_stop_order_leaves_its_book() {
    let mut book = Orderbook::new("tester".to_string());
    let _ = book.resolve_order(Order::LimitMarket(UnconditionalOrder::new(1, true, 50, Some(900))));
    let stop = Order::StopLimit(ConditionalOrder::new(2, true, 5, None, ConditionalType::StopAndReverse, 1000));
    let _ = book.resolve_order(stop);
    let first = Order::LimitMarket(UnconditionalOrder::new(3, true, 1, None));
    let t1 = book.resolve_order(first);
    assert_eq!(t1.len(), 2);
    assert_eq!(fills_of(&t1, &stop), &vec![UnconditionalOrder::new(1, true, 5, Some(900))]);
    let second = Order::LimitMarket(UnconditionalOrder::new(4, true, 1, None));
    let t2 = book.resolve_order(second);
    assert_eq!(t2.len(), 1);
    assert_eq!(t2[0].order, second);
}

#[test]
fn trades_the_lesser_of_volume_and_reachable_volume() {
    let mut book = Orderbook::new("tester".to_string());
    let _ = book.resolve_order(Order::LimitMarket(UnconditionalOrder::new(1, false, 5, Some(1000))));
    let _ = book.resolve_order(Order::LimitMarket(UnconditionalOrder::new(2, false, 5, Some(1050))));
    let _ = book.resolve_order(Order::LimitMarket(UnconditionalOrder::new(3, false, 5, Some(1100))));
    // 10 within reach, 12 wanted: trades 10 and rests with 2
    let buy = Order::LimitMarket(UnconditionalOrder::new(4, true, 12, Some(1050)));
    let t = book.resolve_order(buy);
    assert_eq!(fills_of(&t, &buy).iter().map(|o| o.volume).sum::<u32>(), 10);
    let sell = Order::LimitMarket(UnconditionalOrder::new(5, false, 10, None));
    let t2 = book.resolve_order(sell);
    assert_eq!(fills_of(&t2, &sell), &vec![UnconditionalOrder::new(4, true, 2, Some(1050))]);
    // the sell at 11.00 is still there, with all of its volume
    let buy2 = Order::LimitMarket(UnconditionalOrder::new(6, true, 20, None));
    let t3 = book.resolve_order(buy2);
    assert_eq!(fills_of(&t3, &buy2), &vec![UnconditionalOrder::new(3, false, 5, Some(1100))]);
}

#[test]
fn symbol_is_kept() {
    let book = Orderbook::new("ACME".to_string());
    assert_eq!(book.symbol(), "ACME");
}

#[test]
fn equal_orders_hash_alike() {
    fn hash_of<T: Hash>(t: &T) -> u64 {
        let mut h = DefaultHasher::new();
        t.hash(&mut h);
        h.finish()
    }
    let a = Order::LimitMarket(UnconditionalOrder::new(1, true, 10, Some(1000)));
    let b = Order::LimitMarket(UnconditionalOrder::new(1, false, 10, None));
    assert_eq!(a, b);
    assert_eq!(hash_of(&a), hash_of(&b));
    let s1 = ConditionalOrder::new(2, true, 3, None, ConditionalType::StopLoss, 1);
    let s2 = ConditionalOrder::new(2, false, 3, Some(5), ConditionalType::StopAndReverse, 9);
    assert_eq!(hash_of(&s1), hash_of(&s2));
}

#[test]
fn order_book_prints_for_debugging() {
    let mut book = Orderbook::new("tester".to_string());
    let _ = book.resolve_order(Order::LimitMarket(UnconditionalOrder::new(1, false, 3, Some(1000))));
    let printed = format!("{:?}", book);
    assert!(printed.contains("tester"));
}
