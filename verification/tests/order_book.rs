use high_perf_trading::order_book::{Order, OrderBook};
use high_perf_trading::types::{OrderFlags, Side, TimeInForce};

fn ob() -> OrderBook {
    OrderBook::new(1)
}

fn order(order_id: u64, account_id: u32, side: Side, price: i64, qty_rem: i64) -> Order {
    Order {
        order_id,
        account_id,
        symbol_id: 1,
        side,
        price,
        qty_rem,
        flags: OrderFlags { post_only: false },
        tif: TimeInForce::Gtc,
    }
}

#[test]
fn resting_orders_set_top() {
    let mut b = ob();
    b.insert_resting(order(1, 10, Side::Buy, 99, 5));
    b.insert_resting(order(2, 11, Side::Sell, 101, 7));

    assert_eq!(b.best_bid(), Some((99, 5)));
    assert_eq!(b.best_ask(), Some((101, 7)));
    assert!(!b.would_cross(Side::Buy, 100));
    assert!(b.would_cross(Side::Buy, 101));
}

#[test]
fn match_buy_takes_best_ask_fifo() {
    let mut b = ob();
    b.insert_resting(order(10, 1, Side::Sell, 100, 3));
    b.insert_resting(order(11, 1, Side::Sell, 100, 4));

    let fills = b.match_taker(200, Side::Buy, 100, 5);

    assert_eq!(fills.len(), 2);
    assert_eq!(fills[0].maker_order_id, 10);
    assert_eq!(fills[0].qty, 3);
    assert_eq!(fills[1].maker_order_id, 11);
    assert_eq!(fills[1].qty, 2);

    assert_eq!(b.best_ask(), Some((100, 2)));
}

#[test]
fn cancel_removes_qty_from_top() {
    let mut b = ob();
    b.insert_resting(order(10, 1, Side::Sell, 100, 3));
    b.insert_resting(order(11, 2, Side::Sell, 100, 4));

    assert_eq!(b.best_ask(), Some((100, 7)));

    assert!(b.cancel(10, 1));
    assert_eq!(b.best_ask(), Some((100, 4)));

    assert!(!b.cancel(11, 99));
    assert_eq!(b.best_ask(), Some((100, 4)));
}

#[test]
fn match_sell_takes_best_bid() {
    let mut b = ob();
    b.insert_resting(order(1, 1, Side::Buy, 101, 2));
    b.insert_resting(order(2, 1, Side::Buy, 100, 10));

    let fills = b.match_taker(9, Side::Sell, 100, 3);

    assert_eq!(fills.len(), 2);
    assert_eq!(fills[0].price, 101);
    assert_eq!(fills[0].qty, 2);
    assert_eq!(fills[1].price, 100);
    assert_eq!(fills[1].qty, 1);

    assert_eq!(b.best_bid(), Some((100, 9)));
}

#[test]
fn match_stops_at_the_limit_price() {
    let mut b = ob();
    b.insert_resting(order(1, 1, Side::Sell, 100, 2));
    b.insert_resting(order(2, 1, Side::Sell, 105, 2));
    let fills = b.match_taker(9, Side::Buy, 102, 10);
    assert_eq!(fills.len(), 1);
    assert_eq!(fills[0].price, 100);
    assert_eq!(fills[0].taker_order_id, 9);
    assert_eq!(b.best_ask(), Some((105, 2)));
}

#[test]
fn no_cross_no_fill() {
    let mut b = ob();
    b.insert_resting(order(1, 1, Side::Sell, 100, 2));
    let fills = b.match_taker(9, Side::Buy, 99, 10);
    assert!(fills.is_empty());
    assert_eq!(b.best_ask(), Some((100, 2)));
    assert_eq!(b.live_order_count(), 1);
}

#[test]
fn rest_then_cancel_restores_book() {
    let mut b = ob();
    b.insert_resting(order(1, 1, Side::Buy, 99, 5));
    b.insert_resting(order(2, 7, Side::Buy, 98, 3));
    assert_eq!(b.live_order_count(), 2);
    assert!(b.cancel(2, 7));
    assert_eq!(b.live_order_count(), 1);
    assert_eq!(b.best_bid(), Some((99, 5)));
    assert_eq!(b.level_total(Side::Buy, 98), 0);
    assert!(b.get(2).is_none());
}

#[test]
fn replace_moves_order_to_back_of_new_level() {
    let mut b = ob();
    b.insert_resting(order(1, 1, Side::Sell, 100, 5));
    b.insert_resting(order(2, 1, Side::Sell, 101, 5));
    assert!(b.replace(1, 1, 101, 3));
    assert_eq!(b.best_ask(), Some((101, 8)));
    let fills = b.match_taker(9, Side::Buy, 101, 6);
    assert_eq!(fills[0].maker_order_id, 2);
    assert_eq!(fills[0].qty, 5);
    assert_eq!(fills[1].maker_order_id, 1);
    assert_eq!(fills[1].qty, 1);
    assert!(!b.replace(1, 2, 100, 1));
}

#[test]
fn snapshot_orders_restore_same_book() {
    let mut b = ob();
    b.insert_resting(order(1, 1, Side::Sell, 100, 5));
    b.insert_resting(order(2, 2, Side::Buy, 95, 4));
    b.insert_resting(order(3, 3, Side::Buy, 95, 1));
    let orders = b.live_orders();
    assert_eq!(orders.len(), 3);
    let mut c = OrderBook::new(1);
    assert_eq!(c.restore_from_snapshot(&orders), Ok(()));
    assert_eq!(c.best_bid(), Some((95, 5)));
    assert_eq!(c.best_ask(), Some((100, 5)));
    assert_eq!(c.live_order_count(), 3);
    assert_eq!(c.symbol(), 1);
}

#[test]
fn restore_refuses_an_order_without_quantity() {
    let mut c = OrderBook::new(1);
    let orders = vec![order(1, 1, Side::Sell, 100, 5), order(2, 1, Side::Sell, 100, 0)];
    assert_eq!(c.restore_from_snapshot(&orders), Err(1));
    assert_eq!(c.best_ask(), Some((100, 5)));
}

#[test]
fn sweep_takes_better_prices_first() {
    let mut b = ob();
    b.insert_resting(order(1, 1, Side::Sell, 103, 2));
    b.insert_resting(order(2, 1, Side::Sell, 101, 2));
    b.insert_resting(order(3, 1, Side::Sell, 102, 2));
    b.insert_resting(order(4, 1, Side::Sell, 101, 1));

    let fills = b.match_taker(9, Side::Buy, 103, 6);
    let seen: Vec<(u64, i64, i64)> = fills.iter().map(|f| (f.maker_order_id, f.price, f.qty)).collect();
    assert_eq!(seen, vec![(2, 101, 2), (4, 101, 1), (3, 102, 2), (1, 103, 1)]);
    assert_eq!(b.best_ask(), Some((103, 1)));

    let mut s = ob();
    s.insert_resting(order(5, 1, Side::Buy, 98, 1));
    s.insert_resting(order(6, 1, Side::Buy, 99, 1));
    let fills = s.match_taker(10, Side::Sell, 98, 5);
    let prices: Vec<i64> = fills.iter().map(|f| f.price).collect();
    assert_eq!(prices, vec![99, 98]);
    assert_eq!(s.best_bid(), None);
}

#[test]
fn snapshot_after_trading_keeps_every_level() {
    let mut b = ob();
    b.insert_resting(order(1, 1, Side::Sell, 101, 4));
    b.insert_resting(order(2, 2, Side::Sell, 102, 3));
    b.insert_resting(order(3, 3, Side::Buy, 99, 2));
    b.insert_resting(order(4, 4, Side::Buy, 98, 6));
    assert!(b.cancel(3, 3));
    let _ = b.match_taker(10, Side::Buy, 101, 1);
    b.insert_resting(order(5, 5, Side::Sell, 101, 2));

    let orders = b.live_orders();
    let mut c = OrderBook::new(1);
    assert_eq!(c.restore_from_snapshot(&orders), Ok(()));
    for px in [98, 99, 101, 102] {
        assert_eq!(c.level_total(Side::Buy, px), b.level_total(Side::Buy, px));
        assert_eq!(c.level_total(Side::Sell, px), b.level_total(Side::Sell, px));
    }
    assert_eq!(c.best_bid(), Some((98, 6)));
    assert_eq!(c.best_ask(), Some((101, 5)));
    assert_eq!(c.best_bid(), b.best_bid());
    assert_eq!(c.best_ask(), b.best_ask());
}

#[test]
fn snapshot_keeps_time_priority_after_slot_reuse() {
    let mut b = ob();
    b.insert_resting(order(1, 1, Side::Sell, 100, 2));
    b.insert_resting(order(2, 2, Side::Sell, 101, 3));
    let fills = b.match_taker(9, Side::Buy, 100, 2);
    assert_eq!(fills.len(), 1);
    // Order 3 reuses the slot that order 1 left, but arrives after order 2.
    b.insert_resting(order(3, 3, Side::Sell, 101, 4));

    let orders = b.live_orders();
    let mut c = OrderBook::new(1);
    assert_eq!(c.restore_from_snapshot(&orders), Ok(()));
    let fills = c.match_taker(10, Side::Buy, 101, 1);
    assert_eq!(fills.len(), 1);
    assert_eq!(fills[0].maker_order_id, 2);
}
