use high_perf_trading::engine::{Engine, EngineConfig, RestoreError};
use high_perf_trading::order_book::Order;
use high_perf_trading::types::{Cancel, Command, Event, NewOrder, OrderFlags, RejectReason, Replace, Side, TimeInForce};

fn mk_engine() -> Engine {
    Engine::new()
}

fn new_order(client_seq: u64, order_id: u64, account_id: u32, side: Side, price: i64, qty: i64, tif: TimeInForce, post_only: bool) -> Command {
    Command::NewOrder(NewOrder {
        client_seq,
        order_id,
        account_id,
        symbol_id: 1,
        side,
        price,
        qty,
        tif,
        flags: OrderFlags { post_only },
    })
}

fn seq_of(ev: &Event) -> u64 {
    match ev {
        Event::Ack(a) => a.server_seq,
        Event::Reject(r) => r.server_seq,
        Event::Fill(f) => f.server_seq,
        Event::BookTop(b) => b.server_seq,
        Event::AccountState(a) => a.server_seq,
        _ => 0,
    }
}

#[test]
fn post_only_cross_rejects() {
    let mut e = mk_engine();
    let evs1 = e.process(new_order(1, 101, 1, Side::Sell, 100, 5, TimeInForce::Gtc, false));
    assert!(evs1.iter().any(|ev| matches!(ev, Event::Ack(_))));

    let evs2 = e.process(new_order(2, 202, 2, Side::Buy, 110, 1, TimeInForce::Gtc, true));
    assert!(evs2.iter().any(|ev| match ev {
        Event::Reject(r) => matches!(r.reason, RejectReason::PostOnlyWouldCross),
        _ => false,
    }));
}

#[test]
fn ioc_does_not_rest_remainder() {
    let mut e = mk_engine();
    let _ = e.process(new_order(1, 101, 1, Side::Sell, 100, 5, TimeInForce::Gtc, false));
    let evs = e.process(new_order(2, 202, 2, Side::Buy, 110, 10, TimeInForce::Ioc, false));

    let filled: i64 = evs
        .iter()
        .filter_map(|ev| match ev {
            Event::Fill(f) => Some(f.qty),
            _ => None,
        })
        .sum();
    assert_eq!(filled, 5);

    let top = evs
        .iter()
        .find_map(|ev| match ev {
            Event::BookTop(t) => Some(t),
            _ => None,
        })
        .expect("expected BookTop");
    assert_eq!(top.best_ask_px, None);
    assert_eq!(top.best_bid_px, None);
}

#[test]
fn replace_can_cross_and_fill() {
    let mut e = mk_engine();
    let _ = e.process(new_order(1, 101, 1, Side::Sell, 100, 5, TimeInForce::Gtc, false));
    let _ = e.process(new_order(2, 202, 2, Side::Buy, 90, 5, TimeInForce::Gtc, false));
    let evs = e.process(Command::Replace(Replace {
        client_seq: 3,
        order_id: 202,
        account_id: 2,
        symbol_id: 1,
        new_price: 110,
        new_qty: 5,
    }));

    assert!(evs.iter().any(|ev| match ev {
        Event::Fill(f) => f.price == 100 && f.qty == 5 && f.maker_order_id == 101 && f.taker_order_id == 202,
        _ => false,
    }));
}

#[test]
fn events_are_numbered_consecutively_and_end_with_the_answer() {
    let mut e = mk_engine();
    let a = e.process(new_order(1, 1, 1, Side::Sell, 100, 2, TimeInForce::Gtc, false));
    let b = e.process(new_order(2, 2, 1, Side::Sell, 100, 2, TimeInForce::Gtc, false));
    let c = e.process(new_order(3, 3, 2, Side::Buy, 100, 3, TimeInForce::Gtc, false));
    let all: Vec<u64> = a.iter().chain(b.iter()).chain(c.iter()).map(seq_of).collect();
    for (i, s) in all.iter().enumerate() {
        assert_eq!(*s, 1 + i as u64);
    }
    assert_eq!(c.len(), 4);
    assert!(matches!(c[2], Event::BookTop(_)));
    assert!(matches!(c[3], Event::Ack(ref k) if k.client_seq == 3 && k.order_id == 3));
}

#[test]
fn invalid_orders_are_rejected() {
    let mut e = mk_engine();
    let evs = e.process(new_order(7, 1, 1, Side::Buy, 100, 0, TimeInForce::Gtc, false));
    assert_eq!(evs.len(), 1);
    match &evs[0] {
        Event::Reject(r) => {
            assert_eq!(r.reason, RejectReason::Invalid);
            assert_eq!(r.client_seq, 7);
            assert_eq!(r.order_id, Some(1));
            assert_eq!(r.server_seq, 1);
        }
        _ => panic!("expected a reject"),
    }
    let mut wrong_symbol = NewOrder {
        client_seq: 8,
        order_id: 2,
        account_id: 1,
        symbol_id: 2,
        side: Side::Buy,
        price: 100,
        qty: 1,
        tif: TimeInForce::Gtc,
        flags: OrderFlags { post_only: false },
    };
    let evs = e.process(Command::NewOrder(wrong_symbol));
    assert!(matches!(evs[0], Event::Reject(ref r) if r.reason == RejectReason::Invalid && r.server_seq == 2));
    wrong_symbol.symbol_id = 1;
    let evs = e.process(Command::NewOrder(wrong_symbol));
    assert!(matches!(evs.last(), Some(Event::Ack(_))));
}

#[test]
fn cancel_of_unknown_or_foreign_order_is_not_found() {
    let mut e = mk_engine();
    let _ = e.process(new_order(1, 5, 1, Side::Buy, 99, 3, TimeInForce::Gtc, false));
    let evs = e.process(Command::Cancel(Cancel { client_seq: 2, order_id: 5, account_id: 9, symbol_id: 1 }));
    assert!(matches!(evs[0], Event::Reject(ref r) if r.reason == RejectReason::NotFound));
    let evs = e.process(Command::Cancel(Cancel { client_seq: 3, order_id: 5, account_id: 1, symbol_id: 1 }));
    assert_eq!(evs.len(), 2);
    match &evs[0] {
        Event::BookTop(t) => assert_eq!(t.best_bid_px, None),
        _ => panic!("expected a book top"),
    }
    assert!(matches!(evs[1], Event::Ack(ref a) if a.client_seq == 3 && a.order_id == 5));
}

#[test]
fn replay_rebuilds_the_book_without_events() {
    let cmds = vec![
        new_order(1, 1, 1, Side::Sell, 100, 5, TimeInForce::Gtc, false),
        new_order(2, 2, 2, Side::Buy, 100, 2, TimeInForce::Gtc, false),
        Command::Cancel(Cancel { client_seq: 3, order_id: 1, account_id: 1, symbol_id: 1 }),
        new_order(4, 3, 2, Side::Buy, 98, 4, TimeInForce::Gtc, false),
    ];
    let mut live = mk_engine();
    for c in cmds.iter() {
        let _ = live.process(c.clone());
    }
    let mut replayed = mk_engine();
    let n = replayed.replay(cmds.clone());
    assert_eq!(n, 4);
    let (count, orders) = replayed.snapshot_state();
    assert_eq!(count, 4);
    let (_, live_orders) = live.snapshot_state();
    assert_eq!(orders, live_orders);
    assert_eq!(orders.len(), 1);
    assert_eq!(orders[0].order_id, 3);
}

#[test]
fn restore_from_snapshot_then_journal() {
    let snap_orders = vec![Order {
        order_id: 1,
        account_id: 1,
        symbol_id: 1,
        side: Side::Sell,
        price: 100,
        qty_rem: 5,
        tif: TimeInForce::Gtc,
        flags: OrderFlags { post_only: false },
    }];
    let journal = vec![
        new_order(1, 1, 1, Side::Sell, 100, 5, TimeInForce::Gtc, false),
        new_order(2, 2, 2, Side::Buy, 100, 2, TimeInForce::Gtc, false),
    ];
    let mut e = mk_engine();
    assert_eq!(e.restore_from_persistence(Some((1, snap_orders)), &journal), Ok(1));
    let (count, orders) = e.snapshot_state();
    assert_eq!(count, 2);
    assert_eq!(orders[0].qty_rem, 3);
    let evs = e.process(new_order(9, 9, 3, Side::Buy, 90, 1, TimeInForce::Gtc, false));
    assert_eq!(seq_of(&evs[0]), 5);

    let mut bad = mk_engine();
    assert_eq!(bad.restore_from_persistence(Some((u64::MAX, vec![])), &journal), Err(RestoreError::SequenceOverflow));
}

#[test]
fn overloaded_reject_takes_a_sequence_number() {
    let mut e = mk_engine();
    let out = e.reject_overloaded(42, 7);
    assert_eq!(out.conn_id, 42);
    assert!(matches!(out.ev, Event::Reject(ref r) if r.server_seq == 1 && r.client_seq == 7 && r.order_id.is_none() && r.reason == RejectReason::Overloaded));
    assert!(e.can_process(&new_order(1, 1, 1, Side::Buy, 1, 1, TimeInForce::Gtc, false)));
}

#[test]
fn snapshot_interval() {
    let c = EngineConfig::default();
    assert_eq!(c.journal_path, "journal.bin");
    assert_eq!(c.snapshot_dir, "snapshots");
    assert_eq!(c.snapshot_interval, 100_000);
    assert!(c.snapshot_due(200_000));
    assert!(!c.snapshot_due(200_001));
}

#[test]
fn rejected_replace_keeps_the_order() {
    let mut e = mk_engine();
    let _ = e.process(new_order(1, 101, 1, Side::Sell, 100, 5, TimeInForce::Gtc, false));
    let _ = e.process(new_order(2, 202, 2, Side::Buy, 90, 5, TimeInForce::Gtc, true));
    let evs = e.process(Command::Replace(Replace {
        client_seq: 3,
        order_id: 202,
        account_id: 2,
        symbol_id: 1,
        new_price: 110,
        new_qty: 5,
    }));
    assert_eq!(evs.len(), 1);
    assert!(matches!(&evs[0], Event::Reject(r) if r.reason == RejectReason::PostOnlyWouldCross && r.order_id == Some(202)));
    let (_, orders) = e.snapshot_state();
    let o = orders.iter().find(|o| o.order_id == 202).expect("order 202 still rests");
    assert_eq!((o.price, o.qty_rem), (90, 5));
    // A cancel of it still succeeds.
    let evs = e.process(Command::Cancel(Cancel { client_seq: 4, order_id: 202, account_id: 2, symbol_id: 1 }));
    assert!(matches!(evs.last(), Some(Event::Ack(_))));
}

#[test]
fn replay_ignores_a_cancel_of_another_symbol() {
    let cmds = vec![
        new_order(1, 101, 1, Side::Sell, 100, 5, TimeInForce::Gtc, false),
        Command::Cancel(Cancel { client_seq: 2, order_id: 101, account_id: 1, symbol_id: 9 }),
    ];
    let mut replayed = mk_engine();
    assert_eq!(replayed.replay(cmds.clone()), 2);
    let mut processed = mk_engine();
    for c in cmds {
        let _ = processed.process(c);
    }
    assert_eq!(replayed.snapshot_state().1, processed.snapshot_state().1);
    assert_eq!(replayed.snapshot_state().1.len(), 1);
}

#[test]
fn book_never_crosses_after_commands() {
    let mut e = mk_engine();
    let cmds = vec![
        new_order(1, 1, 1, Side::Sell, 101, 3, TimeInForce::Gtc, false),
        new_order(2, 2, 1, Side::Sell, 103, 3, TimeInForce::Gtc, false),
        new_order(3, 3, 2, Side::Buy, 102, 5, TimeInForce::Gtc, false),
        new_order(4, 4, 2, Side::Buy, 99, 2, TimeInForce::Gtc, false),
        Command::Replace(Replace { client_seq: 5, order_id: 4, account_id: 2, symbol_id: 1, new_price: 104, new_qty: 1 }),
    ];
    for c in cmds {
        let evs = e.process(c);
        for ev in evs {
            if let Event::BookTop(b) = ev {
                if let (Some(bid), Some(ask)) = (b.best_bid_px, b.best_ask_px) {
                    assert!(bid < ask, "crossed book: {} >= {}", bid, ask);
                }
            }
        }
    }
    let (_, orders) = e.snapshot_state();
    // The buy at 102 took the ask at 101 and rests 2 at 102; the replace at 104 took 1 at 103.
    let bid = orders.iter().filter(|o| o.side == Side::Buy).map(|o| o.price).max();
    let ask = orders.iter().filter(|o| o.side == Side::Sell).map(|o| o.price).min();
    assert_eq!(bid, Some(102));
    assert_eq!(ask, Some(103));
}

#[test]
fn restore_refuses_only_an_order_that_cannot_rest() {
    let good = Order {
        order_id: 1,
        account_id: 1,
        symbol_id: 1,
        side: Side::Sell,
        price: 100,
        qty_rem: 5,
        tif: TimeInForce::Gtc,
        flags: OrderFlags { post_only: false },
    };
    let empty = Order { order_id: 2, qty_rem: 0, ..good };
    let journal: Vec<Command> = vec![];
    let mut e = mk_engine();
    assert_eq!(e.restore_from_persistence(Some((3, vec![good, good])), &journal), Ok(0));
    let mut f = mk_engine();
    assert_eq!(f.restore_from_persistence(Some((3, vec![good, empty])), &journal), Err(RestoreError::BadSnapshotOrder(1)));
}
