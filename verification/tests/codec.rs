use high_perf_trading::codec::{BinaryCodec, JsonCodec};
use high_perf_trading::types::{
    AccountState, Ack, AuthSuccess, Authenticate, BookTop, Cancel, Command, Event, Fill, NewOrder, OrderFlags, Position,
    ProtoError, QueryAccount, Reject, RejectReason, Replace, RiskLimits, SetRiskLimits, Side, TimeInForce,
};

fn new_order_bytes(side: u8, tif: u8, post_only: u8) -> Vec<u8> {
    let mut p = Vec::new();
    p.extend_from_slice(&1u16.to_le_bytes());
    p.extend_from_slice(&7u64.to_le_bytes());
    p.extend_from_slice(&99u64.to_le_bytes());
    p.extend_from_slice(&3u32.to_le_bytes());
    p.extend_from_slice(&1u32.to_le_bytes());
    p.push(side);
    p.extend_from_slice(&(-5i64).to_le_bytes());
    p.extend_from_slice(&10i64.to_le_bytes());
    p.push(tif);
    p.push(post_only);
    p
}

#[test]
fn names() {
    assert_eq!(BinaryCodec.name(), "binary");
    assert_eq!(JsonCodec.name(), "json");
}

#[test]
fn decodes_a_new_order() {
    let c = BinaryCodec;
    match c.decode_command(&new_order_bytes(1, 1, 1)).unwrap() {
        Command::NewOrder(o) => {
            assert_eq!(o.client_seq, 7);
            assert_eq!(o.order_id, 99);
            assert_eq!(o.account_id, 3);
            assert_eq!(o.symbol_id, 1);
            assert_eq!(o.side, Side::Sell);
            assert_eq!(o.price, -5);
            assert_eq!(o.qty, 10);
            assert_eq!(o.tif, TimeInForce::Ioc);
            assert_eq!(o.flags, OrderFlags { post_only: true });
        }
        _ => panic!("expected a new order"),
    }
}

#[test]
fn decode_errors() {
    let c = BinaryCodec;
    assert_eq!(c.decode_command(&[1]), Err(ProtoError::Malformed("binary: missing msg_type")));
    assert_eq!(c.decode_command(&[9, 0]), Err(ProtoError::Malformed("binary: unknown msg_type")));
    assert_eq!(c.decode_command(&new_order_bytes(2, 0, 0)), Err(ProtoError::Malformed("binary: bad side")));
    assert_eq!(c.decode_command(&new_order_bytes(0, 2, 0)), Err(ProtoError::Malformed("binary: bad tif")));
    assert_eq!(c.decode_command(&new_order_bytes(0, 0, 2)), Err(ProtoError::Malformed("binary: bad post_only")));
    let b = new_order_bytes(0, 0, 0);
    assert_eq!(c.decode_command(&b[..44]), Err(ProtoError::Malformed("binary: underrun")));
    assert_eq!(c.decode_command(&b[..20]), Err(ProtoError::Malformed("binary: underrun")));
}

#[test]
fn decodes_a_query() {
    let mut p = Vec::new();
    p.extend_from_slice(&5u16.to_le_bytes());
    p.extend_from_slice(&20u64.to_le_bytes());
    p.extend_from_slice(&1u32.to_le_bytes());
    p.extend_from_slice(&2u32.to_le_bytes());
    p.push(0xaa);
    assert_eq!(
        BinaryCodec.decode_command(&p),
        Ok(Command::QueryAccount(QueryAccount { client_seq: 20, account_id: 1, symbol_id: 2 }))
    );
}

#[test]
fn encodes_events() {
    let c = BinaryCodec;
    let mut out = vec![0xee];
    c.encode_event(&Event::Ack(Ack { server_seq: 1, client_seq: 2, order_id: 3 }), &mut out).unwrap();
    let mut want = vec![0xee, 101, 0];
    want.extend_from_slice(&1u64.to_le_bytes());
    want.extend_from_slice(&2u64.to_le_bytes());
    want.extend_from_slice(&3u64.to_le_bytes());
    assert_eq!(out, want);

    let mut out = Vec::new();
    c.encode_event(
        &Event::Reject(Reject { server_seq: 4, client_seq: 5, order_id: None, reason: RejectReason::PostOnlyWouldCross }),
        &mut out,
    )
    .unwrap();
    assert_eq!(out.len(), 2 + 8 + 8 + 1 + 1);
    assert_eq!(out[18], 5);
    assert_eq!(out[19], 0);

    let mut out = Vec::new();
    c.encode_event(
        &Event::BookTop(BookTop { server_seq: 1, symbol_id: 1, best_bid_px: Some(99), best_bid_qty: Some(5), best_ask_px: None, best_ask_qty: None }),
        &mut out,
    )
    .unwrap();
    assert_eq!(out.len(), 2 + 8 + 4 + 9 + 9 + 1 + 1);

    let mut out = Vec::new();
    c.encode_event(
        &Event::Fill(Fill { server_seq: 1, client_seq: 2, symbol_id: 3, taker_order_id: 4, maker_order_id: 5, price: -6, qty: 7 }),
        &mut out,
    )
    .unwrap();
    assert_eq!(&out[0..2], &[103, 0]);
    assert_eq!(&out[38..46], &(-6i64).to_le_bytes());

    let mut out = Vec::new();
    assert_eq!(
        c.encode_event(&Event::AuthSuccess(AuthSuccess { account_id: 1 }), &mut out),
        Err(ProtoError::Malformed("binary: unsupported event"))
    );
    assert!(out.is_empty());
}

#[test]
fn events_roundtrip_through_the_binary_format() {
    let c = BinaryCodec;
    let evs = vec![
        Event::Ack(Ack { server_seq: 1, client_seq: 2, order_id: 3 }),
        Event::Reject(Reject { server_seq: 4, client_seq: 5, order_id: Some(6), reason: RejectReason::Risk }),
        Event::Reject(Reject { server_seq: 4, client_seq: 5, order_id: None, reason: RejectReason::RateLimitExceeded }),
        Event::Fill(Fill { server_seq: 1, client_seq: 2, symbol_id: 3, taker_order_id: 4, maker_order_id: 5, price: -6, qty: 7 }),
        Event::BookTop(BookTop { server_seq: 9, symbol_id: 1, best_bid_px: None, best_bid_qty: None, best_ask_px: Some(101), best_ask_qty: Some(3) }),
        Event::AccountState(AccountState {
            server_seq: 1,
            client_seq: 2,
            account_id: 3,
            symbol_id: 4,
            position: Position { net_position: -5, avg_price: 6, realized_pnl: -7 },
            risk_limits: RiskLimits { max_long_position: 8, max_short_position: 9, max_order_size: 10 },
        }),
    ];
    for ev in evs {
        let mut out = Vec::new();
        c.encode_event(&ev, &mut out).unwrap();
        out.push(0xff);
        assert_eq!(c.decode_event(&out), Ok(ev));
    }
    assert_eq!(c.decode_event(&[104, 0, 0]), Err(ProtoError::Malformed("binary: underrun")));
    let mut bad = Vec::new();
    c.encode_event(&Event::Reject(Reject { server_seq: 1, client_seq: 1, order_id: None, reason: RejectReason::Risk }), &mut bad).unwrap();
    bad[18] = 9;
    assert_eq!(c.decode_event(&bad), Err(ProtoError::Malformed("binary: bad reason")));
}

#[test]
fn commands_roundtrip_through_the_binary_format() {
    let c = BinaryCodec;
    let cmds = vec![
        Command::NewOrder(NewOrder {
            client_seq: 1,
            order_id: 2,
            account_id: 3,
            symbol_id: 4,
            side: Side::Buy,
            price: 100,
            qty: 5,
            tif: TimeInForce::Gtc,
            flags: OrderFlags { post_only: true },
        }),
        Command::Cancel(Cancel { client_seq: 1, order_id: 2, account_id: 3, symbol_id: 4 }),
        Command::Replace(Replace { client_seq: 1, order_id: 2, account_id: 3, symbol_id: 4, new_price: -5, new_qty: 6 }),
        Command::SetRiskLimits(SetRiskLimits {
            client_seq: 1,
            account_id: 2,
            symbol_id: 3,
            limits: RiskLimits { max_long_position: 4, max_short_position: 5, max_order_size: 6 },
        }),
        Command::QueryAccount(QueryAccount { client_seq: 1, account_id: 2, symbol_id: 3 }),
    ];
    for cmd in cmds {
        let mut out = Vec::new();
        c.encode_command(&cmd, &mut out).unwrap();
        assert_eq!(c.decode_command(&out), Ok(cmd));
    }
    let mut out = Vec::new();
    assert_eq!(
        c.encode_command(&Command::Authenticate(Authenticate { api_key: "k".to_string() }), &mut out),
        Err(ProtoError::Malformed("binary: unsupported command"))
    );
    assert!(out.is_empty());
}
