//! The binary wire format: events out, commands in. Every message starts with
//! a little-endian `u16` type; fields follow little-endian, with no padding.
use vstd::prelude::*;

use crate::types::{
    AccountState, Ack, BookTop, Cancel, Command, Event, Fill, NewOrder, OrderFlags, Position, ProtoError,
    QueryAccount, Reject, RejectReason, Replace, RiskLimits, SetRiskLimits, Side, TimeInForce,
};
use crate::wire::{get_u16, get_u32, get_u64, le16, le32, le64, put_u16, put_u32, put_u64, u16_le, u32_le, u64_le};

verus! {

pub const MT_NEW_ORDER: u16 = 1;
pub const MT_CANCEL: u16 = 2;
pub const MT_REPLACE: u16 = 3;
pub const MT_SET_RISK_LIMITS: u16 = 4;
pub const MT_QUERY_ACCOUNT: u16 = 5;
pub const MT_ACK: u16 = 101;
pub const MT_REJECT: u16 = 102;
pub const MT_FILL: u16 = 103;
pub const MT_BOOK_TOP: u16 = 104;
pub const MT_ACCOUNT_STATE: u16 = 105;

/// The binary codec.
#[derive(Clone, Copy, Debug, Default)]
pub struct BinaryCodec;

/// The JSON codec (its encoding is serde's, done where the messages are sent).
#[derive(Clone, Copy, Debug, Default)]
pub struct JsonCodec;

// ------------------------------------------------------------------
// The format.
// ------------------------------------------------------------------

/// The little-endian bytes of a signed 64-bit integer (its two's complement).
pub open spec fn le_i64(v: i64) -> Seq<u8> {
    le64(v as u64)
}

/// The byte that stands for a reject reason.
pub open spec fn reason_code(r: RejectReason) -> u8 {
    match r {
        RejectReason::Invalid => 1,
        RejectReason::Risk => 2,
        RejectReason::Overloaded => 3,
        RejectReason::NotFound => 4,
        RejectReason::PostOnlyWouldCross => 5,
        RejectReason::RateLimitExceeded => 6,
    }
}

/// An optional integer: a presence byte, then the value when present.
pub open spec fn opt_i64_bytes(v: Option<i64>) -> Seq<u8> {
    match v {
        Some(x) => seq![1u8] + le_i64(x),
        None => seq![0u8],
    }
}

/// The bytes of an event, for the events the format carries.
pub open spec fn event_bytes(ev: Event) -> Option<Seq<u8>> {
    match ev {
        Event::Ack(a) => Some(le16(MT_ACK) + le64(a.server_seq) + le64(a.client_seq) + le64(a.order_id)),
        Event::Reject(r) => Some(
            le16(MT_REJECT) + le64(r.server_seq) + le64(r.client_seq) + seq![reason_code(r.reason)]
                + match r.order_id {
                Some(id) => seq![1u8] + le64(id),
                None => seq![0u8],
            },
        ),
        Event::Fill(f) => Some(
            le16(MT_FILL) + le64(f.server_seq) + le64(f.client_seq) + le32(f.symbol_id) + le64(
                f.taker_order_id,
            ) + le64(f.maker_order_id) + le_i64(f.price) + le_i64(f.qty),
        ),
        Event::BookTop(b) => Some(
            le16(MT_BOOK_TOP) + le64(b.server_seq) + le32(b.symbol_id) + opt_i64_bytes(b.best_bid_px)
                + opt_i64_bytes(b.best_bid_qty) + opt_i64_bytes(b.best_ask_px) + opt_i64_bytes(
                b.best_ask_qty,
            ),
        ),
        Event::AccountState(a) => Some(
            le16(MT_ACCOUNT_STATE) + le64(a.server_seq) + le64(a.client_seq) + le32(a.account_id) + le32(
                a.symbol_id,
            ) + le_i64(a.position.net_position) + le_i64(a.position.avg_price) + le_i64(
                a.position.realized_pnl,
            ) + le_i64(a.risk_limits.max_long_position) + le_i64(a.risk_limits.max_short_position)
                + le_i64(a.risk_limits.max_order_size),
        ),
        _ => None,
    }
}

pub open spec fn rd16(b: Seq<u8>, at: int) -> u16 {
    u16_le(b.subrange(at, at + 2))
}

pub open spec fn rd32(b: Seq<u8>, at: int) -> u32 {
    u32_le(b.subrange(at, at + 4))
}

pub open spec fn rd64(b: Seq<u8>, at: int) -> u64 {
    u64_le(b.subrange(at, at + 8))
}

pub open spec fn underrun() -> ProtoError {
    ProtoError::Malformed("binary: underrun")
}

/// The command a message decodes to, or why it does not: fields are read in
/// order, each enumeration byte checked as soon as it is read; bytes after the
/// last field are ignored.
pub open spec fn decode_spec(b: Seq<u8>) -> Result<Command, ProtoError> {
    if b.len() < 2 {
        Err(ProtoError::Malformed("binary: missing msg_type"))
    } else {
        let mt = rd16(b, 0);
        if mt == MT_NEW_ORDER {
            if b.len() < 27 {
                Err(underrun())
            } else if b[26] > 1 {
                Err(ProtoError::Malformed("binary: bad side"))
            } else if b.len() < 44 {
                Err(underrun())
            } else if b[43] > 1 {
                Err(ProtoError::Malformed("binary: bad tif"))
            } else if b.len() < 45 {
                Err(underrun())
            } else if b[44] > 1 {
                Err(ProtoError::Malformed("binary: bad post_only"))
            } else {
                Ok(
                    Command::NewOrder(
                        NewOrder {
                            client_seq: rd64(b, 2),
                            order_id: rd64(b, 10),
                            account_id: rd32(b, 18),
                            symbol_id: rd32(b, 22),
                            side: if b[26] == 0 {
                                Side::Buy
                            } else {
                                Side::Sell
                            },
                            price: rd64(b, 27) as i64,
                            qty: rd64(b, 35) as i64,
                            tif: if b[43] == 0 {
                                TimeInForce::Gtc
                            } else {
                                TimeInForce::Ioc
                            },
                            flags: OrderFlags { post_only: b[44] == 1 },
                        },
                    ),
                )
            }
        } else if mt == MT_CANCEL {
            if b.len() < 26 {
                Err(underrun())
            } else {
                Ok(
                    Command::Cancel(
                        Cancel {
                            client_seq: rd64(b, 2),
                            order_id: rd64(b, 10),
                            account_id: rd32(b, 18),
                            symbol_id: rd32(b, 22),
                        },
                    ),
                )
            }
        } else if mt == MT_REPLACE {
            if b.len() < 42 {
                Err(underrun())
            } else {
                Ok(
                    Command::Replace(
                        Replace {
                            client_seq: rd64(b, 2),
                            order_id: rd64(b, 10),
                            account_id: rd32(b, 18),
                            symbol_id: rd32(b, 22),
                            new_price: rd64(b, 26) as i64,
                            new_qty: rd64(b, 34) as i64,
                        },
                    ),
                )
            }
        } else if mt == MT_SET_RISK_LIMITS {
            if b.len() < 42 {
                Err(underrun())
            } else {
                Ok(
                    Command::SetRiskLimits(
                        SetRiskLimits {
                            client_seq: rd64(b, 2),
                            account_id: rd32(b, 10),
                            symbol_id: rd32(b, 14),
                            limits: RiskLimits {
                                max_long_position: rd64(b, 18) as i64,
                                max_short_position: rd64(b, 26) as i64,
                                max_order_size: rd64(b, 34) as i64,
                            },
                        },
                    ),
                )
            }
        } else if mt == MT_QUERY_ACCOUNT {
            if b.len() < 18 {
                Err(underrun())
            } else {
                Ok(
                    Command::QueryAccount(
                        QueryAccount { client_seq: rd64(b, 2), account_id: rd32(b, 10), symbol_id: rd32(b, 14) },
                    ),
                )
            }
        } else {
            Err(ProtoError::Malformed("binary: unknown msg_type"))
        }
    }
}

/// The message that carries a command, for the commands the format carries.
pub open spec fn command_bytes(cmd: Command) -> Option<Seq<u8>> {
    match cmd {
        Command::NewOrder(o) => Some(
            le16(MT_NEW_ORDER) + le64(o.client_seq) + le64(o.order_id) + le32(o.account_id) + le32(
                o.symbol_id,
            ) + seq![
                match o.side {
                    Side::Buy => 0u8,
                    Side::Sell => 1u8,
                },
            ] + le_i64(o.price) + le_i64(o.qty) + seq![
                match o.tif {
                    TimeInForce::Gtc => 0u8,
                    TimeInForce::Ioc => 1u8,
                },
            ] + seq![
                if o.flags.post_only {
                    1u8
                } else {
                    0u8
                },
            ],
        ),
        Command::Cancel(c) => Some(
            le16(MT_CANCEL) + le64(c.client_seq) + le64(c.order_id) + le32(c.account_id) + le32(c.symbol_id),
        ),
        Command::Replace(r) => Some(
            le16(MT_REPLACE) + le64(r.client_seq) + le64(r.order_id) + le32(r.account_id) + le32(r.symbol_id)
                + le_i64(r.new_price) + le_i64(r.new_qty),
        ),
        Command::SetRiskLimits(s) => Some(
            le16(MT_SET_RISK_LIMITS) + le64(s.client_seq) + le32(s.account_id) + le32(s.symbol_id) + le_i64(
                s.limits.max_long_position,
            ) + le_i64(s.limits.max_short_position) + le_i64(s.limits.max_order_size),
        ),
        Command::QueryAccount(q) => Some(
            le16(MT_QUERY_ACCOUNT) + le64(q.client_seq) + le32(q.account_id) + le32(q.symbol_id),
        ),
        Command::Authenticate(_) => None,
    }
}

proof fn lemma_i64_bits(v: i64)
    by (bit_vector)
    ensures
        (v as u64) as i64 == v,
{
}

/// A command's message decodes back to the command, whatever bytes follow it.
pub proof fn lemma_command_roundtrip(cmd: Command, tail: Seq<u8>)
    requires
        command_bytes(cmd) is Some,
    ensures
        decode_spec(command_bytes(cmd).unwrap() + tail) == Ok::<Command, ProtoError>(cmd),
{
    match cmd {
        Command::NewOrder(o) => lemma_new_order_roundtrip(o, tail),
        Command::Cancel(c) => lemma_cancel_roundtrip(c, tail),
        Command::Replace(r) => lemma_replace_roundtrip(r, tail),
        Command::SetRiskLimits(x) => lemma_limits_roundtrip(x, tail),
        Command::QueryAccount(q) => lemma_query_roundtrip(q, tail),
        Command::Authenticate(_) => {},
    }
}

#[verifier::rlimit(40)]
proof fn lemma_new_order_roundtrip(o: NewOrder, tail: Seq<u8>)
    ensures
        decode_spec(command_bytes(Command::NewOrder(o)).unwrap() + tail) == Ok::<Command, ProtoError>(
            Command::NewOrder(o),
        ),
{
    let b = command_bytes(Command::NewOrder(o)).unwrap() + tail;
    crate::wire::lemma_le16_roundtrip(MT_NEW_ORDER);
    crate::wire::lemma_le64_roundtrip(o.client_seq);
    crate::wire::lemma_le64_roundtrip(o.order_id);
    crate::wire::lemma_le32_roundtrip(o.account_id);
    crate::wire::lemma_le32_roundtrip(o.symbol_id);
    crate::wire::lemma_le64_roundtrip(o.price as u64);
    crate::wire::lemma_le64_roundtrip(o.qty as u64);
    lemma_i64_bits(o.price);
    lemma_i64_bits(o.qty);
    assert(b.subrange(0, 2) =~= le16(MT_NEW_ORDER));
    assert(b.subrange(2, 10) =~= le64(o.client_seq));
    assert(b.subrange(10, 18) =~= le64(o.order_id));
    assert(b.subrange(18, 22) =~= le32(o.account_id));
    assert(b.subrange(22, 26) =~= le32(o.symbol_id));
    assert(b.subrange(27, 35) =~= le_i64(o.price));
    assert(b.subrange(35, 43) =~= le_i64(o.qty));
    assert(b[26] == match o.side {
        Side::Buy => 0u8,
        Side::Sell => 1u8,
    });
    assert(b[43] == match o.tif {
        TimeInForce::Gtc => 0u8,
        TimeInForce::Ioc => 1u8,
    });
    assert(b[44] == if o.flags.post_only {
        1u8
    } else {
        0u8
    });
}

proof fn lemma_cancel_roundtrip(c: Cancel, tail: Seq<u8>)
    ensures
        decode_spec(command_bytes(Command::Cancel(c)).unwrap() + tail) == Ok::<Command, ProtoError>(
            Command::Cancel(c),
        ),
{
    let b = command_bytes(Command::Cancel(c)).unwrap() + tail;
    crate::wire::lemma_le16_roundtrip(MT_CANCEL);
    crate::wire::lemma_le64_roundtrip(c.client_seq);
    crate::wire::lemma_le64_roundtrip(c.order_id);
    crate::wire::lemma_le32_roundtrip(c.account_id);
    crate::wire::lemma_le32_roundtrip(c.symbol_id);
    assert(b.subrange(0, 2) =~= le16(MT_CANCEL));
    assert(b.subrange(2, 10) =~= le64(c.client_seq));
    assert(b.subrange(10, 18) =~= le64(c.order_id));
    assert(b.subrange(18, 22) =~= le32(c.account_id));
    assert(b.subrange(22, 26) =~= le32(c.symbol_id));
}

#[verifier::rlimit(30)]
proof fn lemma_replace_roundtrip(r: Replace, tail: Seq<u8>)
    ensures
        decode_spec(command_bytes(Command::Replace(r)).unwrap() + tail) == Ok::<Command, ProtoError>(
            Command::Replace(r),
        ),
{
    let b = command_bytes(Command::Replace(r)).unwrap() + tail;
    crate::wire::lemma_le16_roundtrip(MT_REPLACE);
    crate::wire::lemma_le64_roundtrip(r.client_seq);
    crate::wire::lemma_le64_roundtrip(r.order_id);
    crate::wire::lemma_le32_roundtrip(r.account_id);
    crate::wire::lemma_le32_roundtrip(r.symbol_id);
    crate::wire::lemma_le64_roundtrip(r.new_price as u64);
    crate::wire::lemma_le64_roundtrip(r.new_qty as u64);
    lemma_i64_bits(r.new_price);
    lemma_i64_bits(r.new_qty);
    assert(b.subrange(0, 2) =~= le16(MT_REPLACE));
    assert(b.subrange(2, 10) =~= le64(r.client_seq));
    assert(b.subrange(10, 18) =~= le64(r.order_id));
    assert(b.subrange(18, 22) =~= le32(r.account_id));
    assert(b.subrange(22, 26) =~= le32(r.symbol_id));
    assert(b.subrange(26, 34) =~= le_i64(r.new_price));
    assert(b.subrange(34, 42) =~= le_i64(r.new_qty));
}

#[verifier::rlimit(30)]
proof fn lemma_limits_roundtrip(x: SetRiskLimits, tail: Seq<u8>)
    ensures
        decode_spec(command_bytes(Command::SetRiskLimits(x)).unwrap() + tail) == Ok::<Command, ProtoError>(
            Command::SetRiskLimits(x),
        ),
{
    let b = command_bytes(Command::SetRiskLimits(x)).unwrap() + tail;
    crate::wire::lemma_le16_roundtrip(MT_SET_RISK_LIMITS);
    crate::wire::lemma_le64_roundtrip(x.client_seq);
    crate::wire::lemma_le32_roundtrip(x.account_id);
    crate::wire::lemma_le32_roundtrip(x.symbol_id);
    crate::wire::lemma_le64_roundtrip(x.limits.max_long_position as u64);
    crate::wire::lemma_le64_roundtrip(x.limits.max_short_position as u64);
    crate::wire::lemma_le64_roundtrip(x.limits.max_order_size as u64);
    lemma_i64_bits(x.limits.max_long_position);
    lemma_i64_bits(x.limits.max_short_position);
    lemma_i64_bits(x.limits.max_order_size);
    assert(b.subrange(0, 2) =~= le16(MT_SET_RISK_LIMITS));
    assert(b.subrange(2, 10) =~= le64(x.client_seq));
    assert(b.subrange(10, 14) =~= le32(x.account_id));
    assert(b.subrange(14, 18) =~= le32(x.symbol_id));
    assert(b.subrange(18, 26) =~= le_i64(x.limits.max_long_position));
    assert(b.subrange(26, 34) =~= le_i64(x.limits.max_short_position));
    assert(b.subrange(34, 42) =~= le_i64(x.limits.max_order_size));
}

proof fn lemma_query_roundtrip(q: QueryAccount, tail: Seq<u8>)
    ensures
        decode_spec(command_bytes(Command::QueryAccount(q)).unwrap() + tail) == Ok::<Command, ProtoError>(
            Command::QueryAccount(q),
        ),
{
    let b = command_bytes(Command::QueryAccount(q)).unwrap() + tail;
    crate::wire::lemma_le16_roundtrip(MT_QUERY_ACCOUNT);
    crate::wire::lemma_le64_roundtrip(q.client_seq);
    crate::wire::lemma_le32_roundtrip(q.account_id);
    crate::wire::lemma_le32_roundtrip(q.symbol_id);
    assert(b.subrange(0, 2) =~= le16(MT_QUERY_ACCOUNT));
    assert(b.subrange(2, 10) =~= le64(q.client_seq));
    assert(b.subrange(10, 14) =~= le32(q.account_id));
    assert(b.subrange(14, 18) =~= le32(q.symbol_id));
}

/// An optional integer read at `at`: its presence byte, then the value.
pub open spec fn rd_opt(b: Seq<u8>, at: int) -> Option<i64> {
    if b[at] == 0 {
        None
    } else {
        Some(rd64(b, at + 1) as i64)
    }
}

/// The event a message decodes to, or why it does not (the reading side of
/// `event_bytes`): fields in order, enumeration and presence bytes checked as
/// they are read; bytes after the last field are ignored.
pub open spec fn decode_event_spec(b: Seq<u8>) -> Result<Event, ProtoError> {
    if b.len() < 2 {
        Err(ProtoError::Malformed("binary: missing msg_type"))
    } else {
        let mt = rd16(b, 0);
        if mt == MT_ACK {
            if b.len() < 26 {
                Err(underrun())
            } else {
                Ok(Event::Ack(Ack { server_seq: rd64(b, 2), client_seq: rd64(b, 10), order_id: rd64(b, 18) }))
            }
        } else if mt == MT_REJECT {
            if b.len() < 19 {
                Err(underrun())
            } else if reason_of(b[18]) is None {
                Err(ProtoError::Malformed("binary: bad reason"))
            } else if b.len() < 20 {
                Err(underrun())
            } else if b[19] > 1 {
                Err(ProtoError::Malformed("binary: bad presence"))
            } else if b[19] == 1 && b.len() < 28 {
                Err(underrun())
            } else {
                Ok(
                    Event::Reject(
                        Reject {
                            server_seq: rd64(b, 2),
                            client_seq: rd64(b, 10),
                            order_id: if b[19] == 1 {
                                Some(rd64(b, 20))
                            } else {
                                None
                            },
                            reason: reason_of(b[18]).unwrap(),
                        },
                    ),
                )
            }
        } else if mt == MT_FILL {
            if b.len() < 54 {
                Err(underrun())
            } else {
                Ok(
                    Event::Fill(
                        Fill {
                            server_seq: rd64(b, 2),
                            client_seq: rd64(b, 10),
                            symbol_id: rd32(b, 18),
                            taker_order_id: rd64(b, 22),
                            maker_order_id: rd64(b, 30),
                            price: rd64(b, 38) as i64,
                            qty: rd64(b, 46) as i64,
                        },
                    ),
                )
            }
        } else if mt == MT_BOOK_TOP {
            book_top_spec(b)
        } else if mt == MT_ACCOUNT_STATE {
            if b.len() < 74 {
                Err(underrun())
            } else {
                Ok(
                    Event::AccountState(
                        AccountState {
                            server_seq: rd64(b, 2),
                            client_seq: rd64(b, 10),
                            account_id: rd32(b, 18),
                            symbol_id: rd32(b, 22),
                            position: Position {
                                net_position: rd64(b, 26) as i64,
                                avg_price: rd64(b, 34) as i64,
                                realized_pnl: rd64(b, 42) as i64,
                            },
                            risk_limits: RiskLimits {
                                max_long_position: rd64(b, 50) as i64,
                                max_short_position: rd64(b, 58) as i64,
                                max_order_size: rd64(b, 66) as i64,
                            },
                        },
                    ),
                )
            }
        } else {
            Err(ProtoError::Malformed("binary: unknown msg_type"))
        }
    }
}

/// Width of an optional integer whose presence byte is `p`.
pub open spec fn opt_width(p: u8) -> int {
    if p == 1 {
        9
    } else {
        1
    }
}

/// Reads one optional integer at `at`: its value and the position after it.
pub open spec fn read_opt(b: Seq<u8>, at: int) -> Result<(Option<i64>, int), ProtoError> {
    if b.len() < at + 1 {
        Err(underrun())
    } else if b[at] > 1 {
        Err(ProtoError::Malformed("binary: bad presence"))
    } else if b.len() < at + opt_width(b[at]) {
        Err(underrun())
    } else {
        Ok((rd_opt(b, at), at + opt_width(b[at])))
    }
}

pub open spec fn book_top_spec(b: Seq<u8>) -> Result<Event, ProtoError> {
    if b.len() < 14 {
        Err(underrun())
    } else {
        match read_opt(b, 14) {
            Err(e) => Err(e),
            Ok((bid_px, p1)) => match read_opt(b, p1) {
                Err(e) => Err(e),
                Ok((bid_qty, p2)) => match read_opt(b, p2) {
                    Err(e) => Err(e),
                    Ok((ask_px, p3)) => match read_opt(b, p3) {
                        Err(e) => Err(e),
                        Ok((ask_qty, _)) => Ok(
                            Event::BookTop(
                                BookTop {
                                    server_seq: rd64(b, 2),
                                    symbol_id: rd32(b, 10),
                                    best_bid_px: bid_px,
                                    best_bid_qty: bid_qty,
                                    best_ask_px: ask_px,
                                    best_ask_qty: ask_qty,
                                },
                            ),
                        ),
                    },
                },
            },
        }
    }
}

/// The reject reason a byte stands for.
pub open spec fn reason_of(c: u8) -> Option<RejectReason> {
    if c == 1 {
        Some(RejectReason::Invalid)
    } else if c == 2 {
        Some(RejectReason::Risk)
    } else if c == 3 {
        Some(RejectReason::Overloaded)
    } else if c == 4 {
        Some(RejectReason::NotFound)
    } else if c == 5 {
        Some(RejectReason::PostOnlyWouldCross)
    } else if c == 6 {
        Some(RejectReason::RateLimitExceeded)
    } else {
        None
    }
}

proof fn lemma_read_opt(b: Seq<u8>, at: int, v: Option<i64>)
    requires
        0 <= at,
        at + opt_i64_bytes(v).len() <= b.len(),
        b.subrange(at, at + opt_i64_bytes(v).len()) == opt_i64_bytes(v),
    ensures
        read_opt(b, at) == Ok::<(Option<i64>, int), ProtoError>((v, at + opt_i64_bytes(v).len())),
{
    let ob = opt_i64_bytes(v);
    assert(b[at] == ob[0]) by {
        assert(b.subrange(at, at + ob.len())[0] == b[at]);
    }
    match v {
        Some(x) => {
            crate::wire::lemma_le64_roundtrip(x as u64);
            lemma_i64_bits(x);
            assert(b.subrange(at + 1, at + 9) =~= ob.subrange(1, 9));
            assert(ob.subrange(1, 9) =~= le64(x as u64));
        },
        None => {},
    }
}

/// An event's message decodes back to the event, whatever bytes follow it.
pub proof fn lemma_event_roundtrip(ev: Event, tail: Seq<u8>)
    requires
        event_bytes(ev) is Some,
    ensures
        decode_event_spec(event_bytes(ev).unwrap() + tail) == Ok::<Event, ProtoError>(ev),
{
    match ev {
        Event::Ack(a) => lemma_ack_roundtrip(a, tail),
        Event::Reject(r) => lemma_reject_roundtrip(r, tail),
        Event::Fill(f) => lemma_fill_roundtrip(f, tail),
        Event::BookTop(t) => lemma_book_top_roundtrip(t, tail),
        Event::AccountState(a) => lemma_account_state_roundtrip(a, tail),
        _ => {},
    }
}

proof fn lemma_ack_roundtrip(a: Ack, tail: Seq<u8>)
    ensures
        decode_event_spec(event_bytes(Event::Ack(a)).unwrap() + tail) == Ok::<Event, ProtoError>(Event::Ack(a)),
{
    let b = event_bytes(Event::Ack(a)).unwrap() + tail;
    crate::wire::lemma_le16_roundtrip(MT_ACK);
    crate::wire::lemma_le64_roundtrip(a.server_seq);
    crate::wire::lemma_le64_roundtrip(a.client_seq);
    crate::wire::lemma_le64_roundtrip(a.order_id);
    assert(b.subrange(0, 2) =~= le16(MT_ACK));
    assert(b.subrange(2, 10) =~= le64(a.server_seq));
    assert(b.subrange(10, 18) =~= le64(a.client_seq));
    assert(b.subrange(18, 26) =~= le64(a.order_id));
}

proof fn lemma_reject_roundtrip(r: Reject, tail: Seq<u8>)
    ensures
        decode_event_spec(event_bytes(Event::Reject(r)).unwrap() + tail) == Ok::<Event, ProtoError>(Event::Reject(r)),
{
    let b = event_bytes(Event::Reject(r)).unwrap() + tail;
    crate::wire::lemma_le16_roundtrip(MT_REJECT);
    crate::wire::lemma_le64_roundtrip(r.server_seq);
    crate::wire::lemma_le64_roundtrip(r.client_seq);
    assert(b.subrange(0, 2) =~= le16(MT_REJECT));
    assert(b.subrange(2, 10) =~= le64(r.server_seq));
    assert(b.subrange(10, 18) =~= le64(r.client_seq));
    assert(b[18] == reason_code(r.reason));
    match r.order_id {
        Some(id) => {
            crate::wire::lemma_le64_roundtrip(id);
            assert(b[19] == 1u8);
            assert(b.subrange(20, 28) =~= le64(id));
        },
        None => {
            assert(b[19] == 0u8);
        },
    }
}

#[verifier::rlimit(30)]
proof fn lemma_fill_roundtrip(f: Fill, tail: Seq<u8>)
    ensures
        decode_event_spec(event_bytes(Event::Fill(f)).unwrap() + tail) == Ok::<Event, ProtoError>(Event::Fill(f)),
{
    let b = event_bytes(Event::Fill(f)).unwrap() + tail;
    crate::wire::lemma_le16_roundtrip(MT_FILL);
    crate::wire::lemma_le64_roundtrip(f.server_seq);
    crate::wire::lemma_le64_roundtrip(f.client_seq);
    crate::wire::lemma_le32_roundtrip(f.symbol_id);
    crate::wire::lemma_le64_roundtrip(f.taker_order_id);
    crate::wire::lemma_le64_roundtrip(f.maker_order_id);
    crate::wire::lemma_le64_roundtrip(f.price as u64);
    crate::wire::lemma_le64_roundtrip(f.qty as u64);
    lemma_i64_bits(f.price);
    lemma_i64_bits(f.qty);
    assert(b.subrange(0, 2) =~= le16(MT_FILL));
    assert(b.subrange(2, 10) =~= le64(f.server_seq));
    assert(b.subrange(10, 18) =~= le64(f.client_seq));
    assert(b.subrange(18, 22) =~= le32(f.symbol_id));
    assert(b.subrange(22, 30) =~= le64(f.taker_order_id));
    assert(b.subrange(30, 38) =~= le64(f.maker_order_id));
    assert(b.subrange(38, 46) =~= le_i64(f.price));
    assert(b.subrange(46, 54) =~= le_i64(f.qty));
}

#[verifier::rlimit(40)]
proof fn lemma_book_top_roundtrip(t: BookTop, tail: Seq<u8>)
    ensures
        decode_event_spec(event_bytes(Event::BookTop(t)).unwrap() + tail) == Ok::<Event, ProtoError>(Event::BookTop(t)),
{
    let o1 = opt_i64_bytes(t.best_bid_px);
    let o2 = opt_i64_bytes(t.best_bid_qty);
    let o3 = opt_i64_bytes(t.best_ask_px);
    let o4 = opt_i64_bytes(t.best_ask_qty);
    let head = le16(MT_BOOK_TOP) + le64(t.server_seq) + le32(t.symbol_id);
    let b = event_bytes(Event::BookTop(t)).unwrap() + tail;
    assert(b =~= head + o1 + o2 + o3 + o4 + tail);
    crate::wire::lemma_le16_roundtrip(MT_BOOK_TOP);
    crate::wire::lemma_le64_roundtrip(t.server_seq);
    crate::wire::lemma_le32_roundtrip(t.symbol_id);
    assert(b.subrange(0, 2) =~= le16(MT_BOOK_TOP));
    assert(b.subrange(2, 10) =~= le64(t.server_seq));
    assert(b.subrange(10, 14) =~= le32(t.symbol_id));
    let p1: int = 14 + o1.len() as int;
    let p2: int = p1 + o2.len() as int;
    let p3: int = p2 + o3.len() as int;
    let p4: int = p3 + o4.len() as int;
    assert(b.subrange(14, p1) =~= o1);
    assert(b.subrange(p1, p2) =~= o2);
    assert(b.subrange(p2, p3) =~= o3);
    assert(b.subrange(p3, p4) =~= o4);
    lemma_read_opt(b, 14, t.best_bid_px);
    lemma_read_opt(b, p1, t.best_bid_qty);
    lemma_read_opt(b, p2, t.best_ask_px);
    lemma_read_opt(b, p3, t.best_ask_qty);
}

#[verifier::rlimit(40)]
proof fn lemma_account_state_roundtrip(a: AccountState, tail: Seq<u8>)
    ensures
        decode_event_spec(event_bytes(Event::AccountState(a)).unwrap() + tail) == Ok::<Event, ProtoError>(
            Event::AccountState(a),
        ),
{
    let b = event_bytes(Event::AccountState(a)).unwrap() + tail;
    crate::wire::lemma_le16_roundtrip(MT_ACCOUNT_STATE);
    crate::wire::lemma_le64_roundtrip(a.server_seq);
    crate::wire::lemma_le64_roundtrip(a.client_seq);
    crate::wire::lemma_le32_roundtrip(a.account_id);
    crate::wire::lemma_le32_roundtrip(a.symbol_id);
    crate::wire::lemma_le64_roundtrip(a.position.net_position as u64);
    crate::wire::lemma_le64_roundtrip(a.position.avg_price as u64);
    crate::wire::lemma_le64_roundtrip(a.position.realized_pnl as u64);
    crate::wire::lemma_le64_roundtrip(a.risk_limits.max_long_position as u64);
    crate::wire::lemma_le64_roundtrip(a.risk_limits.max_short_position as u64);
    crate::wire::lemma_le64_roundtrip(a.risk_limits.max_order_size as u64);
    lemma_i64_bits(a.position.net_position);
    lemma_i64_bits(a.position.avg_price);
    lemma_i64_bits(a.position.realized_pnl);
    lemma_i64_bits(a.risk_limits.max_long_position);
    lemma_i64_bits(a.risk_limits.max_short_position);
    lemma_i64_bits(a.risk_limits.max_order_size);
    assert(b.subrange(0, 2) =~= le16(MT_ACCOUNT_STATE));
    assert(b.subrange(2, 10) =~= le64(a.server_seq));
    assert(b.subrange(10, 18) =~= le64(a.client_seq));
    assert(b.subrange(18, 22) =~= le32(a.account_id));
    assert(b.subrange(22, 26) =~= le32(a.symbol_id));
    assert(b.subrange(26, 34) =~= le_i64(a.position.net_position));
    assert(b.subrange(34, 42) =~= le_i64(a.position.avg_price));
    assert(b.subrange(42, 50) =~= le_i64(a.position.realized_pnl));
    assert(b.subrange(50, 58) =~= le_i64(a.risk_limits.max_long_position));
    assert(b.subrange(58, 66) =~= le_i64(a.risk_limits.max_short_position));
    assert(b.subrange(66, 74) =~= le_i64(a.risk_limits.max_order_size));
}

// ------------------------------------------------------------------
// Encoding and decoding.
// ------------------------------------------------------------------

fn put_i64(out: &mut Vec<u8>, v: i64)
    ensures
        final(out)@ == old(out)@ + le_i64(v),
{
    put_u64(out, v as u64);
}

fn put_opt_i64(out: &mut Vec<u8>, v: Option<i64>)
    ensures
        final(out)@ == old(out)@ + opt_i64_bytes(v),
{
    match v {
        Some(x) => {
            out.push(1u8);
            let ghost mid = out@;
            put_i64(out, x);
            assert(out@ =~= old(out)@ + opt_i64_bytes(v));
        },
        None => {
            out.push(0u8);
            assert(out@ =~= old(out)@ + opt_i64_bytes(v));
        },
    }
}

fn reason_byte(r: RejectReason) -> (b: u8)
    ensures
        b == reason_code(r),
{
    match r {
        RejectReason::Invalid => 1,
        RejectReason::Risk => 2,
        RejectReason::Overloaded => 3,
        RejectReason::NotFound => 4,
        RejectReason::PostOnlyWouldCross => 5,
        RejectReason::RateLimitExceeded => 6,
    }
}

impl BinaryCodec {
    pub fn name(&self) -> (r: &'static str)
        ensures
            r@ == "binary"@,
    {
        "binary"
    }

    /// Appends the message of `ev`; authentication replies have no binary form.
    pub fn encode_event(&self, ev: &Event, out: &mut Vec<u8>) -> (r: Result<(), ProtoError>)
        ensures
            match event_bytes(*ev) {
                Some(b) => r is Ok && final(out)@ == old(out)@ + b,
                None => r == Err::<(), ProtoError>(ProtoError::Malformed("binary: unsupported event"))
                    && final(out)@ == old(out)@,
            },
    {
        match ev {
            Event::Ack(a) => {
                put_u16(out, MT_ACK);
                put_u64(out, a.server_seq);
                put_u64(out, a.client_seq);
                put_u64(out, a.order_id);
                assert(out@ =~= old(out)@ + event_bytes(*ev).unwrap());
            },
            Event::Reject(rj) => {
                put_u16(out, MT_REJECT);
                put_u64(out, rj.server_seq);
                put_u64(out, rj.client_seq);
                out.push(reason_byte(rj.reason));
                let ghost mid = out@;
                match rj.order_id {
                    Some(id) => {
                        out.push(1u8);
                        put_u64(out, id);
                        assert(out@ =~= mid + (seq![1u8] + le64(id)));
                    },
                    None => {
                        out.push(0u8);
                        assert(out@ =~= mid + seq![0u8]);
                    },
                }
                assert(out@ =~= old(out)@ + event_bytes(*ev).unwrap());
            },
            Event::Fill(f) => {
                put_u16(out, MT_FILL);
                put_u64(out, f.server_seq);
                put_u64(out, f.client_seq);
                put_u32(out, f.symbol_id);
                put_u64(out, f.taker_order_id);
                put_u64(out, f.maker_order_id);
                put_i64(out, f.price);
                put_i64(out, f.qty);
                assert(out@ =~= old(out)@ + event_bytes(*ev).unwrap());
            },
            Event::BookTop(b) => {
                put_u16(out, MT_BOOK_TOP);
                put_u64(out, b.server_seq);
                put_u32(out, b.symbol_id);
                put_opt_i64(out, b.best_bid_px);
                put_opt_i64(out, b.best_bid_qty);
                put_opt_i64(out, b.best_ask_px);
                put_opt_i64(out, b.best_ask_qty);
                assert(out@ =~= old(out)@ + event_bytes(*ev).unwrap());
            },
            Event::AccountState(a) => {
                put_u16(out, MT_ACCOUNT_STATE);
                put_u64(out, a.server_seq);
                put_u64(out, a.client_seq);
                put_u32(out, a.account_id);
                put_u32(out, a.symbol_id);
                put_i64(out, a.position.net_position);
                put_i64(out, a.position.avg_price);
                put_i64(out, a.position.realized_pnl);
                put_i64(out, a.risk_limits.max_long_position);
                put_i64(out, a.risk_limits.max_short_position);
                put_i64(out, a.risk_limits.max_order_size);
                assert(out@ =~= old(out)@ + event_bytes(*ev).unwrap());
            },
            _ => {
                return Err(ProtoError::Malformed("binary: unsupported event"));
            },
        }
        Ok(())
    }

    /// Decodes a command message, as `decode_spec` says.
    pub fn decode_command(&self, input: &[u8]) -> (r: Result<Command, ProtoError>)
        ensures
            r == decode_spec(input@),
    {
        let b = input;
        let n = b.len();
        if n < 2 {
            return Err(ProtoError::Malformed("binary: missing msg_type"));
        }
        let mt = get_u16(b, 0);
        if mt == MT_NEW_ORDER {
            if n < 27 {
                return Err(ProtoError::Malformed("binary: underrun"));
            }
            let side = if b[26] == 0 {
                Side::Buy
            } else if b[26] == 1 {
                Side::Sell
            } else {
                return Err(ProtoError::Malformed("binary: bad side"));
            };
            if n < 44 {
                return Err(ProtoError::Malformed("binary: underrun"));
            }
            let tif = if b[43] == 0 {
                TimeInForce::Gtc
            } else if b[43] == 1 {
                TimeInForce::Ioc
            } else {
                return Err(ProtoError::Malformed("binary: bad tif"));
            };
            if n < 45 {
                return Err(ProtoError::Malformed("binary: underrun"));
            }
            let post_only = if b[44] == 0 {
                false
            } else if b[44] == 1 {
                true
            } else {
                return Err(ProtoError::Malformed("binary: bad post_only"));
            };
            Ok(
                Command::NewOrder(
                    NewOrder {
                        client_seq: get_u64(b, 2),
                        order_id: get_u64(b, 10),
                        account_id: get_u32(b, 18),
                        symbol_id: get_u32(b, 22),
                        side,
                        price: get_u64(b, 27) as i64,
                        qty: get_u64(b, 35) as i64,
                        tif,
                        flags: OrderFlags { post_only },
                    },
                ),
            )
        } else if mt == MT_CANCEL {
            if n < 26 {
                return Err(ProtoError::Malformed("binary: underrun"));
            }
            Ok(
                Command::Cancel(
                    Cancel {
                        client_seq: get_u64(b, 2),
                        order_id: get_u64(b, 10),
                        account_id: get_u32(b, 18),
                        symbol_id: get_u32(b, 22),
                    },
                ),
            )
        } else if mt == MT_REPLACE {
            if n < 42 {
                return Err(ProtoError::Malformed("binary: underrun"));
            }
            Ok(
                Command::Replace(
                    Replace {
                        client_seq: get_u64(b, 2),
                        order_id: get_u64(b, 10),
                        account_id: get_u32(b, 18),
                        symbol_id: get_u32(b, 22),
                        new_price: get_u64(b, 26) as i64,
                        new_qty: get_u64(b, 34) as i64,
                    },
                ),
            )
        } else if mt == MT_SET_RISK_LIMITS {
            if n < 42 {
                return Err(ProtoError::Malformed("binary: underrun"));
            }
            Ok(
                Command::SetRiskLimits(
                    SetRiskLimits {
                        client_seq: get_u64(b, 2),
                        account_id: get_u32(b, 10),
                        symbol_id: get_u32(b, 14),
                        limits: RiskLimits {
                            max_long_position: get_u64(b, 18) as i64,
                            max_short_position: get_u64(b, 26) as i64,
                            max_order_size: get_u64(b, 34) as i64,
                        },
                    },
                ),
            )
        } else if mt == MT_QUERY_ACCOUNT {
            if n < 18 {
                return Err(ProtoError::Malformed("binary: underrun"));
            }
            Ok(
                Command::QueryAccount(
                    QueryAccount { client_seq: get_u64(b, 2), account_id: get_u32(b, 10), symbol_id: get_u32(b, 14) },
                ),
            )
        } else {
            Err(ProtoError::Malformed("binary: unknown msg_type"))
        }
    }
}

/// Reads one optional integer at `at`, as `read_opt` says.
fn read_opt_at(b: &[u8], at: usize) -> (r: Result<(Option<i64>, usize), ProtoError>)
    ensures
        match (r, read_opt(b@, at as int)) {
            (Ok((v, p)), Ok((v2, p2))) => v == v2 && p == p2,
            (Err(e), Err(e2)) => e == e2,
            _ => false,
        },
{
    if b.len() < 1 || at > b.len() - 1 {
        return Err(ProtoError::Malformed("binary: underrun"));
    }
    let flag = b[at];
    if flag > 1 {
        return Err(ProtoError::Malformed("binary: bad presence"));
    }
    if flag == 0 {
        return Ok((None, at + 1));
    }
    if b.len() - at < 9 {
        return Err(ProtoError::Malformed("binary: underrun"));
    }
    Ok((Some(get_u64(b, at + 1) as i64), at + 9))
}

fn reason_from(c: u8) -> (r: Option<RejectReason>)
    ensures
        r == reason_of(c),
{
    if c == 1 {
        Some(RejectReason::Invalid)
    } else if c == 2 {
        Some(RejectReason::Risk)
    } else if c == 3 {
        Some(RejectReason::Overloaded)
    } else if c == 4 {
        Some(RejectReason::NotFound)
    } else if c == 5 {
        Some(RejectReason::PostOnlyWouldCross)
    } else if c == 6 {
        Some(RejectReason::RateLimitExceeded)
    } else {
        None
    }
}

impl BinaryCodec {
    /// Decodes an event message, as `decode_event_spec` says (what a client of
    /// the binary protocol reads).
    pub fn decode_event(&self, input: &[u8]) -> (r: Result<Event, ProtoError>)
        ensures
            r == decode_event_spec(input@),
    {
        let b = input;
        let n = b.len();
        if n < 2 {
            return Err(ProtoError::Malformed("binary: missing msg_type"));
        }
        let mt = get_u16(b, 0);
        if mt == MT_ACK {
            if n < 26 {
                return Err(ProtoError::Malformed("binary: underrun"));
            }
            Ok(Event::Ack(Ack { server_seq: get_u64(b, 2), client_seq: get_u64(b, 10), order_id: get_u64(b, 18) }))
        } else if mt == MT_REJECT {
            if n < 19 {
                return Err(ProtoError::Malformed("binary: underrun"));
            }
            let reason = match reason_from(b[18]) {
                Some(r) => r,
                None => return Err(ProtoError::Malformed("binary: bad reason")),
            };
            if n < 20 {
                return Err(ProtoError::Malformed("binary: underrun"));
            }
            if b[19] > 1 {
                return Err(ProtoError::Malformed("binary: bad presence"));
            }
            let order_id = if b[19] == 1 {
                if n < 28 {
                    return Err(ProtoError::Malformed("binary: underrun"));
                }
                Some(get_u64(b, 20))
            } else {
                None
            };
            Ok(Event::Reject(Reject { server_seq: get_u64(b, 2), client_seq: get_u64(b, 10), order_id, reason }))
        } else if mt == MT_FILL {
            if n < 54 {
                return Err(ProtoError::Malformed("binary: underrun"));
            }
            Ok(
                Event::Fill(
                    Fill {
                        server_seq: get_u64(b, 2),
                        client_seq: get_u64(b, 10),
                        symbol_id: get_u32(b, 18),
                        taker_order_id: get_u64(b, 22),
                        maker_order_id: get_u64(b, 30),
                        price: get_u64(b, 38) as i64,
                        qty: get_u64(b, 46) as i64,
                    },
                ),
            )
        } else if mt == MT_BOOK_TOP {
            if n < 14 {
                return Err(ProtoError::Malformed("binary: underrun"));
            }
            let (best_bid_px, p1) = read_opt_at(b, 14)?;
            let (best_bid_qty, p2) = read_opt_at(b, p1)?;
            let (best_ask_px, p3) = read_opt_at(b, p2)?;
            let (best_ask_qty, _) = read_opt_at(b, p3)?;
            Ok(
                Event::BookTop(
                    BookTop {
                        server_seq: get_u64(b, 2),
                        symbol_id: get_u32(b, 10),
                        best_bid_px,
                        best_bid_qty,
                        best_ask_px,
                        best_ask_qty,
                    },
                ),
            )
        } else if mt == MT_ACCOUNT_STATE {
            if n < 74 {
                return Err(ProtoError::Malformed("binary: underrun"));
            }
            Ok(
                Event::AccountState(
                    AccountState {
                        server_seq: get_u64(b, 2),
                        client_seq: get_u64(b, 10),
                        account_id: get_u32(b, 18),
                        symbol_id: get_u32(b, 22),
                        position: Position {
                            net_position: get_u64(b, 26) as i64,
                            avg_price: get_u64(b, 34) as i64,
                            realized_pnl: get_u64(b, 42) as i64,
                        },
                        risk_limits: RiskLimits {
                            max_long_position: get_u64(b, 50) as i64,
                            max_short_position: get_u64(b, 58) as i64,
                            max_order_size: get_u64(b, 66) as i64,
                        },
                    },
                ),
            )
        } else {
            Err(ProtoError::Malformed("binary: unknown msg_type"))
        }
    }

    /// Appends the message of a command (what a client of the binary protocol
    /// sends); authentication has no binary form.
    pub fn encode_command(&self, cmd: &Command, out: &mut Vec<u8>) -> (r: Result<(), ProtoError>)
        ensures
            match command_bytes(*cmd) {
                Some(bs) => r is Ok && final(out)@ == old(out)@ + bs,
                None => r == Err::<(), ProtoError>(ProtoError::Malformed("binary: unsupported command"))
                    && final(out)@ == old(out)@,
            },
    {
        match cmd {
            Command::NewOrder(o) => {
                put_u16(out, MT_NEW_ORDER);
                put_u64(out, o.client_seq);
                put_u64(out, o.order_id);
                put_u32(out, o.account_id);
                put_u32(out, o.symbol_id);
                out.push(
                    match o.side {
                        Side::Buy => 0u8,
                        Side::Sell => 1u8,
                    },
                );
                put_i64(out, o.price);
                put_i64(out, o.qty);
                out.push(
                    match o.tif {
                        TimeInForce::Gtc => 0u8,
                        TimeInForce::Ioc => 1u8,
                    },
                );
                out.push(
                    if o.flags.post_only {
                        1u8
                    } else {
                        0u8
                    },
                );
            },
            Command::Cancel(c) => {
                put_u16(out, MT_CANCEL);
                put_u64(out, c.client_seq);
                put_u64(out, c.order_id);
                put_u32(out, c.account_id);
                put_u32(out, c.symbol_id);
            },
            Command::Replace(r) => {
                put_u16(out, MT_REPLACE);
                put_u64(out, r.client_seq);
                put_u64(out, r.order_id);
                put_u32(out, r.account_id);
                put_u32(out, r.symbol_id);
                put_i64(out, r.new_price);
                put_i64(out, r.new_qty);
            },
            Command::SetRiskLimits(x) => {
                put_u16(out, MT_SET_RISK_LIMITS);
                put_u64(out, x.client_seq);
                put_u32(out, x.account_id);
                put_u32(out, x.symbol_id);
                put_i64(out, x.limits.max_long_position);
                put_i64(out, x.limits.max_short_position);
                put_i64(out, x.limits.max_order_size);
            },
            Command::QueryAccount(q) => {
                put_u16(out, MT_QUERY_ACCOUNT);
                put_u64(out, q.client_seq);
                put_u32(out, q.account_id);
                put_u32(out, q.symbol_id);
            },
            Command::Authenticate(_) => {
                return Err(ProtoError::Malformed("binary: unsupported command"));
            },
        }
        assert(out@ =~= old(out)@ + command_bytes(*cmd).unwrap());
        Ok(())
    }
}

impl JsonCodec {
    pub fn name(&self) -> (r: &'static str)
        ensures
            r@ == "json"@,
    {
        "json"
    }
}

} // verus!
