//! Shared vocabulary of the exchange: identifiers, orders, commands and events.
use vstd::prelude::*;

verus! {

pub type OrderId = u64;

pub type AccountId = u32;

pub type SymbolId = u32;

/// Price in ticks.
pub type Price = i64;

/// Quantity in lots.
pub type Qty = i64;

#[derive(Clone, Copy, Debug, PartialEq, Eq, Structural)]
pub enum Side {
    Buy,
    Sell,
}

impl Side {
    /// The side that trades against this one.
    pub fn opposite(self) -> (r: Self)
        ensures
            r != self,
            r == spec_opposite(self),
    {
        match self {
            Side::Buy => Side::Sell,
            Side::Sell => Side::Buy,
        }
    }
}

pub open spec fn spec_opposite(s: Side) -> Side {
    match s {
        Side::Buy => Side::Sell,
        Side::Sell => Side::Buy,
    }
}

/// Position of one account in one symbol.
#[derive(Clone, Copy, Debug, PartialEq, Eq, Structural)]
pub struct Position {
    /// Net position: +100 = long 100, -50 = short 50.
    pub net_position: i64,
    /// Volume-weighted average entry price (in ticks).
    pub avg_price: i64,
    /// Realized profit/loss (in ticks).
    pub realized_pnl: i64,
}

pub open spec fn zero_position() -> Position {
    Position { net_position: 0, avg_price: 0, realized_pnl: 0 }
}

impl Default for Position {
    fn default() -> (r: Self)
        ensures
            r == zero_position(),
    {
        Position { net_position: 0, avg_price: 0, realized_pnl: 0 }
    }
}

/// Risk limits of one account.
#[derive(Clone, Copy, Debug, PartialEq, Eq, Structural)]
pub struct RiskLimits {
    /// Maximum long position (e.g., +1000 lots).
    pub max_long_position: i64,
    /// Maximum short position magnitude (e.g., 1000 for -1000 lots).
    pub max_short_position: i64,
    /// Maximum single order size.
    pub max_order_size: i64,
}

pub open spec fn default_risk_limits() -> RiskLimits {
    RiskLimits { max_long_position: 10_000, max_short_position: 10_000, max_order_size: 1_000 }
}

impl Default for RiskLimits {
    fn default() -> (r: Self)
        ensures
            r == default_risk_limits(),
    {
        RiskLimits { max_long_position: 10_000, max_short_position: 10_000, max_order_size: 1_000 }
    }
}

#[derive(Clone, Copy, Debug, PartialEq, Eq, Structural)]
pub enum TimeInForce {
    Gtc,
    Ioc,
}

#[derive(Clone, Copy, Debug, PartialEq, Eq, Structural)]
pub struct OrderFlags {
    pub post_only: bool,
}

#[derive(Clone, Debug, PartialEq, Eq)]
pub enum Command {
    NewOrder(NewOrder),
    Cancel(Cancel),
    Replace(Replace),
    SetRiskLimits(SetRiskLimits),
    QueryAccount(QueryAccount),
    Authenticate(Authenticate),
}

#[derive(Clone, Debug, PartialEq, Eq)]
pub struct Authenticate {
    pub api_key: String,
}

#[derive(Clone, Copy, Debug, PartialEq, Eq, Structural)]
pub struct NewOrder {
    pub client_seq: u64,
    pub order_id: OrderId,
    pub account_id: AccountId,
    pub symbol_id: SymbolId,
    pub side: Side,
    pub price: Price,
    pub qty: Qty,
    pub tif: TimeInForce,
    pub flags: OrderFlags,
}

#[derive(Clone, Copy, Debug, PartialEq, Eq, Structural)]
pub struct Cancel {
    pub client_seq: u64,
    pub order_id: OrderId,
    pub account_id: AccountId,
    pub symbol_id: SymbolId,
}

#[derive(Clone, Copy, Debug, PartialEq, Eq, Structural)]
pub struct Replace {
    pub client_seq: u64,
    pub order_id: OrderId,
    pub account_id: AccountId,
    pub symbol_id: SymbolId,
    pub new_price: Price,
    pub new_qty: Qty,
}

#[derive(Clone, Copy, Debug, PartialEq, Eq, Structural)]
pub struct SetRiskLimits {
    pub client_seq: u64,
    pub account_id: AccountId,
    pub symbol_id: SymbolId,
    pub limits: RiskLimits,
}

#[derive(Clone, Copy, Debug, PartialEq, Eq, Structural)]
pub struct QueryAccount {
    pub client_seq: u64,
    pub account_id: AccountId,
    pub symbol_id: SymbolId,
}

#[derive(Clone, Debug, PartialEq, Eq)]
pub enum Event {
    Ack(Ack),
    Reject(Reject),
    Fill(Fill),
    BookTop(BookTop),
    AccountState(AccountState),
    AuthSuccess(AuthSuccess),
    AuthFailure(AuthFailure),
}

#[derive(Clone, Copy, Debug, PartialEq, Eq, Structural)]
pub struct AuthSuccess {
    pub account_id: AccountId,
}

#[derive(Clone, Debug, PartialEq, Eq)]
pub struct AuthFailure {
    pub reason: String,
}

#[derive(Clone, Copy, Debug, PartialEq, Eq, Structural)]
pub struct Ack {
    pub server_seq: u64,
    pub client_seq: u64,
    pub order_id: OrderId,
}

#[derive(Clone, Copy, Debug, PartialEq, Eq, Structural)]
pub struct Reject {
    pub server_seq: u64,
    pub client_seq: u64,
    pub order_id: Option<OrderId>,
    pub reason: RejectReason,
}

#[derive(Clone, Copy, Debug, PartialEq, Eq, Structural)]
pub enum RejectReason {
    Invalid,
    Risk,
    Overloaded,
    NotFound,
    PostOnlyWouldCross,
    RateLimitExceeded,
}

#[derive(Clone, Copy, Debug, PartialEq, Eq, Structural)]
pub struct Fill {
    pub server_seq: u64,
    pub client_seq: u64,
    pub symbol_id: SymbolId,
    pub taker_order_id: OrderId,
    pub maker_order_id: OrderId,
    pub price: Price,
    pub qty: Qty,
}

#[derive(Clone, Copy, Debug, PartialEq, Eq, Structural)]
pub struct BookTop {
    pub server_seq: u64,
    pub symbol_id: SymbolId,
    pub best_bid_px: Option<Price>,
    pub best_bid_qty: Option<Qty>,
    pub best_ask_px: Option<Price>,
    pub best_ask_qty: Option<Qty>,
}

#[derive(Clone, Copy, Debug, PartialEq, Eq, Structural)]
pub struct AccountState {
    pub server_seq: u64,
    pub client_seq: u64,
    pub account_id: AccountId,
    pub symbol_id: SymbolId,
    pub position: Position,
    pub risk_limits: RiskLimits,
}

/// Errors of the wire protocol.
#[derive(Clone, Copy, Debug, PartialEq, Eq)]
pub enum ProtoError {
    FrameTooLarge(usize),
    Malformed(&'static str),
}

} // verus!
