//! Messages between the gateway and the engines, and what a command names.
use vstd::prelude::*;

use crate::types::{AccountId, Command, Event, OrderId, Price, Qty, Side, SymbolId};

verus! {

/// What the gateway sends an engine.
#[derive(Debug)]
pub enum GatewayToEngine {
    /// Execute a command the gateway has approved.
    Execute(ExecuteCommand),
    /// Health check.
    Ping,
    /// Ask for every live order (reconciliation).
    QueryAllOrders,
}

/// A command with its approval.
#[derive(Debug)]
pub struct ExecuteCommand {
    pub command: Command,
    /// Connection the answers go back to.
    pub conn_id: u64,
    pub risk_token: RiskToken,
}

/// The gateway's approval of an order.
#[derive(Clone, Copy, Debug, PartialEq, Eq, Structural)]
pub struct RiskToken {
    pub account_id: AccountId,
    /// Buying power reserved for the order.
    pub reserved_amount: i64,
    /// Gateway sequence number.
    pub gateway_seq: u64,
}

/// One live order, as reconciliation sees it.
#[derive(Clone, Copy, Debug, PartialEq, Eq, Structural)]
pub struct OrderSnapshot {
    pub order_id: OrderId,
    pub account_id: AccountId,
    pub symbol_id: SymbolId,
    pub side: Side,
    pub price: Price,
    pub qty_rem: Qty,
    /// Buying power reserved for the order.
    pub reserved_amount: i64,
}

/// What an engine sends the gateway.
#[derive(Debug)]
pub enum EngineToGateway {
    /// An event for a client connection.
    ClientEvent { conn_id: u64, event: Event, risk_token: Option<RiskToken> },
    /// Health status.
    Pong { symbol_id: SymbolId, orders_in_book: usize },
    /// Market data for everyone.
    MarketData { symbol_id: SymbolId, event: Event },
    /// Answer to `QueryAllOrders`.
    AllOrders(Vec<OrderSnapshot>),
    /// The engine restarted and recovered these orders.
    EngineReady { symbol_id: SymbolId, orders: Vec<OrderSnapshot> },
}

impl GatewayToEngine {
    /// An approved command for the engine.
    pub fn execute(command: Command, conn_id: u64, risk_token: RiskToken) -> (r: Self)
        ensures
            r == GatewayToEngine::Execute(ExecuteCommand { command, conn_id, risk_token }),
    {
        GatewayToEngine::Execute(ExecuteCommand { command, conn_id, risk_token })
    }
}

impl EngineToGateway {
    /// An event routed back to a client connection.
    pub fn client_event(conn_id: u64, event: Event, risk_token: Option<RiskToken>) -> (r: Self)
        ensures
            r == (EngineToGateway::ClientEvent { conn_id, event, risk_token }),
    {
        EngineToGateway::ClientEvent { conn_id, event, risk_token }
    }

    /// A market data event of a symbol.
    pub fn market_data(symbol_id: SymbolId, event: Event) -> (r: Self)
        ensures
            r == (EngineToGateway::MarketData { symbol_id, event }),
    {
        EngineToGateway::MarketData { symbol_id, event }
    }
}

/// The symbol a command is for (none for authentication, which no engine sees).
pub open spec fn spec_command_symbol_id(cmd: Command) -> Option<SymbolId> {
    match cmd {
        Command::NewOrder(o) => Some(o.symbol_id),
        Command::Cancel(c) => Some(c.symbol_id),
        Command::Replace(r) => Some(r.symbol_id),
        Command::SetRiskLimits(s) => Some(s.symbol_id),
        Command::QueryAccount(q) => Some(q.symbol_id),
        Command::Authenticate(_) => None,
    }
}

/// The account a command is for (none for authentication, which establishes it).
pub open spec fn spec_command_account_id(cmd: Command) -> Option<AccountId> {
    match cmd {
        Command::NewOrder(o) => Some(o.account_id),
        Command::Cancel(c) => Some(c.account_id),
        Command::Replace(r) => Some(r.account_id),
        Command::SetRiskLimits(s) => Some(s.account_id),
        Command::QueryAccount(q) => Some(q.account_id),
        Command::Authenticate(_) => None,
    }
}

/// The order a command is about, for the commands that name one.
pub open spec fn spec_command_order_id(cmd: Command) -> Option<OrderId> {
    match cmd {
        Command::NewOrder(o) => Some(o.order_id),
        Command::Cancel(c) => Some(c.order_id),
        Command::Replace(r) => Some(r.order_id),
        _ => None,
    }
}

pub fn command_symbol_id(cmd: &Command) -> (r: Option<SymbolId>)
    ensures
        r == spec_command_symbol_id(*cmd),
{
    match cmd {
        Command::NewOrder(o) => Some(o.symbol_id),
        Command::Cancel(c) => Some(c.symbol_id),
        Command::Replace(r) => Some(r.symbol_id),
        Command::SetRiskLimits(s) => Some(s.symbol_id),
        Command::QueryAccount(q) => Some(q.symbol_id),
        Command::Authenticate(_) => None,
    }
}

pub fn command_account_id(cmd: &Command) -> (r: Option<AccountId>)
    ensures
        r == spec_command_account_id(*cmd),
{
    match cmd {
        Command::NewOrder(o) => Some(o.account_id),
        Command::Cancel(c) => Some(c.account_id),
        Command::Replace(r) => Some(r.account_id),
        Command::SetRiskLimits(s) => Some(s.account_id),
        Command::QueryAccount(q) => Some(q.account_id),
        Command::Authenticate(_) => None,
    }
}

pub fn command_order_id(cmd: &Command) -> (r: Option<OrderId>)
    ensures
        r == spec_command_order_id(*cmd),
{
    match cmd {
        Command::NewOrder(o) => Some(o.order_id),
        Command::Cancel(c) => Some(c.order_id),
        Command::Replace(r) => Some(r.order_id),
        Command::SetRiskLimits(_) => None,
        Command::QueryAccount(_) => None,
        Command::Authenticate(_) => None,
    }
}

/// Only authentication goes without a symbol and an account, and the commands
/// that name an order are exactly the order commands.
pub proof fn lemma_command_routing(cmd: Command)
    ensures
        spec_command_symbol_id(cmd) is None <==> cmd is Authenticate,
        spec_command_account_id(cmd) is None <==> cmd is Authenticate,
        spec_command_order_id(cmd) is Some <==> (cmd is NewOrder || cmd is Cancel || cmd is Replace),
{
}

} // verus!
