//! The single-symbol matching engine: turns commands into events over one
//! order book, numbering every event with the engine's server sequence.
use vstd::prelude::*;

use crate::order_book::{BookModel, MatchFill, Order, OrderBook};
use crate::persistence::JournalConfig;
use crate::types::{
    Ack, BookTop, Cancel, Command, Event, Fill, NewOrder, OrderId, Price, Qty, Reject, RejectReason,
    Replace, Side, TimeInForce,
};

verus! {

/// A command from connection `conn_id`.
pub struct Inbound {
    pub conn_id: u64,
    pub cmd: Command,
}

/// An event for connection `conn_id`.
pub struct Outbound {
    pub conn_id: u64,
    pub ev: Event,
}

/// Where the engine keeps its journal and snapshots, and how often it snapshots.
#[derive(Clone, Debug)]
pub struct EngineConfig {
    pub journal_path: String,
    pub snapshot_dir: String,
    pub journal_config: JournalConfig,
    /// Take a snapshot every this many commands (0: never).
    pub snapshot_interval: u64,
}

impl Default for EngineConfig {
    fn default() -> (c: Self)
        ensures
            c.journal_path@ == "journal.bin"@,
            c.snapshot_dir@ == "snapshots"@,
            c.journal_config.batch_size == 100,
            c.journal_config.sync_interval == crate::persistence::duration_ms(100),
            c.journal_config.rotation_threshold == 1_000_000,
            c.snapshot_interval == 100_000,
    {
        EngineConfig {
            journal_path: String::from_str("journal.bin"),
            snapshot_dir: String::from_str("snapshots"),
            journal_config: JournalConfig::default(),
            snapshot_interval: 100_000,
        }
    }
}

impl EngineConfig {
    /// Whether a snapshot is due once `command_seq` commands have been applied.
    pub fn snapshot_due(&self, command_seq: u64) -> (r: bool)
        ensures
            r == (self.snapshot_interval > 0 && command_seq % self.snapshot_interval == 0),
    {
        self.snapshot_interval > 0 && command_seq % self.snapshot_interval == 0
    }
}

/// Why the engine could not be restored.
#[derive(Clone, Copy, Debug, PartialEq, Eq, Structural)]
pub enum RestoreError {
    /// The snapshot's order at this position cannot rest on the book.
    BadSnapshotOrder(usize),
    /// The snapshot's sequence leaves no room for the next server sequence.
    SequenceOverflow,
}

pub struct Engine {
    server_seq: u64,
    command_seq: u64,
    book: OrderBook,
}

/// Abstract state of the engine.
pub struct EngineModel {
    /// Sequence number the next event gets.
    pub server_seq: u64,
    /// Number of commands applied.
    pub command_seq: u64,
    pub book: BookModel,
}

impl View for Engine {
    type V = EngineModel;

    closed spec fn view(&self) -> EngineModel {
        EngineModel { server_seq: self.server_seq, command_seq: self.command_seq, book: self.book@ }
    }
}

// ------------------------------------------------------------------
// What the engine does, on the model.
// ------------------------------------------------------------------

pub open spec fn reject_event(
    seq: int,
    client_seq: u64,
    order_id: Option<OrderId>,
    reason: RejectReason,
) -> Event {
    Event::Reject(Reject { server_seq: seq as u64, client_seq, order_id, reason })
}

pub open spec fn ack_event(seq: int, client_seq: u64, order_id: OrderId) -> Event {
    Event::Ack(Ack { server_seq: seq as u64, client_seq, order_id })
}

/// The top-of-book event for book `b`.
pub open spec fn top_event(seq: int, b: BookModel) -> Event {
    let bid = crate::order_book::spec_top(b, Side::Buy);
    let ask = crate::order_book::spec_top(b, Side::Sell);
    Event::BookTop(
        BookTop {
            server_seq: seq as u64,
            symbol_id: b.symbol_id,
            best_bid_px: match bid {
                Some((p, _)) => Some(p),
                None => None,
            },
            best_bid_qty: match bid {
                Some((_, q)) => Some(q),
                None => None,
            },
            best_ask_px: match ask {
                Some((p, _)) => Some(p),
                None => None,
            },
            best_ask_qty: match ask {
                Some((_, q)) => Some(q),
                None => None,
            },
        },
    )
}

/// The fill events of `fills`, numbered from `seq0`.
pub open spec fn fill_events(fills: Seq<MatchFill>, seq0: int, client_seq: u64, b: BookModel) -> Seq<
    Event,
> {
    Seq::new(
        fills.len(),
        |i: int|
            Event::Fill(
                Fill {
                    server_seq: (seq0 + i) as u64,
                    client_seq,
                    symbol_id: b.symbol_id,
                    taker_order_id: fills[i].taker_order_id,
                    maker_order_id: fills[i].maker_order_id,
                    price: fills[i].price,
                    qty: fills[i].qty,
                },
            ),
    )
}

/// A new order is rejected as invalid: wrong symbol or no quantity.
pub open spec fn new_invalid(b: BookModel, no: NewOrder) -> bool {
    no.symbol_id != b.symbol_id || no.qty <= 0
}

/// A new post-only order is rejected because it would trade on arrival.
pub open spec fn new_post_only_rejected(b: BookModel, no: NewOrder) -> bool {
    no.flags.post_only && crate::order_book::spec_would_cross(b, no.side, no.price)
}

/// The fills of an accepted new order.
pub open spec fn new_fills(b: BookModel, no: NewOrder) -> Seq<MatchFill> {
    if crate::order_book::spec_would_cross(b, no.side, no.price) {
        crate::order_book::match_result(b, no.side, no.order_id, no.price, no.qty as int).0
    } else {
        Seq::empty()
    }
}

/// The book after an accepted new order has matched, before any remainder rests.
pub open spec fn book_after_match(b: BookModel, no: NewOrder) -> BookModel {
    if crate::order_book::spec_would_cross(b, no.side, no.price) {
        crate::order_book::match_result(b, no.side, no.order_id, no.price, no.qty as int).1
    } else {
        b
    }
}

/// Quantity of an accepted new order left after matching.
pub open spec fn new_remainder(b: BookModel, no: NewOrder) -> int {
    no.qty - crate::order_book::fills_qty(new_fills(b, no))
}

/// The remainder rests: something is left and the order is good-till-cancel.
pub open spec fn new_rests(b: BookModel, no: NewOrder) -> bool {
    new_remainder(b, no) > 0 && no.tif == TimeInForce::Gtc
}

/// The resting order made of the remainder `rem` of `no`.
pub open spec fn resting_order(no: NewOrder, rem: int) -> Order {
    Order {
        order_id: no.order_id,
        account_id: no.account_id,
        symbol_id: no.symbol_id,
        side: no.side,
        price: no.price,
        qty_rem: rem as Qty,
        tif: no.tif,
        flags: no.flags,
    }
}

/// The book after an accepted new order, its remainder resting in slot `k` if it rests.
pub open spec fn book_after_new(b: BookModel, no: NewOrder, k: usize) -> BookModel {
    let b1 = book_after_match(b, no);
    if new_rests(b, no) {
        crate::order_book::rest_order(b1, resting_order(no, new_remainder(b, no)), k)
    } else {
        b1
    }
}

/// Events and state after a new order (its remainder, if any, resting in slot `k`).
pub open spec fn new_order_result(s: EngineModel, no: NewOrder, k: usize) -> (Seq<Event>, EngineModel) {
    let seq = s.server_seq as int;
    if new_invalid(s.book, no) {
        (
            seq![reject_event(seq, no.client_seq, Some(no.order_id), RejectReason::Invalid)],
            EngineModel { server_seq: (seq + 1) as u64, ..s },
        )
    } else if new_post_only_rejected(s.book, no) {
        (
            seq![
                reject_event(
                    seq,
                    no.client_seq,
                    Some(no.order_id),
                    RejectReason::PostOnlyWouldCross,
                ),
            ],
            EngineModel { server_seq: (seq + 1) as u64, ..s },
        )
    } else {
        let fills = new_fills(s.book, no);
        let b2 = book_after_new(s.book, no, k);
        let n = fills.len() as int;
        (
            fill_events(fills, seq, no.client_seq, s.book) + seq![
                top_event(seq + n, b2),
                ack_event(seq + n + 1, no.client_seq, no.order_id),
            ],
            EngineModel { server_seq: (seq + n + 2) as u64, command_seq: s.command_seq, book: b2 },
        )
    }
}

/// `k` is a vacant slot of the book an accepted new order's remainder rests into.
pub open spec fn new_slot_fresh(b: BookModel, no: NewOrder, k: usize) -> bool {
    (!new_invalid(b, no) && !new_post_only_rejected(b, no) && new_rests(b, no)) ==> !book_after_match(
        b,
        no,
    ).slots.contains_key(k)
}

/// No counter of the engine overflows while it handles the new order: every
/// event it may emit (at most one per lot, plus two) gets a sequence number,
/// and, when a remainder rests, its level can take it.
pub open spec fn new_fits(s: EngineModel, no: NewOrder) -> bool {
    &&& s.server_seq < u64::MAX
    &&& (!new_invalid(s.book, no) && !new_post_only_rejected(s.book, no)) ==> {
        &&& s.server_seq + no.qty + 2 <= u64::MAX
        &&& new_rests(s.book, no) ==> crate::order_book::level_qty(s.book, no.side, no.price) + new_remainder(
            s.book,
            no,
        ) <= i64::MAX
    }
}

/// An accepted order never has more left after matching than it came with.
proof fn lemma_remainder_at_most_qty(b: BookModel, no: NewOrder)
    requires
        no.qty > 0,
    ensures
        0 <= crate::order_book::fills_qty(new_fills(b, no)),
        new_remainder(b, no) <= no.qty,
{
    if crate::order_book::spec_would_cross(b, no.side, no.price) {
        crate::order_book::lemma_match_respects_limit(b, no.side, no.order_id, no.price, no.qty as int);
        crate::order_book::lemma_fills_count(new_fills(b, no));
    }
}

/// The new order that a replace of the resting order `o` amounts to.
pub open spec fn replacement_order(r: Replace, o: Order) -> NewOrder {
    NewOrder {
        client_seq: r.client_seq,
        order_id: r.order_id,
        account_id: r.account_id,
        symbol_id: r.symbol_id,
        side: o.side,
        price: r.new_price,
        qty: r.new_qty,
        tif: o.tif,
        flags: o.flags,
    }
}

/// A replace that finds its order: the engine state once the old order is gone.
pub open spec fn replace_base(s: EngineModel, r: Replace) -> EngineModel {
    EngineModel {
        book: crate::order_book::remove_slot(s.book, s.book.index[r.order_id]),
        ..s
    }
}

pub open spec fn replace_invalid(s: EngineModel, r: Replace) -> bool {
    r.symbol_id != s.book.symbol_id || r.new_qty <= 0
}

/// Client sequence of a command (zero for a command that carries none).
pub open spec fn command_client_seq(cmd: Command) -> u64 {
    match cmd {
        Command::NewOrder(o) => o.client_seq,
        Command::Cancel(c) => c.client_seq,
        Command::Replace(r) => r.client_seq,
        Command::SetRiskLimits(x) => x.client_seq,
        Command::QueryAccount(x) => x.client_seq,
        Command::Authenticate(_) => 0,
    }
}

/// Events and state after `cmd`, an accepted order's remainder resting in slot `k`.
pub open spec fn process_result(s: EngineModel, cmd: Command, k: usize) -> (Seq<Event>, EngineModel) {
    let seq = s.server_seq as int;
    match cmd {
        Command::NewOrder(no) => new_order_result(s, no, k),
        Command::Cancel(c) => {
            if c.symbol_id != s.book.symbol_id {
                (
                    seq![reject_event(seq, c.client_seq, Some(c.order_id), RejectReason::Invalid)],
                    EngineModel { server_seq: (seq + 1) as u64, ..s },
                )
            } else if !crate::order_book::can_cancel(s.book, c.order_id, c.account_id) {
                (
                    seq![reject_event(seq, c.client_seq, Some(c.order_id), RejectReason::NotFound)],
                    EngineModel { server_seq: (seq + 1) as u64, ..s },
                )
            } else {
                let b1 = crate::order_book::remove_slot(s.book, s.book.index[c.order_id]);
                (
                    seq![top_event(seq, b1), ack_event(seq + 1, c.client_seq, c.order_id)],
                    EngineModel { server_seq: (seq + 2) as u64, command_seq: s.command_seq, book: b1 },
                )
            }
        },
        Command::Replace(r) => {
            if replace_invalid(s, r) {
                (
                    seq![reject_event(seq, r.client_seq, Some(r.order_id), RejectReason::Invalid)],
                    EngineModel { server_seq: (seq + 1) as u64, ..s },
                )
            } else if !crate::order_book::can_cancel(s.book, r.order_id, r.account_id) {
                (
                    seq![reject_event(seq, r.client_seq, Some(r.order_id), RejectReason::NotFound)],
                    EngineModel { server_seq: (seq + 1) as u64, ..s },
                )
            } else {
                let o = s.book.slots[s.book.index[r.order_id]];
                if new_post_only_rejected(s.book, replacement_order(r, o)) {
                    (
                        seq![
                            reject_event(
                                seq,
                                r.client_seq,
                                Some(r.order_id),
                                RejectReason::PostOnlyWouldCross,
                            ),
                        ],
                        EngineModel { server_seq: (seq + 1) as u64, ..s },
                    )
                } else {
                    new_order_result(replace_base(s, r), replacement_order(r, o), k)
                }
            }
        },
        _ => (
            seq![reject_event(seq, command_client_seq(cmd), None, RejectReason::Invalid)],
            EngineModel { server_seq: (seq + 1) as u64, ..s },
        ),
    }
}

/// `k` is a vacant slot of the book the remainder of `cmd` (if any) rests into.
pub open spec fn slot_fresh(s: EngineModel, cmd: Command, k: usize) -> bool {
    match cmd {
        Command::NewOrder(no) => new_slot_fresh(s.book, no, k),
        Command::Replace(r) => {
            if !replace_invalid(s, r) && crate::order_book::can_cancel(s.book, r.order_id, r.account_id) {
                let o = s.book.slots[s.book.index[r.order_id]];
                new_slot_fresh(replace_base(s, r).book, replacement_order(r, o), k)
            } else {
                true
            }
        },
        _ => true,
    }
}

/// No counter of the engine overflows while it processes `cmd`.
pub open spec fn process_fits(s: EngineModel, cmd: Command) -> bool {
    match cmd {
        Command::NewOrder(no) => new_fits(s, no),
        Command::Replace(r) => {
            if !replace_invalid(s, r) && crate::order_book::can_cancel(s.book, r.order_id, r.account_id) {
                let o = s.book.slots[s.book.index[r.order_id]];
                new_fits(replace_base(s, r), replacement_order(r, o))
            } else {
                s.server_seq < u64::MAX
            }
        },
        Command::Cancel(_) => s.server_seq + 2 <= u64::MAX,
        _ => s.server_seq < u64::MAX,
    }
}

/// What `can_process` checks: a sufficient condition for `process_fits`
/// that is computed on the book as it stands.
pub open spec fn process_guard(s: EngineModel, cmd: Command) -> bool {
    &&& s.server_seq < u64::MAX
    &&& match cmd {
        Command::NewOrder(no) => no.qty > 0 ==> {
            &&& s.server_seq + no.qty + 2 <= u64::MAX
            &&& crate::order_book::level_qty(s.book, no.side, no.price) + no.qty <= i64::MAX
        },
        Command::Replace(r) => (r.new_qty > 0 && s.book.index.contains_key(r.order_id)) ==> {
            let o = s.book.slots[s.book.index[r.order_id]];
            &&& s.server_seq + r.new_qty + 2 <= u64::MAX
            &&& crate::order_book::level_qty(s.book, o.side, r.new_price) + r.new_qty <= i64::MAX
        },
        Command::Cancel(_) => s.server_seq + 2 <= u64::MAX,
        _ => true,
    }
}

/// The engine state after replaying `cmd` from the journal, an order's
/// remainder resting in slot `k`: a new order or a replace is handled as when
/// it first came (its events are dropped), a cancel of this book's symbol only
/// takes the order off the book (a cancel of another symbol, which processing
/// rejects, changes nothing), anything else changes nothing; the command count
/// goes up by one.
pub open spec fn replay_step(s: EngineModel, cmd: Command, k: usize) -> EngineModel {
    let t = match cmd {
        Command::NewOrder(_) => process_result(s, cmd, k).1,
        Command::Replace(_) => process_result(s, cmd, k).1,
        Command::Cancel(c) => if c.symbol_id == s.book.symbol_id && crate::order_book::can_cancel(
            s.book,
            c.order_id,
            c.account_id,
        ) {
            EngineModel {
                book: crate::order_book::remove_slot(s.book, s.book.index[c.order_id]),
                ..s
            }
        } else {
            s
        },
        _ => s,
    };
    EngineModel { command_seq: (t.command_seq + 1) as u64, ..t }
}

/// No counter overflows while `cmd` is replayed.
pub open spec fn replay_fits(s: EngineModel, cmd: Command) -> bool {
    &&& s.command_seq < u64::MAX
    &&& match cmd {
        Command::NewOrder(_) => process_fits(s, cmd),
        Command::Replace(_) => process_fits(s, cmd),
        _ => true,
    }
}

/// What `replay` checks before each command.
pub open spec fn replay_guard(s: EngineModel, cmd: Command) -> bool {
    &&& s.command_seq < u64::MAX
    &&& match cmd {
        Command::NewOrder(_) => process_guard(s, cmd),
        Command::Replace(_) => process_guard(s, cmd),
        _ => true,
    }
}

/// Replaying `cmds` from `s` in order can end in `t` (each accepted order's
/// remainder resting in a slot that was vacant).
pub open spec fn replays_to(s: EngineModel, cmds: Seq<Command>, t: EngineModel) -> bool
    decreases cmds.len(),
{
    if cmds.len() == 0 {
        t == s
    } else {
        exists|mid: EngineModel, k: usize|
            #[trigger] replay_step(mid, cmds.last(), k) == t && slot_fresh(mid, cmds.last(), k)
                && replays_to(s, cmds.drop_last(), mid)
    }
}

/// The engine state `base` that restoring snapshot `snapshot` onto `s` can give:
/// `s` itself without a snapshot; else the snapshot's orders rested on an
/// empty book, its command count, and the next server sequence after it.
pub open spec fn snapshot_base(s: EngineModel, snapshot: Option<(u64, Vec<Order>)>, base: EngineModel) -> bool {
    match snapshot {
        None => base == s,
        Some((seq, orders)) => {
            &&& seq < u64::MAX
            &&& base.command_seq == seq
            &&& base.server_seq == seq + 1
            &&& crate::order_book::rests_all(crate::order_book::empty_book(s.book.symbol_id), orders@, base.book)
        },
    }
}

/// Where journal replay starts: after the commands the restored state counts.
pub open spec fn journal_start(base: EngineModel, len: nat) -> int {
    if base.command_seq < len {
        base.command_seq as int
    } else {
        len as int
    }
}

/// Sequence number carried by an event (zero for the authentication replies,
/// which carry none).
pub open spec fn event_seq(ev: Event) -> int {
    match ev {
        Event::Ack(a) => a.server_seq as int,
        Event::Reject(r) => r.server_seq as int,
        Event::Fill(f) => f.server_seq as int,
        Event::BookTop(b) => b.server_seq as int,
        Event::AccountState(a) => a.server_seq as int,
        _ => 0,
    }
}

// ------------------------------------------------------------------
// The engine.
// ------------------------------------------------------------------

impl Engine {
    pub closed spec fn wf(&self) -> bool {
        self.book.wf()
    }

    /// A fresh engine on an empty book of symbol 1; the first event gets sequence 1.
    pub fn new() -> (e: Self)
        ensures
            e.wf(),
            e@.server_seq == 1,
            e@.command_seq == 0,
            e@.book.symbol_id == 1,
            e@.book.slots == Map::<usize, Order>::empty(),
            e@.book.bids == Map::<Price, Seq<usize>>::empty(),
            e@.book.asks == Map::<Price, Seq<usize>>::empty(),
            e@.book.index == Map::<OrderId, usize>::empty(),
    {
        Engine { server_seq: 1, command_seq: 0, book: OrderBook::new(1) }
    }

    fn next_seq(&mut self) -> (s: u64)
        requires
            old(self).server_seq < u64::MAX,
        ensures
            s == old(self).server_seq,
            final(self).server_seq == old(self).server_seq + 1,
            final(self).command_seq == old(self).command_seq,
            final(self).book == old(self).book,
    {
        let s = self.server_seq;
        self.server_seq = self.server_seq + 1;
        s
    }

    fn ack(&mut self, client_seq: u64, order_id: u64) -> (ev: Event)
        requires
            old(self).server_seq < u64::MAX,
        ensures
            ev == ack_event(old(self).server_seq as int, client_seq, order_id),
            final(self).server_seq == old(self).server_seq + 1,
            final(self).command_seq == old(self).command_seq,
            final(self).book == old(self).book,
    {
        Event::Ack(Ack { server_seq: self.next_seq(), client_seq, order_id })
    }

    fn reject(&mut self, client_seq: u64, order_id: Option<u64>, reason: RejectReason) -> (ev: Event)
        requires
            old(self).server_seq < u64::MAX,
        ensures
            ev == reject_event(old(self).server_seq as int, client_seq, order_id, reason),
            final(self).server_seq == old(self).server_seq + 1,
            final(self).command_seq == old(self).command_seq,
            final(self).book == old(self).book,
    {
        Event::Reject(Reject { server_seq: self.next_seq(), client_seq, order_id, reason })
    }

    fn handle_new(&mut self, no: NewOrder) -> (evs: Vec<Event>)
        requires
            old(self).wf(),
            new_fits(old(self)@, no),
        ensures
            final(self).wf(),
            exists|k: usize|
                new_slot_fresh(old(self)@.book, no, k) && (evs@, final(self)@) == new_order_result(
                    old(self)@,
                    no,
                    k,
                ),
    {
        let ghost s0 = self@;
        let mut evs: Vec<Event> = Vec::new();
        if no.symbol_id != self.book.symbol() || no.qty <= 0 {
            evs.push(self.reject(no.client_seq, Some(no.order_id), RejectReason::Invalid));
            proof {
                assert(evs@ =~= new_order_result(s0, no, 0).0);
                assert(new_slot_fresh(s0.book, no, 0));
            }
            return evs;
        }
        if no.flags.post_only && self.book.would_cross(no.side, no.price) {
            evs.push(self.reject(no.client_seq, Some(no.order_id), RejectReason::PostOnlyWouldCross));
            proof {
                assert(evs@ =~= new_order_result(s0, no, 0).0);
                assert(new_slot_fresh(s0.book, no, 0));
            }
            return evs;
        }
        let ghost mut k: usize = 0;
        let ghost b0 = self.book@;
        let ghost seq0 = self.server_seq as int;
        proof {
            self.book.lemma_wf();
        }
        if self.book.would_cross(no.side, no.price) {
            let fills = self.book.match_taker(no.order_id, no.side, no.price, no.qty);
            proof {
                crate::order_book::lemma_match_respects_limit(b0, no.side, no.order_id, no.price, no.qty as int);
                crate::order_book::lemma_fills_count(fills@);
                crate::order_book::lemma_match_keeps_symbol(b0, no.side, no.order_id, no.price, no.qty as int);
            }
            let ghost lq = crate::order_book::level_qty(b0, no.side, no.price);
            assert(crate::order_book::level_qty(self.book@, no.side, no.price) == lq);
            let mut i: usize = 0;
            let mut filled: i64 = 0;
            while i < fills.len()
                invariant
                    self.wf(),
                    0 <= i <= fills.len(),
                    fills@ == new_fills(b0, no),
                    self.book@ == book_after_match(b0, no),
                    self.server_seq == seq0 + i,
                    self.command_seq == s0.command_seq,
                    seq0 + fills.len() + 2 <= u64::MAX,
                    evs@ == fill_events(fills@.take(i as int), seq0, no.client_seq, b0),
                    filled == crate::order_book::fills_qty(fills@.take(i as int)),
                    0 <= filled <= crate::order_book::fills_qty(fills@),
                    crate::order_book::fills_qty(fills@) <= no.qty,
                    forall|j: int| 0 <= j < fills.len() ==> #[trigger] fills@[j].qty > 0,
                    b0.symbol_id == self.book@.symbol_id,
                    crate::order_book::level_qty(self.book@, no.side, no.price) == lq,
                    new_rests(b0, no) ==> lq + new_remainder(b0, no) <= i64::MAX,
                decreases fills.len() - i,
            {
                let f = fills[i];
                let seq = self.next_seq();
                evs.push(
                    Event::Fill(
                        Fill {
                            server_seq: seq,
                            client_seq: no.client_seq,
                            symbol_id: self.book.symbol(),
                            taker_order_id: f.taker_order_id,
                            maker_order_id: f.maker_order_id,
                            price: f.price,
                            qty: f.qty,
                        },
                    ),
                );
                proof {
                    assert(fills@.take(i + 1) =~= fills@.take(i as int).push(f));
                    crate::order_book::lemma_fills_qty_push(fills@.take(i as int), f);
                    crate::order_book::lemma_fills_count(fills@.skip(i + 1));
                    assert(fills@ =~= fills@.take(i + 1) + fills@.skip(i + 1));
                    lemma_fills_qty_concat(fills@.take(i + 1), fills@.skip(i + 1));
                    assert(evs@ =~= fill_events(fills@.take(i + 1), seq0, no.client_seq, b0));
                }
                filled = filled + f.qty;
                i = i + 1;
            }
            proof {
                assert(fills@.take(fills.len() as int) =~= fills@);
            }
            let rem = no.qty - filled;
            if rem > 0 && no.tif == TimeInForce::Gtc {
                let ghost b1 = self.book@;
                self.book.insert_resting(
                    Order {
                        order_id: no.order_id,
                        account_id: no.account_id,
                        symbol_id: no.symbol_id,
                        side: no.side,
                        price: no.price,
                        qty_rem: rem,
                        tif: no.tif,
                        flags: no.flags,
                    },
                );
                proof {
                    k = choose|k: usize|
                        !b1.slots.contains_key(k) && self.book@ == crate::order_book::rest_order(
                            b1,
                            resting_order(no, rem as int),
                            k,
                        );
                }
            }
        } else {
            if no.tif == TimeInForce::Gtc {
                proof {
                    assert(crate::order_book::fills_qty(Seq::<MatchFill>::empty()) == 0);
                }
                self.book.insert_resting(
                    Order {
                        order_id: no.order_id,
                        account_id: no.account_id,
                        symbol_id: no.symbol_id,
                        side: no.side,
                        price: no.price,
                        qty_rem: no.qty,
                        tif: no.tif,
                        flags: no.flags,
                    },
                );
                proof {
                    k = choose|k: usize|
                        !b0.slots.contains_key(k) && self.book@ == crate::order_book::rest_order(
                            b0,
                            resting_order(no, no.qty as int),
                            k,
                        );
                }
            }
        }
        let ghost n = new_fills(b0, no).len() as int;
        proof {
            assert(self.book@ == book_after_new(b0, no, k));
            assert(self.server_seq == seq0 + n);
        }
        evs.push(self.book_top_event());
        evs.push(self.ack(no.client_seq, no.order_id));
        proof {
            assert(evs@ =~= new_order_result(s0, no, k).0);
            assert(new_slot_fresh(b0, no, k));
        }
        evs
    }

    /// Processes one command into its events, numbered from the engine's
    /// server sequence on; the last event answers the command (an ack or a reject).
    pub fn process(&mut self, cmd: Command) -> (evs: Vec<Event>)
        requires
            old(self).wf(),
            process_fits(old(self)@, cmd),
        ensures
            final(self).wf(),
            exists|k: usize|
                slot_fresh(old(self)@, cmd, k) && (evs@, final(self)@) == process_result(old(self)@, cmd, k),
            crate::order_book::uncrossed(old(self)@.book) ==> crate::order_book::uncrossed(final(self)@.book),
    {
        let ghost s0 = self@;
        proof {
            self.book.lemma_wf();
        }
        match cmd {
            Command::NewOrder(no) => {
                let evs = self.handle_new(no);
                proof {
                    let k = choose|k: usize|
                        new_slot_fresh(s0.book, no, k) && (evs@, self@) == new_order_result(s0, no, k);
                    assert(slot_fresh(s0, cmd, k));
                    if crate::order_book::uncrossed(s0.book) {
                        lemma_new_order_keeps_book_uncrossed(s0, no, k);
                    }
                }
                evs
            },
            Command::Cancel(c) => {
                let mut evs: Vec<Event> = Vec::new();
                if c.symbol_id != self.book.symbol() {
                    evs.push(self.reject(c.client_seq, Some(c.order_id), RejectReason::Invalid));
                    proof {
                        assert(evs@ =~= process_result(s0, cmd, 0).0);
                        assert(slot_fresh(s0, cmd, 0));
                    }
                    return evs;
                }
                let ok = self.book.cancel(c.order_id, c.account_id);
                if !ok {
                    evs.push(self.reject(c.client_seq, Some(c.order_id), RejectReason::NotFound));
                    proof {
                        assert(evs@ =~= process_result(s0, cmd, 0).0);
                        assert(slot_fresh(s0, cmd, 0));
                    }
                    return evs;
                }
                evs.push(self.book_top_event());
                evs.push(self.ack(c.client_seq, c.order_id));
                proof {
                    assert(evs@ =~= process_result(s0, cmd, 0).0);
                    assert(slot_fresh(s0, cmd, 0));
                    if crate::order_book::uncrossed(s0.book) {
                        crate::order_book::lemma_remove_keeps_uncrossed(s0.book, s0.book.index[c.order_id]);
                    }
                }
                evs
            },
            Command::Replace(r) => {
                let mut evs: Vec<Event> = Vec::new();
                if r.symbol_id != self.book.symbol() || r.new_qty <= 0 {
                    evs.push(self.reject(r.client_seq, Some(r.order_id), RejectReason::Invalid));
                    proof {
                        assert(evs@ =~= process_result(s0, cmd, 0).0);
                        assert(slot_fresh(s0, cmd, 0));
                    }
                    return evs;
                }
                let (side, tif, flags) = match self.book.get(r.order_id) {
                    Some(o) => {
                        if o.account_id == r.account_id {
                            (o.side, o.tif, o.flags)
                        } else {
                            evs.push(self.reject(r.client_seq, Some(r.order_id), RejectReason::NotFound));
                            proof {
                                assert(evs@ =~= process_result(s0, cmd, 0).0);
                        assert(slot_fresh(s0, cmd, 0));
                            }
                            return evs;
                        }
                    },
                    None => {
                        evs.push(self.reject(r.client_seq, Some(r.order_id), RejectReason::NotFound));
                        proof {
                            assert(evs@ =~= process_result(s0, cmd, 0).0);
                        assert(slot_fresh(s0, cmd, 0));
                        }
                        return evs;
                    },
                };
                let ghost o = s0.book.slots[s0.book.index[r.order_id]];
                if flags.post_only && self.book.would_cross(side, r.new_price) {
                    evs.push(self.reject(r.client_seq, Some(r.order_id), RejectReason::PostOnlyWouldCross));
                    proof {
                        assert(evs@ =~= process_result(s0, cmd, 0).0);
                        crate::order_book::lemma_would_cross_after_remove(s0.book, s0.book.index[r.order_id], r.new_price);
                        assert(slot_fresh(s0, cmd, 0));
                    }
                    return evs;
                }
                proof {
                    crate::order_book::lemma_would_cross_after_remove(s0.book, s0.book.index[r.order_id], r.new_price);
                }
                let _ = self.book.cancel(r.order_id, r.account_id);
                proof {
                    self.book.lemma_wf();
                    if crate::order_book::uncrossed(s0.book) {
                        crate::order_book::lemma_remove_keeps_uncrossed(s0.book, s0.book.index[r.order_id]);
                    }
                }
                let no = NewOrder {
                    client_seq: r.client_seq,
                    order_id: r.order_id,
                    account_id: r.account_id,
                    symbol_id: r.symbol_id,
                    side,
                    price: r.new_price,
                    qty: r.new_qty,
                    tif,
                    flags,
                };
                proof {
                    assert(no == replacement_order(r, o));
                    assert(self@ == replace_base(s0, r));
                }
                let evs = self.handle_new(no);
                proof {
                    let k = choose|k: usize|
                        new_slot_fresh(replace_base(s0, r).book, no, k) && (evs@, self@) == new_order_result(
                            replace_base(s0, r),
                            no,
                            k,
                        );
                    assert(slot_fresh(s0, cmd, k));
                    assert((evs@, self@) == process_result(s0, cmd, k));
                    if crate::order_book::uncrossed(s0.book) {
                        lemma_new_order_keeps_book_uncrossed(replace_base(s0, r), no, k);
                    }
                }
                evs
            },
            _ => {
                let mut evs: Vec<Event> = Vec::new();
                let cs = client_seq_of(&cmd);
                evs.push(self.reject(cs, None, RejectReason::Invalid));
                proof {
                    assert(evs@ =~= process_result(s0, cmd, 0).0);
                    assert(slot_fresh(s0, cmd, 0));
                }
                evs
            },
        }
    }

    /// One turn of the engine's loop: processes `cmd`, counts it, and tells
    /// whether a snapshot is due every `snapshot_interval` commands (never for 0).
    pub fn run_command(&mut self, cmd: Command, snapshot_interval: u64) -> (r: (Vec<Event>, bool))
        requires
            old(self).wf(),
            process_fits(old(self)@, cmd),
            old(self)@.command_seq < u64::MAX,
        ensures
            final(self).wf(),
            exists|k: usize|
                slot_fresh(old(self)@, cmd, k) && r.0@ == process_result(old(self)@, cmd, k).0 && final(self)@ == (
                EngineModel { command_seq: (old(self)@.command_seq + 1) as u64, ..process_result(old(self)@, cmd, k).1 }),
            r.1 == (snapshot_interval > 0 && (old(self)@.command_seq + 1) % (snapshot_interval as int) == 0),
            crate::order_book::uncrossed(old(self)@.book) ==> crate::order_book::uncrossed(final(self)@.book),
    {
        let evs = self.process(cmd);
        self.command_seq = self.command_seq + 1;
        let due = snapshot_interval > 0 && self.command_seq % snapshot_interval == 0;
        (evs, due)
    }

    /// The number of commands applied so far.
    pub fn command_seq(&self) -> (r: u64)
        ensures
            r == self@.command_seq,
    {
        self.command_seq
    }

    /// Whether `process(cmd)` may be called now: the sequence numbers of its
    /// events and the level the order joins cannot overflow.
    pub fn can_process(&self, cmd: &Command) -> (r: bool)
        requires
            self.wf(),
        ensures
            r == process_guard(self@, *cmd),
            r ==> process_fits(self@, *cmd),
    {
        proof {
            self.book.lemma_wf();
        }
        if self.server_seq == u64::MAX {
            return false;
        }
        let room: u64 = u64::MAX - self.server_seq;
        match cmd {
            Command::NewOrder(no) => {
                if no.qty <= 0 {
                    return true;
                }
                if room < 2 || ((room - 2) as i128) < (no.qty as i128) {
                    return false;
                }
                let lq = self.book.level_total(no.side, no.price);
                proof {
                    lemma_remainder_at_most_qty(self@.book, *no);
                }
                lq <= i64::MAX - no.qty
            },
            Command::Replace(r) => {
                if r.new_qty <= 0 {
                    return true;
                }
                match self.book.get(r.order_id) {
                    Some(o) => {
                        if room < 2 || ((room - 2) as i128) < (r.new_qty as i128) {
                            return false;
                        }
                        let lq = self.book.level_total(o.side, r.new_price);
                        let ok = lq <= i64::MAX - r.new_qty;
                        proof {
                            if ok && !replace_invalid(self@, *r) && crate::order_book::can_cancel(self@.book, r.order_id, r.account_id) {
                                let k = self@.book.index[r.order_id];
                                crate::order_book::lemma_remove_slot_level_qty(self@.book, k, o.side, r.new_price);
                                lemma_remainder_at_most_qty(replace_base(self@, *r).book, replacement_order(*r, self@.book.slots[k]));
                            }
                        }
                        ok
                    },
                    None => true,
                }
            },
            Command::Cancel(_) => room >= 2,
            _ => true,
        }
    }

    /// Answers a command that could not be queued: an `Overloaded` reject
    /// carrying the next server sequence and the command's client sequence.
    pub fn reject_overloaded(&mut self, conn_id: u64, client_seq: u64) -> (out: Outbound)
        requires
            old(self).wf(),
            old(self)@.server_seq < u64::MAX,
        ensures
            final(self).wf(),
            out.conn_id == conn_id,
            out.ev == reject_event(old(self)@.server_seq as int, client_seq, None, RejectReason::Overloaded),
            final(self)@ == (EngineModel { server_seq: (old(self)@.server_seq + 1) as u64, ..old(self)@ }),
    {
        let ev = self.reject(client_seq, None, RejectReason::Overloaded);
        Outbound { conn_id, ev }
    }

    /// Replays one journaled command (recovery): its events are not emitted.
    fn replay_command(&mut self, cmd: &Command)
        requires
            old(self).wf(),
            replay_fits(old(self)@, *cmd),
        ensures
            final(self).wf(),
            exists|k: usize|
                slot_fresh(old(self)@, *cmd, k) && final(self)@ == replay_step(old(self)@, *cmd, k),
    {
        let ghost s0 = self@;
        match cmd {
            Command::NewOrder(no) => {
                let _ = self.process(Command::NewOrder(*no));
            },
            Command::Replace(r) => {
                let _ = self.process(Command::Replace(*r));
            },
            Command::Cancel(c) => {
                if c.symbol_id == self.book.symbol() {
                    let _ = self.book.cancel(c.order_id, c.account_id);
                }
                proof {
                    assert(slot_fresh(s0, *cmd, 0));
                }
            },
            _ => {
                proof {
                    assert(slot_fresh(s0, *cmd, 0));
                }
            },
        }
        self.command_seq = self.command_seq + 1;
    }

    /// Replays journaled commands in order, stopping before the first one whose
    /// replay could overflow a counter; returns how many were replayed.
    pub fn replay(&mut self, cmds: Vec<Command>) -> (n: usize)
        requires
            old(self).wf(),
        ensures
            final(self).wf(),
            n <= cmds.len(),
            replays_to(old(self)@, cmds@.take(n as int), final(self)@),
            n < cmds.len() ==> !replay_guard(final(self)@, cmds@[n as int]),
    {
        let ghost s0 = self@;
        let mut i: usize = 0;
        while i < cmds.len()
            invariant
                self.wf(),
                0 <= i <= cmds.len(),
                replays_to(s0, cmds@.take(i as int), self@),
                s0 == old(self)@,
            decreases cmds.len() - i,
        {
            let cmd = &cmds[i];
            if !self.can_replay(cmd) {
                return i;
            }
            let ghost mid = self@;
            self.replay_command(cmd);
            proof {
                let k = choose|k: usize| slot_fresh(mid, *cmd, k) && self@ == replay_step(mid, *cmd, k);
                let t = cmds@.take(i + 1);
                assert(t.drop_last() =~= cmds@.take(i as int));
                assert(t.last() == *cmd);
                assert(replay_step(mid, t.last(), k) == self@);
            }
            i = i + 1;
        }
        proof {
            assert(cmds@.take(i as int) =~= cmds@.take(cmds.len() as int));
        }
        i
    }

    /// Whether `cmd` can be replayed now without overflowing a counter.
    fn can_replay(&self, cmd: &Command) -> (r: bool)
        requires
            self.wf(),
        ensures
            r == replay_guard(self@, *cmd),
            r ==> replay_fits(self@, *cmd),
    {
        if self.command_seq == u64::MAX {
            return false;
        }
        match cmd {
            Command::NewOrder(_) => self.can_process(cmd),
            Command::Replace(_) => self.can_process(cmd),
            _ => true,
        }
    }

    /// Restores the engine from what persistence holds: the latest snapshot
    /// (its command count and the orders it holds), then the journal's
    /// commands after that count, replayed. Returns how many were replayed.
    /// A snapshot is refused with `BadSnapshotOrder(i)` exactly when its order
    /// at `i` cannot rest on the book its earlier orders built (no quantity
    /// left, or its level would overflow).
    pub fn restore_from_persistence(
        &mut self,
        snapshot: Option<(u64, Vec<Order>)>,
        journal: &Vec<Command>,
    ) -> (r: Result<usize, RestoreError>)
        requires
            old(self).wf(),
        ensures
            final(self).wf(),
            match r {
                Ok(n) => exists|base: EngineModel| {
                    &&& #[trigger] snapshot_base(old(self)@, snapshot, base)
                    &&& {
                        let start = journal_start(base, journal.len() as nat);
                        &&& start + n <= journal.len()
                        &&& replays_to(base, journal@.subrange(start, start + n), final(self)@)
                        &&& start + n < journal.len() ==> !replay_guard(final(self)@, journal@[start + n])
                    }
                },
                Err(RestoreError::SequenceOverflow) => snapshot matches Some((seq, _)) && seq == u64::MAX,
                Err(RestoreError::BadSnapshotOrder(i)) => match snapshot {
                    Some((seq, orders)) => {
                        &&& seq < u64::MAX
                        &&& i < orders.len()
                        &&& exists|mid: BookModel|
                            #[trigger] crate::order_book::rests_all(
                                crate::order_book::empty_book(old(self)@.book.symbol_id),
                                orders@.take(i as int),
                                mid,
                            ) && !crate::order_book::can_rest(mid, orders@[i as int])
                    },
                    None => false,
                },
            },
    {
        let ghost sym = self@.book.symbol_id;
        match snapshot {
            Some((seq, orders)) => {
                if seq == u64::MAX {
                    return Err(RestoreError::SequenceOverflow);
                }
                match self.book.restore_from_snapshot(&orders) {
                    Ok(()) => {},
                    Err(i) => {
                        return Err(RestoreError::BadSnapshotOrder(i));
                    },
                }
                self.command_seq = seq;
                self.server_seq = seq + 1;
            },
            None => {},
        }
        let ghost base = self@;
        let start: usize = if self.command_seq < journal.len() as u64 {
            self.command_seq as usize
        } else {
            journal.len()
        };
        let mut rest: Vec<Command> = Vec::new();
        let mut i: usize = start;
        while i < journal.len()
            invariant
                start <= i <= journal.len(),
                rest@ == journal@.subrange(start as int, i as int),
            decreases journal.len() - i,
        {
            let c = copy_command(&journal[i]);
            rest.push(c);
            proof {
                assert(journal@.subrange(start as int, i + 1) =~= journal@.subrange(start as int, i as int).push(
                    journal@[i as int],
                ));
            }
            i = i + 1;
        }
        let n = self.replay(rest);
        proof {
            assert(snapshot_base(old(self)@, snapshot, base));
            assert(journal@.subrange(start as int, start + n) =~= journal@.subrange(
                start as int,
                journal.len() as int,
            ).take(n as int));
        }
        Ok(n)
    }

    /// What a snapshot of the engine holds: the number of commands applied and
    /// the live orders of the book, level by level in time priority.
    pub fn snapshot_state(&self) -> (r: (u64, Vec<Order>))
        requires
            self.wf(),
        ensures
            r.0 == self@.command_seq,
            crate::order_book::is_queue_listing(self@.book, r.1@),
    {
        (self.command_seq, self.book.live_orders())
    }

    fn book_top_event(&mut self) -> (ev: Event)
        requires
            old(self).wf(),
            old(self).server_seq < u64::MAX,
        ensures
            ev == top_event(old(self).server_seq as int, old(self).book@),
            final(self).server_seq == old(self).server_seq + 1,
            final(self).command_seq == old(self).command_seq,
            final(self).book == old(self).book,
    {
        let (bid_px, bid_qty) = match self.book.best_bid() {
            Some((px, qty)) => (Some(px), Some(qty)),
            None => (None, None),
        };
        let (ask_px, ask_qty) = match self.book.best_ask() {
            Some((px, qty)) => (Some(px), Some(qty)),
            None => (None, None),
        };
        Event::BookTop(
            BookTop {
                server_seq: self.next_seq(),
                symbol_id: self.book.symbol(),
                best_bid_px: bid_px,
                best_bid_qty: bid_qty,
                best_ask_px: ask_px,
                best_ask_qty: ask_qty,
            },
        )
    }
}


/// A copy of a command.
pub fn copy_command(cmd: &Command) -> (r: Command)
    ensures
        r == *cmd,
{
    match cmd {
        Command::NewOrder(o) => Command::NewOrder(*o),
        Command::Cancel(c) => Command::Cancel(*c),
        Command::Replace(r) => Command::Replace(*r),
        Command::SetRiskLimits(x) => Command::SetRiskLimits(*x),
        Command::QueryAccount(x) => Command::QueryAccount(*x),
        Command::Authenticate(a) => Command::Authenticate(crate::types::Authenticate { api_key: a.api_key.clone() }),
    }
}

/// The client sequence a command carries (zero for one that carries none).
pub fn client_seq_of(cmd: &Command) -> (r: u64)
    ensures
        r == command_client_seq(*cmd),
{
    match cmd {
        Command::NewOrder(o) => o.client_seq,
        Command::Cancel(c) => c.client_seq,
        Command::Replace(r) => r.client_seq,
        Command::SetRiskLimits(x) => x.client_seq,
        Command::QueryAccount(x) => x.client_seq,
        Command::Authenticate(_) => 0,
    }
}

/// The events of one command are numbered consecutively from the engine's
/// server sequence, which ends just past the last of them; the command count is
/// left alone; the last event answers the command (an ack or a reject with the
/// command's client sequence) and an ack comes right after a top-of-book event.
pub proof fn lemma_events_numbered(s: EngineModel, cmd: Command, k: usize)
    requires
        crate::order_book::model_wf(s.book),
        process_fits(s, cmd),
    ensures
        ({
            let (evs, t) = process_result(s, cmd, k);
            &&& evs.len() >= 1
            &&& forall|i: int| 0 <= i < evs.len() ==> #[trigger] event_seq(evs[i]) == s.server_seq + i
            &&& t.server_seq == s.server_seq + evs.len()
            &&& t.command_seq == s.command_seq
            &&& match evs.last() {
                Event::Ack(a) => a.client_seq == command_client_seq(cmd) && evs.len() >= 2
                    && evs[evs.len() - 2] is BookTop,
                Event::Reject(r) => r.client_seq == command_client_seq(cmd),
                _ => false,
            }
        }),
{
    match cmd {
        Command::NewOrder(no) => lemma_new_events_numbered(s, no, k),
        Command::Replace(r) => {
            if !replace_invalid(s, r) && crate::order_book::can_cancel(s.book, r.order_id, r.account_id) {
                let o = s.book.slots[s.book.index[r.order_id]];
                if !new_post_only_rejected(s.book, replacement_order(r, o)) {
                    lemma_new_events_numbered(replace_base(s, r), replacement_order(r, o), k);
                }
            }
        },
        _ => {},
    }
}

proof fn lemma_new_events_numbered(s: EngineModel, no: NewOrder, k: usize)
    requires
        new_fits(s, no),
    ensures
        ({
            let (evs, t) = new_order_result(s, no, k);
            &&& evs.len() >= 1
            &&& forall|i: int| 0 <= i < evs.len() ==> #[trigger] event_seq(evs[i]) == s.server_seq + i
            &&& t.server_seq == s.server_seq + evs.len()
            &&& t.command_seq == s.command_seq
            &&& match evs.last() {
                Event::Ack(a) => a.client_seq == no.client_seq && evs.len() >= 2 && evs[evs.len() - 2] is BookTop,
                Event::Reject(r) => r.client_seq == no.client_seq,
                _ => false,
            }
        }),
{
    if !new_invalid(s.book, no) && !new_post_only_rejected(s.book, no) {
        let fills = new_fills(s.book, no);
        if crate::order_book::spec_would_cross(s.book, no.side, no.price) {
            crate::order_book::lemma_match_respects_limit(s.book, no.side, no.order_id, no.price, no.qty as int);
            crate::order_book::lemma_fills_count(fills);
        }
        let seq = s.server_seq as int;
        let evs = new_order_result(s, no, k).0;
        let n = fills.len() as int;
        assert(n <= no.qty);
        assert forall|i: int| 0 <= i < evs.len() implies #[trigger] event_seq(evs[i]) == s.server_seq + i by {
            if i < n {
                assert(evs[i] == fill_events(fills, seq, no.client_seq, s.book)[i]);
            }
        }
    }
}

/// A new order never leaves the book crossed: it trades with every crossing
/// level it can, and what it does not trade rests only where it crosses
/// nothing; a rejected order changes nothing.
pub proof fn lemma_new_order_keeps_book_uncrossed(s: EngineModel, no: NewOrder, k: usize)
    requires
        crate::order_book::model_wf(s.book),
        crate::order_book::uncrossed(s.book),
    ensures
        crate::order_book::uncrossed(new_order_result(s, no, k).1.book),
{
    if !new_invalid(s.book, no) && !new_post_only_rejected(s.book, no) {
        let b = s.book;
        let ts = no.side;
        let ms = crate::types::spec_opposite(ts);
        crate::order_book::lemma_wf_sides(b, ms);
        crate::order_book::lemma_wf_sides(b, ts);
        let b1 = book_after_match(b, no);
        if crate::order_book::spec_would_cross(b, ts, no.price) {
            crate::order_book::lemma_match_result_outcome(b, ts, no.order_id, no.price, no.qty as int);
        } else {
            crate::order_book::lemma_best_blocks(b, ts, no.price);
            assert(b1 == b);
        }
        assert(crate::order_book::side_levels(b1, ts) == crate::order_book::side_levels(b, ts));
        assert(crate::order_book::side_levels(b1, ms).dom().subset_of(crate::order_book::side_levels(b, ms).dom()));
        assert forall|x: Price, y: Price| #[trigger] b1.bids.contains_key(x) && #[trigger] b1.asks.contains_key(y) implies x
            < y by {
            match ts {
                Side::Buy => {
                    assert(b.bids.contains_key(x));
                    assert(crate::order_book::side_levels(b1, ms).dom().contains(y));
                    assert(b.asks.contains_key(y));
                },
                Side::Sell => {
                    assert(b.asks.contains_key(y));
                    assert(crate::order_book::side_levels(b1, ms).dom().contains(x));
                    assert(b.bids.contains_key(x));
                },
            }
        }
        if new_rests(b, no) {
            let o = resting_order(no, new_remainder(b, no));
            assert forall|p: Price| #[trigger] crate::order_book::side_levels(b1, ms).contains_key(p) implies !crate::order_book::crosses(
                ts,
                no.price,
                p,
            ) by {
                if !crate::order_book::spec_would_cross(b, ts, no.price) {
                    assert(new_fills(b, no) == Seq::<MatchFill>::empty());
                }
            }
            crate::order_book::lemma_rest_keeps_uncrossed(b1, o, k);
        }
    }
}

/// An immediate-or-cancel order never rests: once a new IOC order whose id was
/// not on the book has been processed, whether it was refused, crossed and
/// traded, or crossed nothing, the book indexes no order under its id.
pub proof fn lemma_ioc_never_rests(s: EngineModel, no: NewOrder, k: usize)
    requires
        no.tif == TimeInForce::Ioc,
        !s.book.index.contains_key(no.order_id),
    ensures
        !new_order_result(s, no, k).1.book.index.contains_key(no.order_id),
        !process_result(s, Command::NewOrder(no), k).1.book.index.contains_key(no.order_id),
{
    if crate::order_book::spec_would_cross(s.book, no.side, no.price) {
        crate::order_book::lemma_match_adds_no_order(s.book, no.side, no.order_id, no.price, no.qty as int, no.order_id);
    }
}

/// A good-till-cancel order rests what it does not trade: once an accepted GTC
/// order has matched with quantity left over, the book indexes it under its id
/// in slot `k`, at its price and side, with exactly that quantity remaining.
pub proof fn lemma_gtc_remainder_rests(s: EngineModel, no: NewOrder, k: usize)
    requires
        no.tif == TimeInForce::Gtc,
        !new_invalid(s.book, no),
        !new_post_only_rejected(s.book, no),
        no.qty - crate::order_book::fills_qty(new_fills(s.book, no)) > 0,
    ensures
        ({
            let b2 = new_order_result(s, no, k).1.book;
            &&& b2.index.contains_key(no.order_id)
            &&& b2.index[no.order_id] == k
            &&& b2.slots.contains_key(k)
            &&& b2.slots[k].order_id == no.order_id
            &&& b2.slots[k].side == no.side
            &&& b2.slots[k].price == no.price
            &&& b2.slots[k].qty_rem == no.qty - crate::order_book::fills_qty(new_fills(s.book, no))
        }),
{
    lemma_remainder_at_most_qty(s.book, no);
}

/// Deterministic replay: replaying a command leaves the book as processing it
/// does, and counts the command.
pub proof fn lemma_replay_same_book(s: EngineModel, cmd: Command, k: usize)
    requires
        s.command_seq < u64::MAX,
    ensures
        replay_step(s, cmd, k).book == process_result(s, cmd, k).1.book,
        replay_step(s, cmd, k).command_seq == s.command_seq + 1,
{
}

/// The engine state after processing `cmd` and counting it, as `run_command`
/// does (an accepted order's remainder resting in slot `k`).
pub open spec fn process_step(s: EngineModel, cmd: Command, k: usize) -> EngineModel {
    EngineModel { command_seq: (s.command_seq + 1) as u64, ..process_result(s, cmd, k).1 }
}

/// Processing `cmds` from `s` in order can end in `t`.
pub open spec fn processes_to(s: EngineModel, cmds: Seq<Command>, t: EngineModel) -> bool
    decreases cmds.len(),
{
    if cmds.len() == 0 {
        t == s
    } else {
        exists|mid: EngineModel, k: usize|
            #[trigger] process_step(mid, cmds.last(), k) == t && slot_fresh(mid, cmds.last(), k)
                && processes_to(s, cmds.drop_last(), mid)
    }
}

/// What a command does to the book depends on the book alone.
proof fn lemma_process_book_only(a: EngineModel, b: EngineModel, cmd: Command, k: usize)
    requires
        a.book == b.book,
    ensures
        process_result(a, cmd, k).1.book == process_result(b, cmd, k).1.book,
        process_result(a, cmd, k).1.command_seq == a.command_seq,
        process_result(b, cmd, k).1.command_seq == b.command_seq,
        slot_fresh(a, cmd, k) == slot_fresh(b, cmd, k),
{
    match cmd {
        Command::Replace(r) => {
            assert(replace_base(a, r).book == replace_base(b, r).book);
        },
        _ => {},
    }
}

/// Deterministic replay over a whole journal: replaying a run of commands
/// rebuilds the book, and the command count, that processing the same
/// commands in the same order builds.
pub proof fn lemma_replay_rebuilds_processed_book(s: EngineModel, cmds: Seq<Command>, t: EngineModel)
    requires
        replays_to(s, cmds, t),
    ensures
        exists|t2: EngineModel| #[trigger] processes_to(s, cmds, t2) && t2.book == t.book && t2.command_seq == t.command_seq,
    decreases cmds.len(),
{
    if cmds.len() == 0 {
        assert(processes_to(s, cmds, s));
    } else {
        let (mid, k) = choose|mid: EngineModel, k: usize|
            #[trigger] replay_step(mid, cmds.last(), k) == t && slot_fresh(mid, cmds.last(), k) && replays_to(
                s,
                cmds.drop_last(),
                mid,
            );
        lemma_replay_rebuilds_processed_book(s, cmds.drop_last(), mid);
        let mid2 = choose|t2: EngineModel|
            #[trigger] processes_to(s, cmds.drop_last(), t2) && t2.book == mid.book && t2.command_seq == mid.command_seq;
        lemma_process_book_only(mid, mid2, cmds.last(), k);
        let t2 = process_step(mid2, cmds.last(), k);
        assert(replay_step(mid, cmds.last(), k).book == process_result(mid, cmds.last(), k).1.book);
        assert(processes_to(s, cmds, t2));
    }
}

/// The quantity of two runs of fills is the sum of their quantities.
pub proof fn lemma_fills_qty_concat(a: Seq<MatchFill>, b: Seq<MatchFill>)
    ensures
        crate::order_book::fills_qty(a + b) == crate::order_book::fills_qty(a)
            + crate::order_book::fills_qty(b),
    decreases a.len(),
{
    if a.len() == 0 {
        assert(a + b =~= b);
    } else {
        assert((a + b).drop_first() =~= a.drop_first() + b);
        assert((a + b)[0] == a[0]);
        lemma_fills_qty_concat(a.drop_first(), b);
    }
}

} // verus!
