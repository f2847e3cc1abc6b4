//! Price-time priority limit order book of one symbol.
//!
//! Resting orders live in a slab; each price level keeps a FIFO queue of slab
//! slots and the aggregate quantity of its live orders. Cancelled orders are
//! marked dead (quantity zero) and skipped lazily when they reach the front of
//! their queue.
use std::collections::{BTreeMap, HashMap, VecDeque};

use slab::Slab;
use vstd::prelude::*;

use crate::types::{AccountId, OrderFlags, OrderId, Price, Qty, Side, SymbolId, TimeInForce};

verus! {

#[derive(Clone, Copy, Debug, PartialEq, Eq, Structural)]
pub struct Order {
    pub order_id: OrderId,
    pub account_id: AccountId,
    pub symbol_id: SymbolId,
    pub side: Side,
    pub price: Price,
    pub qty_rem: Qty,
    pub tif: TimeInForce,
    pub flags: OrderFlags,
}

#[derive(Clone, Copy, Debug, PartialEq, Eq, Structural)]
pub struct MatchFill {
    pub maker_order_id: OrderId,
    pub taker_order_id: OrderId,
    pub price: Price,
    pub qty: Qty,
}

// ------------------------------------------------------------------
// The slab of the `slab` crate, behind trusted items.
// ------------------------------------------------------------------

#[verifier::external_type_specification]
#[verifier::external_body]
#[verifier::reject_recursive_types(T)]
pub struct ExSlab<T>(Slab<T>);

/// The occupied slots of a slab of orders, each with the order it holds.
pub uninterp spec fn slab_entries(s: Slab<Order>) -> Map<usize, Order>;

/// `Slab::new`: a slab with no occupied slot.
#[verifier::external_body]
fn slab_new() -> (slab: Slab<Order>)
    ensures
        slab_entries(slab).dom().is_empty(),
{
    Slab::new()
}

/// `Slab::insert`: stores the order in a slot that was vacant and returns that slot.
#[verifier::external_body]
fn slab_insert(s: &mut Slab<Order>, o: Order) -> (k: usize)
    ensures
        !slab_entries(*old(s)).contains_key(k),
        slab_entries(*final(s)) == slab_entries(*old(s)).insert(k, o),
{
    s.insert(o)
}

/// `Slab::get`: the order in slot `k`, or `None` when the slot is vacant.
#[verifier::external_body]
fn slab_get(s: &Slab<Order>, k: usize) -> (r: Option<&Order>)
    ensures
        match r {
            Some(o) => slab_entries(*s).contains_key(k) && *o == slab_entries(*s)[k],
            None => !slab_entries(*s).contains_key(k),
        },
{
    s.get(k)
}

/// `IndexMut` of `Slab`: a mutable reference to the order in an occupied slot;
/// what is written through it becomes the slot's order.
#[verifier::external_body]
fn slab_index_mut(s: &mut Slab<Order>, k: usize) -> (r: &mut Order)
    requires
        slab_entries(*old(s)).contains_key(k),
    ensures
        *r == slab_entries(*old(s))[k],
        slab_entries(*final(s)) == slab_entries(*old(s)).insert(k, *final(r)),
{
    &mut s[k]
}

/// `Slab::remove`: vacates an occupied slot and returns its order.
#[verifier::external_body]
fn slab_remove(s: &mut Slab<Order>, k: usize) -> (o: Order)
    requires
        slab_entries(*old(s)).contains_key(k),
    ensures
        o == slab_entries(*old(s))[k],
        slab_entries(*final(s)) == slab_entries(*old(s)).remove(k),
{
    s.remove(k)
}

/// `Slab::capacity`: every occupied slot lies below it (slots index the slab's
/// entry vector, whose length never exceeds its capacity).
#[verifier::external_body]
fn slab_capacity(slab: &Slab<Order>) -> (r: usize)
    ensures
        forall|k: usize| slab_entries(*slab).contains_key(k) ==> k < r,
{
    slab.capacity()
}

// ------------------------------------------------------------------
// `BTreeMap` first/last entries (std), behind trusted items.
// ------------------------------------------------------------------

/// `BTreeMap::first_key_value`: the least key of the map, if any.
#[verifier::external_body]
fn level_map_first_key(m: &BTreeMap<Price, Level>) -> (r: Option<Price>)
    ensures
        match r {
            Some(p) => m@.contains_key(p) && forall|q: Price| m@.contains_key(q) ==> p <= q,
            None => m@.dom() == Set::<Price>::empty(),
        },
{
    m.first_key_value().map(|(k, _)| *k)
}

/// `BTreeMap::last_key_value`: the greatest key of the map, if any.
#[verifier::external_body]
fn level_map_last_key(m: &BTreeMap<Price, Level>) -> (r: Option<Price>)
    ensures
        match r {
            Some(p) => m@.contains_key(p) && forall|q: Price| m@.contains_key(q) ==> q <= p,
            None => m@.dom() == Set::<Price>::empty(),
        },
{
    m.last_key_value().map(|(k, _)| *k)
}

// ------------------------------------------------------------------
// Mathematical model of the book.
// ------------------------------------------------------------------

/// A slot holds a live order when it is occupied by an order with quantity left.
pub open spec fn is_live(slab: Map<usize, Order>, k: usize) -> bool {
    slab.contains_key(k) && slab[k].qty_rem > 0
}

/// The live slots of a queue, in queue order.
pub open spec fn live_slots(q: Seq<usize>, slab: Map<usize, Order>) -> Seq<usize>
    decreases q.len(),
{
    if q.len() == 0 {
        Seq::empty()
    } else if is_live(slab, q[0]) {
        seq![q[0]] + live_slots(q.drop_first(), slab)
    } else {
        live_slots(q.drop_first(), slab)
    }
}

/// Sum of the remaining quantities of the orders in the given slots.
pub open spec fn slots_qty(s: Seq<usize>, slots: Map<usize, Order>) -> int
    decreases s.len(),
{
    if s.len() == 0 {
        0
    } else {
        slots[s[0]].qty_rem + slots_qty(s.drop_first(), slots)
    }
}

/// Abstract state of a book: the live orders by slot, the FIFO of slots at each
/// price of each side, and the slot under which each order id is indexed.
pub struct BookModel {
    pub symbol_id: SymbolId,
    pub slots: Map<usize, Order>,
    pub bids: Map<Price, Seq<usize>>,
    pub asks: Map<Price, Seq<usize>>,
    pub index: Map<OrderId, usize>,
}

/// The levels of the book side that holds orders of side `s`.
pub open spec fn side_levels(m: BookModel, s: Side) -> Map<Price, Seq<usize>> {
    match s {
        Side::Buy => m.bids,
        Side::Sell => m.asks,
    }
}

/// Aggregate remaining quantity at price `p` on the side of `s` (zero when there is no level).
pub open spec fn level_qty(m: BookModel, s: Side, p: Price) -> int {
    if side_levels(m, s).contains_key(p) {
        slots_qty(side_levels(m, s)[p], m.slots)
    } else {
        0
    }
}

/// `p` is the best price of the side of `s`: highest bid, lowest ask.
pub open spec fn is_best(levels: Map<Price, Seq<usize>>, s: Side, p: Price) -> bool {
    &&& levels.contains_key(p)
    &&& forall|q: Price|
        levels.contains_key(q) ==> match s {
            Side::Buy => q <= p,
            Side::Sell => p <= q,
        }
}

/// Best price of the side of `s`, when the side has a level.
pub open spec fn best_price(m: BookModel, s: Side) -> Option<Price> {
    if exists|p: Price| is_best(side_levels(m, s), s, p) {
        Some(choose|p: Price| is_best(side_levels(m, s), s, p))
    } else {
        None
    }
}

/// Top of the side of `s`: best price and the aggregate quantity there.
pub open spec fn spec_top(m: BookModel, s: Side) -> Option<(Price, Qty)> {
    match best_price(m, s) {
        Some(p) => Some((p, level_qty(m, s, p) as Qty)),
        None => None,
    }
}

/// An order of side `s` at price `px` would trade against the opposite side.
pub open spec fn spec_would_cross(m: BookModel, s: Side, px: Price) -> bool {
    match s {
        Side::Buy => match best_price(m, Side::Sell) {
            Some(ask) => px >= ask,
            None => false,
        },
        Side::Sell => match best_price(m, Side::Buy) {
            Some(bid) => px <= bid,
            None => false,
        },
    }
}

/// The order indexed under `id`, when there is one.
pub open spec fn indexed_order(m: BookModel, id: OrderId) -> Option<Order> {
    if m.index.contains_key(id) {
        Some(m.slots[m.index[id]])
    } else {
        None
    }
}

// ------------------------------------------------------------------
// The book.
// ------------------------------------------------------------------

struct Level {
    queue: VecDeque<usize>,
    total_qty: Qty,
}

impl Level {
    fn new() -> (l: Self)
        ensures
            l.queue@ == Seq::<usize>::empty(),
            l.total_qty == 0,
    {
        Level { queue: VecDeque::new(), total_qty: 0 }
    }
}

pub struct OrderBook {
    pub symbol_id: SymbolId,
    bids: BTreeMap<Price, Level>,
    asks: BTreeMap<Price, Level>,
    orders: Slab<Order>,
    index: HashMap<OrderId, usize>,
}

spec fn level_wf(lvl: Level, s: Side, p: Price, slab: Map<usize, Order>) -> bool {
    &&& lvl.queue@.no_duplicates()
    &&& forall|i: int|
        0 <= i < lvl.queue@.len() ==> {
            let k = #[trigger] lvl.queue@[i];
            &&& slab.contains_key(k)
            &&& slab[k].side == s
            &&& slab[k].price == p
        }
    &&& lvl.total_qty == slots_qty(live_slots(lvl.queue@, slab), slab)
    &&& lvl.total_qty > 0
}

spec fn side_wf(levels: Map<Price, Level>, s: Side, slab: Map<usize, Order>) -> bool {
    forall|p: Price| #[trigger] levels.contains_key(p) ==> level_wf(levels[p], s, p, slab)
}

impl OrderBook {
    spec fn slab(&self) -> Map<usize, Order> {
        slab_entries(self.orders)
    }

    spec fn levels_of(&self, s: Side) -> Map<Price, Level> {
        match s {
            Side::Buy => self.bids@,
            Side::Sell => self.asks@,
        }
    }

    /// The internal invariant of the book.
    pub closed spec fn wf(&self) -> bool {
        let slab = self.slab();
        &&& side_wf(self.bids@, Side::Buy, slab)
        &&& side_wf(self.asks@, Side::Sell, slab)
        &&& forall|k: usize| #[trigger] slab.contains_key(k) ==> slab[k].qty_rem >= 0
        &&& forall|k: usize|
            #[trigger] is_live(slab, k) ==> {
                let levels = self.levels_of(slab[k].side);
                &&& levels.contains_key(slab[k].price)
                &&& levels[slab[k].price].queue@.contains(k)
            }
        &&& forall|id: OrderId|
            #[trigger] self.index@.contains_key(id) ==> {
                &&& is_live(slab, self.index@[id])
                &&& slab[self.index@[id]].order_id == id
            }
    }
}

impl View for OrderBook {
    type V = BookModel;

    closed spec fn view(&self) -> BookModel {
        let slab = slab_entries(self.orders);
        BookModel {
            symbol_id: self.symbol_id,
            slots: Map::new(|k: usize| is_live(slab, k), |k: usize| slab[k]),
            bids: self.bids@.map_values(|l: Level| live_slots(l.queue@, slab)),
            asks: self.asks@.map_values(|l: Level| live_slots(l.queue@, slab)),
            index: self.index@,
        }
    }
}

impl OrderBook {
    proof fn lemma_view_slots(&self)
        ensures
            self@.slots == live_part(self.slab()),
            self@.bids.dom() == self.bids@.dom(),
            self@.asks.dom() == self.asks@.dom(),
            forall|p: Price|
                #[trigger] self.bids@.contains_key(p) ==> self@.bids[p] == live_slots(
                    self.bids@[p].queue@,
                    self.slab(),
                ),
            forall|p: Price|
                #[trigger] self.asks@.contains_key(p) ==> self@.asks[p] == live_slots(
                    self.asks@[p].queue@,
                    self.slab(),
                ),
    {
    }

    /// The top of one side: its best price with the level's aggregate quantity.
    fn top_of(&self, s: Side) -> (r: Option<(Price, Qty)>)
        requires
            self.wf(),
        ensures
            r == spec_top(self@, s),
    {
        proof {
            self.lemma_view_slots();
        }
        let levels = match s {
            Side::Buy => &self.bids,
            Side::Sell => &self.asks,
        };
        let first = match s {
            Side::Buy => level_map_last_key(levels),
            Side::Sell => level_map_first_key(levels),
        };
        match first {
            Some(px) => {
                let lvl = levels.get(&px).unwrap();
                proof {
                    let m = side_levels(self@, s);
                    assert(is_best(m, s, px));
                    lemma_best_is_unique(m, s, px);
                    lemma_level_qty_live(lvl.queue@, self.slab());
                    assert(level_wf(*lvl, s, px, self.slab()));
                }
                Some((px, lvl.total_qty))
            },
            None => {
                proof {
                    let m = side_levels(self@, s);
                    assert forall|p: Price| !is_best(m, s, p) by {
                        if is_best(m, s, p) {
                            assert(levels@.dom().contains(p));
                        }
                    }
                }
                None
            },
        }
    }

    /// Highest bid price with the aggregate quantity resting there.
    pub fn best_bid(&self) -> (r: Option<(Price, Qty)>)
        requires
            self.wf(),
        ensures
            r == spec_top(self@, Side::Buy),
    {
        self.top_of(Side::Buy)
    }

    /// Lowest ask price with the aggregate quantity resting there.
    pub fn best_ask(&self) -> (r: Option<(Price, Qty)>)
        requires
            self.wf(),
        ensures
            r == spec_top(self@, Side::Sell),
    {
        self.top_of(Side::Sell)
    }

    /// Whether an order of side `side` at price `px` would trade on arrival.
    pub fn would_cross(&self, side: Side, px: Price) -> (r: bool)
        requires
            self.wf(),
        ensures
            r == spec_would_cross(self@, side, px),
    {
        match side {
            Side::Buy => match self.best_ask() {
                Some((ask, _)) => px >= ask,
                None => false,
            },
            Side::Sell => match self.best_bid() {
                Some((bid, _)) => px <= bid,
                None => false,
            },
        }
    }

    /// The order indexed under `order_id`, if any.
    pub fn get(&self, order_id: OrderId) -> (r: Option<&Order>)
        requires
            self.wf(),
        ensures
            match r {
                Some(o) => indexed_order(self@, order_id) == Some(*o),
                None => indexed_order(self@, order_id) == None::<Order>,
            },
    {
        let key = *self.index.get(&order_id)?;
        slab_get(&self.orders, key)
    }

    /// Number of order ids currently indexed.
    pub fn live_order_count(&self) -> (r: usize)
        ensures
            r == self@.index.len(),
    {
        self.index.len()
    }

    /// Appends `key` (a slot holding a live order of side `s` at `price`) to the
    /// FIFO of its level, creating the level if needed.
    fn push_to_level(
        levels: &mut BTreeMap<Price, Level>,
        Ghost(s): Ghost<Side>,
        Ghost(slab): Ghost<Map<usize, Order>>,
        price: Price,
        key: usize,
        qty: Qty,
    )
        requires
            side_wf(old(levels)@, s, slab.remove(key)),
            !slab.remove(key).contains_key(key),
            slab.contains_key(key),
            slab[key].side == s,
            slab[key].price == price,
            slab[key].qty_rem == qty,
            qty > 0,
            old(levels)@.contains_key(price) ==> old(levels)@[price].total_qty + qty <= i64::MAX,
        ensures
            side_wf(final(levels)@, s, slab),
            final(levels)@.map_values(|l: Level| live_slots(l.queue@, slab)) == old(levels)@.map_values(
                |l: Level| live_slots(l.queue@, slab.remove(key)),
            ).insert(
                price,
                if old(levels)@.contains_key(price) {
                    live_slots(old(levels)@[price].queue@, slab.remove(key))
                } else {
                    Seq::<usize>::empty()
                }.push(key),
            ),
            forall|p: Price|
                #[trigger] final(levels)@.contains_key(p) ==> (p == price || old(levels)@.contains_key(p)),
            final(levels)@.contains_key(price),
            final(levels)@[price].queue@.contains(key),
            forall|p: Price|
                #[trigger] old(levels)@.contains_key(p) && p != price ==> final(levels)@[p] == old(
                    levels,
                )@[p],
            forall|p: Price| #[trigger] old(levels)@.contains_key(p) ==> final(levels)@.contains_key(p),
            old(levels)@.contains_key(price) ==> old(levels)@[price].queue@.is_prefix_of(final(levels)@[price].queue@),
    {
        let ghost s0 = slab.remove(key);
        let ghost old_levels = levels@;
        let mut lvl = match levels.remove(&price) {
            Some(l) => l,
            None => Level::new(),
        };
        let ghost q0 = lvl.queue@;
        proof {
            assert(agree_except(s0, slab, key));
            assert forall|p: Price| #[trigger] old_levels.contains_key(p) implies !old_levels[p].queue@.contains(
                key,
            ) by {
                assert(level_wf(old_levels[p], s, p, s0));
                if old_levels[p].queue@.contains(key) {
                    let i = choose|i: int| 0 <= i < old_levels[p].queue@.len() && old_levels[p].queue@[i] == key;
                    assert(s0.contains_key(old_levels[p].queue@[i]));
                }
            }
            lemma_levels_frame(old_levels, s, s0, slab, key);
        }
        lvl.total_qty = lvl.total_qty + qty;
        lvl.queue.push_back(key);
        proof {
            lemma_live_slots_push(q0, key, slab);
            assert(is_live(slab, key));
            assert(live_slots(q0, slab) + seq![key] =~= live_slots(q0, slab).push(key));
            lemma_slots_qty_push(live_slots(q0, slab), key, slab);
            if old_levels.contains_key(price) {
                assert(level_wf(old_levels[price], s, price, slab));
            } else {
                assert(live_slots(q0, slab) =~= Seq::<usize>::empty());
            }
            assert forall|i: int| 0 <= i < lvl.queue@.len() implies {
                let k = #[trigger] lvl.queue@[i];
                &&& slab.contains_key(k)
                &&& slab[k].side == s
                &&& slab[k].price == price
            } by {
                if i < q0.len() {
                    assert(lvl.queue@[i] == q0[i]);
                    assert(level_wf(old_levels[price], s, price, slab));
                }
            }
            assert(!q0.contains(key));
            assert(lvl.queue@.no_duplicates()) by {
                assert forall|i: int, j: int| 0 <= i < j < lvl.queue@.len() implies lvl.queue@[i] != lvl.queue@[j] by {
                    if j == q0.len() {
                        assert(lvl.queue@[i] == q0[i]);
                    } else {
                        assert(lvl.queue@[i] == q0[i]);
                        assert(lvl.queue@[j] == q0[j]);
                        assert(level_wf(old_levels[price], s, price, slab));
                    }
                }
            }
            assert(level_wf(lvl, s, price, slab));
            if old_levels.contains_key(price) {
                assert(q0.is_prefix_of(lvl.queue@));
            }
        }
        levels.insert(price, lvl);
        proof {
            assert(live_slots(q0, slab) == (if old_levels.contains_key(price) {
                live_slots(old_levels[price].queue@, s0)
            } else {
                Seq::<usize>::empty()
            }));
            assert(levels@.map_values(|l: Level| live_slots(l.queue@, slab)) =~= old_levels.map_values(
                |l: Level| live_slots(l.queue@, s0),
            ).insert(price, live_slots(q0, slab).push(key)));
            assert(lvl.queue@.contains(key)) by {
                assert(lvl.queue@[q0.len() as int] == key);
            }
        }
    }

    /// Rests `order` at the back of its price level's FIFO.
    pub fn insert_resting(&mut self, order: Order)
        requires
            old(self).wf(),
            order.qty_rem > 0,
            level_qty(old(self)@, order.side, order.price) + order.qty_rem <= i64::MAX,
        ensures
            final(self).wf(),
            exists|k: usize|
                !old(self)@.slots.contains_key(k) && final(self)@ == rest_order(old(self)@, order, k),
    {
        let ghost s0 = self.slab();
        proof {
            self.lemma_view_slots();
            if side_levels(self@, order.side).contains_key(order.price) {
                let lv = self.levels_of(order.side)[order.price];
                lemma_level_qty_live(lv.queue@, s0);
                assert(level_wf(lv, order.side, order.price, s0));
            }
        }
        let key = slab_insert(&mut self.orders, order);
        let ghost s1 = self.slab();
        self.index.insert(order.order_id, key);
        proof {
            assert(s1.remove(key) =~= s0);
            assert(agree_except(s0, s1, key));
        }
        match order.side {
            Side::Buy => {
                proof {
                    assert forall|p: Price| #[trigger] self.asks@.contains_key(p) implies !self.asks@[p].queue@.contains(key) by {
                        assert(level_wf(self.asks@[p], Side::Sell, p, s0));
                        if self.asks@[p].queue@.contains(key) {
                            let i = choose|i: int| 0 <= i < self.asks@[p].queue@.len() && self.asks@[p].queue@[i] == key;
                            assert(s0.contains_key(self.asks@[p].queue@[i]));
                        }
                    }
                    lemma_levels_frame(self.asks@, Side::Sell, s0, s1, key);
                }
                Self::push_to_level(&mut self.bids, Ghost(Side::Buy), Ghost(s1), order.price, key, order.qty_rem);
            },
            Side::Sell => {
                proof {
                    assert forall|p: Price| #[trigger] self.bids@.contains_key(p) implies !self.bids@[p].queue@.contains(key) by {
                        assert(level_wf(self.bids@[p], Side::Buy, p, s0));
                        if self.bids@[p].queue@.contains(key) {
                            let i = choose|i: int| 0 <= i < self.bids@[p].queue@.len() && self.bids@[p].queue@[i] == key;
                            assert(s0.contains_key(self.bids@[p].queue@[i]));
                        }
                    }
                    lemma_levels_frame(self.bids@, Side::Buy, s0, s1, key);
                }
                Self::push_to_level(&mut self.asks, Ghost(Side::Sell), Ghost(s1), order.price, key, order.qty_rem);
            },
        }
        proof {
            let m0 = old(self)@;
            let m1 = self@;
            let r = rest_order(m0, order, key);
            assert(m1.slots =~= r.slots);
            assert(m1.index =~= r.index);
            assert(m1.bids =~= r.bids);
            assert(m1.asks =~= r.asks);
            // invariant: live slots sit in their levels
            assert forall|k: usize| #[trigger] is_live(s1, k) implies {
                let levels = self.levels_of(s1[k].side);
                &&& levels.contains_key(s1[k].price)
                &&& levels[s1[k].price].queue@.contains(k)
            } by {
                if k != key {
                    assert(is_live(s0, k));
                    let lv0 = old(self).levels_of(s0[k].side);
                    assert(lv0.contains_key(s0[k].price));
                    if s0[k].side == order.side && s0[k].price == order.price {
                        let q0 = lv0[s0[k].price].queue@;
                        let q1 = self.levels_of(s1[k].side)[s1[k].price].queue@;
                        assert(q0.is_prefix_of(q1));
                        let i = choose|i: int| 0 <= i < q0.len() && q0[i] == k;
                        assert(q1[i] == k);
                    }
                }
            }
            assert forall|id: OrderId| #[trigger] self.index@.contains_key(id) implies {
                &&& is_live(s1, self.index@[id])
                &&& s1[self.index@[id]].order_id == id
            } by {
                if id != order.order_id {
                    assert(old(self).index@.contains_key(id));
                    assert(self.index@[id] != key);
                }
            }
            assert(self@ == rest_order(old(self)@, order, key));
        }
    }

    /// Takes the quantity of the killed slot `key` off its level at `price`,
    /// dropping the level when nothing live remains there.
    fn reduce_level(
        levels: &mut BTreeMap<Price, Level>,
        Ghost(s): Ghost<Side>,
        Ghost(a): Ghost<Map<usize, Order>>,
        Ghost(b): Ghost<Map<usize, Order>>,
        price: Price,
        key: usize,
        qty: Qty,
    )
        requires
            side_wf(old(levels)@, s, a),
            is_live(a, key),
            a[key].side == s,
            a[key].price == price,
            a[key].qty_rem == qty,
            b == a.insert(key, Order { qty_rem: 0, ..a[key] }),
            old(levels)@.contains_key(price),
            old(levels)@[price].queue@.contains(key),
            forall|j: usize|
                #[trigger] is_live(a, j) && a[j].side == s && a[j].price == price ==> old(
                    levels,
                )@[price].queue@.contains(j),
        ensures
            side_wf(final(levels)@, s, b),
            ({
                let lv = old(levels)@.map_values(|l: Level| live_slots(l.queue@, a));
                let rest = seq_without(lv[price], key);
                final(levels)@.map_values(|l: Level| live_slots(l.queue@, b)) == if rest.len() == 0 {
                    lv.remove(price)
                } else {
                    lv.insert(price, rest)
                }
            }),
            forall|p: Price| #[trigger] final(levels)@.contains_key(p) ==> old(levels)@.contains_key(p),
            forall|p: Price|
                #[trigger] old(levels)@.contains_key(p) && p != price ==> final(levels)@.contains_key(p)
                    && final(levels)@[p] == old(levels)@[p],
            final(levels)@.contains_key(price) ==> final(levels)@[price].queue@ == old(levels)@[price].queue@,
            !final(levels)@.contains_key(price) ==> forall|j: usize|
                #[trigger] is_live(b, j) ==> b[j].side != s || b[j].price != price,
    {
        let ghost old_levels = levels@;
        let ghost others = old_levels.remove(price);
        proof {
            assert(agree_except(a, b, key));
            assert(side_wf(others, s, a));
            assert forall|p: Price| #[trigger] others.contains_key(p) implies !others[p].queue@.contains(key) by {
                assert(level_wf(others[p], s, p, a));
                if others[p].queue@.contains(key) {
                    let i = choose|i: int| 0 <= i < others[p].queue@.len() && others[p].queue@[i] == key;
                    assert(a[others[p].queue@[i]].price == p);
                }
            }
            lemma_levels_frame(others, s, a, b, key);
        }
        let removed = levels.remove(&price);
        match removed {
            Some(mut lvl) => {
                let ghost q = lvl.queue@;
                proof {
                    assert(level_wf(lvl, s, price, a));
                    assert forall|i: int| 0 <= i < q.len() && #[trigger] q[i] != key implies (is_live(a, q[i]) == is_live(b, q[i])) by {}
                    assert(!is_live(b, key));
                    lemma_live_slots_kill(q, a, b, key);
                    lemma_live_slots_live(q, a);
                    let la = live_slots(q, a);
                    assert(la.contains(key)) by {
                        let i = choose|i: int| 0 <= i < q.len() && q[i] == key;
                        lemma_live_slots_member(q, a, i);
                    }
                    lemma_live_slots_no_dup(q, a);
                    lemma_slots_qty_without(la, key, a);
                    let lb = live_slots(q, b);
                    assert forall|i: int| 0 <= i < lb.len() implies a[#[trigger] lb[i]].qty_rem == b[lb[i]].qty_rem by {
                        lemma_without_contains(la, key, lb[i]);
                        assert(lb.contains(lb[i]));
                    }
                    lemma_slots_qty_agree(lb, a, b);
                    lemma_live_slots_live(q, b);
                    lemma_slots_qty_pos(lb, b);
                }
                lvl.total_qty = lvl.total_qty - qty;
                if lvl.total_qty > 0 {
                    proof {
                        assert forall|i: int| 0 <= i < lvl.queue@.len() implies {
                            let k = #[trigger] lvl.queue@[i];
                            &&& b.contains_key(k)
                            &&& b[k].side == s
                            &&& b[k].price == price
                        } by {}
                        assert(level_wf(lvl, s, price, b));
                    }
                    levels.insert(price, lvl);
                    proof {
                        assert(levels@.map_values(|l: Level| live_slots(l.queue@, b)) =~= old_levels.map_values(|l: Level| live_slots(l.queue@, a)).insert(price, seq_without(live_slots(q, a), key)));
                    }
                } else {
                    proof {
                        assert(levels@ == others);
                        assert(levels@.map_values(|l: Level| live_slots(l.queue@, b)) =~= old_levels.map_values(|l: Level| live_slots(l.queue@, a)).remove(price));
                        assert forall|j: usize| #[trigger] is_live(b, j) implies b[j].side != s || b[j].price != price by {
                            if b[j].side == s && b[j].price == price {
                                // a live order at this price would be counted in the level
                                assert(j != key);
                                assert(is_live(a, j));
                                assert(q.contains(j));
                                let i = choose|i: int| 0 <= i < q.len() && q[i] == j;
                                lemma_live_slots_member(q, a, i);
                                lemma_without_contains(live_slots(q, a), key, j);
                                assert(live_slots(q, b).contains(j));
                            }
                        }
                    }
                }
            },
            None => {},
        }
    }

    /// Marks the live order in slot `key` dead and takes it off its level.
    fn kill_slot(&mut self, key: usize, order_id: OrderId)
        requires
            old(self).wf(),
            old(self)@.index.contains_key(order_id),
            old(self)@.index[order_id] == key,
        ensures
            final(self).wf(),
            final(self)@ == remove_slot(old(self)@, key),
            final(self).symbol_id == old(self).symbol_id,
    {
        let ghost a = self.slab();
        proof {
            self.lemma_view_slots();
        }
        self.index.remove(&order_id);
        let ord = slab_index_mut(&mut self.orders, key);
        let side = ord.side;
        let price = ord.price;
        let qty = ord.qty_rem;
        ord.qty_rem = 0;
        let ghost b = self.slab();
        proof {
            assert(b == a.insert(key, Order { qty_rem: 0, ..a[key] }));
            assert(agree_except(a, b, key));
        }
        match side {
            Side::Buy => {
                proof {
                    assert forall|p: Price| #[trigger] self.asks@.contains_key(p) implies !self.asks@[p].queue@.contains(key) by {
                        assert(level_wf(self.asks@[p], Side::Sell, p, a));
                        if self.asks@[p].queue@.contains(key) {
                            let i = choose|i: int| 0 <= i < self.asks@[p].queue@.len() && self.asks@[p].queue@[i] == key;
                            assert(a[self.asks@[p].queue@[i]].side == Side::Sell);
                        }
                    }
                    lemma_levels_frame(self.asks@, Side::Sell, a, b, key);
                }
                Self::reduce_level(&mut self.bids, Ghost(Side::Buy), Ghost(a), Ghost(b), price, key, qty);
            },
            Side::Sell => {
                proof {
                    assert forall|p: Price| #[trigger] self.bids@.contains_key(p) implies !self.bids@[p].queue@.contains(key) by {
                        assert(level_wf(self.bids@[p], Side::Buy, p, a));
                        if self.bids@[p].queue@.contains(key) {
                            let i = choose|i: int| 0 <= i < self.bids@[p].queue@.len() && self.bids@[p].queue@[i] == key;
                            assert(a[self.bids@[p].queue@[i]].side == Side::Buy);
                        }
                    }
                    lemma_levels_frame(self.bids@, Side::Buy, a, b, key);
                }
                Self::reduce_level(&mut self.asks, Ghost(Side::Sell), Ghost(a), Ghost(b), price, key, qty);
            },
        }
        proof {
            let m0 = old(self)@;
            let r = remove_slot(m0, key);
            assert(self@.slots =~= r.slots);
            assert(self@.index =~= r.index);
            assert(self@.bids =~= r.bids);
            assert(self@.asks =~= r.asks);
            assert forall|j: usize| #[trigger] is_live(b, j) implies {
                let levels = self.levels_of(b[j].side);
                &&& levels.contains_key(b[j].price)
                &&& levels[b[j].price].queue@.contains(j)
            } by {
                assert(j != key);
                assert(is_live(a, j));
            }
            assert forall|id: OrderId| #[trigger] self.index@.contains_key(id) implies {
                &&& is_live(b, self.index@[id])
                &&& b[self.index@[id]].order_id == id
            } by {
                assert(old(self).index@.contains_key(id));
                assert(self.index@[id] != key);
            }
        }
    }

    /// Cancels the order indexed under `order_id` when `account_id` owns it.
    /// Returns whether it was found, owned and cancelled.
    pub fn cancel(&mut self, order_id: OrderId, account_id: AccountId) -> (r: bool)
        requires
            old(self).wf(),
        ensures
            final(self).wf(),
            r == can_cancel(old(self)@, order_id, account_id),
            r ==> final(self)@ == remove_slot(old(self)@, old(self)@.index[order_id]),
            !r ==> final(self)@ == old(self)@,
    {
        proof {
            self.lemma_view_slots();
        }
        let key = match self.index.get(&order_id) {
            Some(k) => *k,
            None => return false,
        };
        match slab_get(&self.orders, key) {
            Some(ord) => {
                if ord.account_id != account_id {
                    return false;
                }
            },
            None => return false,
        }
        self.kill_slot(key, order_id);
        true
    }

    /// Replace = cancel + rest again under the same order id at a new price and
    /// quantity. Returns false if the existing order is not found or not owned.
    pub fn replace(&mut self, order_id: OrderId, account_id: AccountId, new_price: Price, new_qty: Qty) -> (r: bool)
        requires
            old(self).wf(),
            can_cancel(old(self)@, order_id, account_id) ==> {
                let o = old(self)@.slots[old(self)@.index[order_id]];
                &&& new_qty > 0
                &&& level_qty(old(self)@, o.side, new_price) + new_qty <= i64::MAX
            },
        ensures
            final(self).wf(),
            r == can_cancel(old(self)@, order_id, account_id),
            r ==> {
                let k0 = old(self)@.index[order_id];
                let o = old(self)@.slots[k0];
                let m1 = remove_slot(old(self)@, k0);
                exists|k: usize|
                    !m1.slots.contains_key(k) && final(self)@ == rest_order(
                        m1,
                        Order { price: new_price, qty_rem: new_qty, ..o },
                        k,
                    )
            },
            !r ==> final(self)@ == old(self)@,
    {
        proof {
            self.lemma_view_slots();
        }
        let key = match self.index.get(&order_id) {
            Some(k) => *k,
            None => return false,
        };
        let existing = match slab_get(&self.orders, key) {
            Some(o) => *o,
            None => return false,
        };
        if existing.account_id != account_id {
            return false;
        }
        let ghost m0 = self@;
        self.kill_slot(key, order_id);
        let mut ord = existing;
        ord.price = new_price;
        ord.qty_rem = new_qty;
        proof {
            old(self).lemma_wf();
            lemma_remove_slot_level_qty(m0, key, ord.side, new_price);
        }
        self.insert_resting(ord);
        true
    }

    /// The model of a well-formed book is well formed.
    pub proof fn lemma_wf(&self)
        requires
            self.wf(),
        ensures
            model_wf(self@),
    {
        let slab = self.slab();
        let m = self@;
        self.lemma_view_slots();
        assert forall|s: Side, p: Price| #[trigger] side_levels(m, s).contains_key(p) implies {
            let q = side_levels(m, s)[p];
            &&& q.len() > 0
            &&& q.no_duplicates()
            &&& 0 < slots_qty(q, m.slots) <= i64::MAX
            &&& forall|i: int|
                0 <= i < q.len() ==> {
                    &&& m.slots.contains_key(#[trigger] q[i])
                    &&& m.slots[q[i]].side == s
                    &&& m.slots[q[i]].price == p
                }
        } by {
            let lvl = self.levels_of(s)[p];
            assert(level_wf(lvl, s, p, slab));
            let q = live_slots(lvl.queue@, slab);
            assert(side_levels(m, s)[p] == q);
            lemma_live_slots_live(lvl.queue@, slab);
            lemma_live_slots_no_dup(lvl.queue@, slab);
            lemma_level_qty_live(lvl.queue@, slab);
            assert forall|i: int| 0 <= i < q.len() implies {
                &&& m.slots.contains_key(#[trigger] q[i])
                &&& m.slots[q[i]].side == s
                &&& m.slots[q[i]].price == p
            } by {
                assert(is_live(slab, q[i]));
                assert(lvl.queue@.contains(q[i]));
                let j = choose|j: int| 0 <= j < lvl.queue@.len() && lvl.queue@[j] == q[i];
            }
            assert forall|i: int| 0 <= i < q.len() implies m.slots[#[trigger] q[i]].qty_rem > 0 by {
                assert(is_live(slab, q[i]));
            }
            lemma_slots_qty_pos(q, m.slots);
            if q.len() == 0 {
                assert(slots_qty(q, m.slots) == 0);
            }
        }
        assert forall|k: usize| #[trigger] m.slots.contains_key(k) implies {
            &&& m.slots[k].qty_rem > 0
            &&& side_levels(m, m.slots[k].side).contains_key(m.slots[k].price)
            &&& side_levels(m, m.slots[k].side)[m.slots[k].price].contains(k)
        } by {
            assert(is_live(slab, k));
            let lvl = self.levels_of(slab[k].side)[slab[k].price];
            let i = choose|i: int| 0 <= i < lvl.queue@.len() && lvl.queue@[i] == k;
            lemma_live_slots_member(lvl.queue@, slab, i);
        }
        assert forall|id: OrderId| #[trigger] m.index.contains_key(id) implies {
            &&& m.slots.contains_key(m.index[id])
            &&& m.slots[m.index[id]].order_id == id
        } by {
            assert(self.index@.contains_key(id));
        }
    }

    /// Pops cancelled/dead slots off the front of the level until a live one
    /// comes out; returns it (already removed from the queue), or `None` when the
    /// queue runs empty.
    fn pop_live_front(orders: &Slab<Order>, lvl: &mut Level) -> (r: Option<usize>)
        ensures
            final(lvl).total_qty == old(lvl).total_qty,
            exists|n: int|
                0 <= n <= old(lvl).queue@.len() && final(lvl).queue@ == old(lvl).queue@.skip(n),
            match r {
                Some(k) => {
                    &&& is_live(slab_entries(*orders), k)
                    &&& old(lvl).queue@.contains(k)
                    &&& live_slots(old(lvl).queue@, slab_entries(*orders)) == seq![k] + live_slots(
                        final(lvl).queue@,
                        slab_entries(*orders),
                    )
                    &&& (old(lvl).queue@.no_duplicates() ==> !final(lvl).queue@.contains(k))
                },
                None => {
                    &&& live_slots(old(lvl).queue@, slab_entries(*orders)) == Seq::<usize>::empty()
                    &&& final(lvl).queue@ == Seq::<usize>::empty()
                },
            },
    {
        let ghost slab = slab_entries(*orders);
        let ghost q0 = lvl.queue@;
        let ghost mut n: int = 0;
        loop
            invariant
                0 <= n <= q0.len(),
                lvl.queue@ == q0.skip(n),
                lvl.total_qty == old(lvl).total_qty,
                q0 == old(lvl).queue@,
                live_slots(q0, slab) == live_slots(lvl.queue@, slab),
                slab == slab_entries(*orders),
            decreases lvl.queue@.len(),
        {
            let ghost before = lvl.queue@;
            match lvl.queue.pop_front() {
                Some(k) => {
                    proof {
                        assert(before[0] == q0[n]);
                        n = n + 1;
                        assert(lvl.queue@ =~= q0.skip(n));
                        assert(before.drop_first() =~= lvl.queue@);
                    }
                    let qty_rem = match slab_get(orders, k) {
                        Some(o) => o.qty_rem,
                        None => 0,
                    };
                    if qty_rem > 0 {
                        proof {
                            assert(q0[n - 1] == k);
                            assert(q0.contains(k));
                            if q0.no_duplicates() && lvl.queue@.contains(k) {
                                let j = choose|j: int| 0 <= j < lvl.queue@.len() && lvl.queue@[j] == k;
                                assert(q0[n + j] == k);
                            }
                        }
                        return Some(k);
                    }
                },
                None => {
                    proof {
                        assert(live_slots(before, slab) == Seq::<usize>::empty());
                    }
                    return None;
                },
            }
        }
    }

    /// One matching step against the level at `px` of a book side: trades the
    /// taker with the front live maker there and updates the maker, its slot,
    /// the index and the level.
    fn take_from_level(
        levels: &mut BTreeMap<Price, Level>,
        orders: &mut Slab<Order>,
        index: &mut HashMap<OrderId, usize>,
        Ghost(ms): Ghost<Side>,
        px: Price,
        taker_order_id: OrderId,
        taker_qty: Qty,
    ) -> (r: Option<MatchFill>)
        requires
            side_wf(old(levels)@, ms, slab_entries(*old(orders))),
            forall|k: usize| #[trigger] slab_entries(*old(orders)).contains_key(k) ==> slab_entries(*old(orders))[k].qty_rem >= 0,
            forall|j: usize|
                #[trigger] is_live(slab_entries(*old(orders)), j) && slab_entries(*old(orders))[j].side == ms
                    ==> old(levels)@.contains_key(slab_entries(*old(orders))[j].price) && old(levels)@[slab_entries(*old(orders))[j].price].queue@.contains(j),
            forall|id: OrderId|
                #[trigger] old(index)@.contains_key(id) ==> is_live(slab_entries(*old(orders)), old(index)@[id])
                    && slab_entries(*old(orders))[old(index)@[id]].order_id == id,
            old(levels)@.contains_key(px),
            taker_qty > 0,
        ensures
            ({
                let a = slab_entries(*old(orders));
                let b = slab_entries(*final(orders));
                let lv = old(levels)@.map_values(|l: Level| live_slots(l.queue@, a));
                let nl = final(levels)@.map_values(|l: Level| live_slots(l.queue@, b));
                let q = lv[px];
                let k = q[0];
                let mk = a[k];
                let t = trade_qty(taker_qty as int, mk.qty_rem as int);
                let rest = seq_without(q, k);
                &&& q.len() > 0
                &&& a.contains_key(k)
                &&& a[k].side == ms
                &&& a[k].price == px
                &&& agree_except(a, b, k)
                &&& r == Some(
                    MatchFill { maker_order_id: mk.order_id, taker_order_id, price: px, qty: t as i64 },
                )
                &&& 0 < t <= taker_qty
                &&& t == mk.qty_rem ==> {
                    &&& b == a.remove(k)
                    &&& final(index)@ == old(index)@.remove(mk.order_id)
                    &&& nl == if rest.len() == 0 {
                        lv.remove(px)
                    } else {
                        lv.insert(px, rest)
                    }
                }
                &&& t != mk.qty_rem ==> {
                    &&& b == a.insert(k, Order { qty_rem: (mk.qty_rem - t) as i64, ..mk })
                    &&& final(index)@ == old(index)@
                    &&& nl == lv
                }
                &&& side_wf(final(levels)@, ms, b)
                &&& forall|k2: usize| #[trigger] b.contains_key(k2) ==> b[k2].qty_rem >= 0
                &&& forall|j: usize|
                    #[trigger] is_live(b, j) && b[j].side == ms ==> final(levels)@.contains_key(b[j].price)
                        && final(levels)@[b[j].price].queue@.contains(j)
                &&& forall|id: OrderId|
                    #[trigger] final(index)@.contains_key(id) ==> is_live(b, final(index)@[id])
                        && b[final(index)@[id]].order_id == id
            }),
    {
        let ghost a = slab_entries(*orders);
        let ghost old_levels = levels@;
        let ghost others = old_levels.remove(px);
        let mut lvl = levels.remove(&px).unwrap();
        let ghost q0 = lvl.queue@;
        proof {
            assert(level_wf(lvl, ms, px, a));
            lemma_live_slots_live(q0, a);
            lemma_live_slots_no_dup(q0, a);
            if live_slots(q0, a).len() == 0 {
                assert(slots_qty(live_slots(q0, a), a) == 0);
            }
        }
        let maker_key_opt = Self::pop_live_front(orders, &mut lvl);
        let ghost n = choose|n: int| 0 <= n <= q0.len() && lvl.queue@ == q0.skip(n);
        let maker_key = match maker_key_opt {
            Some(k) => k,
            None => {
                proof {
                    assert(false);
                }
                return None;
            },
        };
        let ghost l = live_slots(q0, a);
        let ghost k = maker_key;
        let ghost suffix = lvl.queue@;
        proof {
            assert(l[0] == k);
            assert(l.drop_first() =~= live_slots(suffix, a));
            assert forall|i: int| 0 <= i < suffix.len() implies #[trigger] suffix[i] != k by {
                assert(suffix[i] == q0[n + i]);
                assert(!suffix.contains(k));
            }
        }
        let maker = slab_index_mut(orders, maker_key);
        let maker_order_id = maker.order_id;
        let trade_qty = if taker_qty < maker.qty_rem {
            taker_qty
        } else {
            maker.qty_rem
        };
        maker.qty_rem = maker.qty_rem - trade_qty;
        lvl.total_qty = lvl.total_qty - trade_qty;
        let ghost mid = slab_entries(*orders);
        let maker_done = match slab_get(orders, maker_key) {
            Some(o) => o.qty_rem == 0,
            None => true,
        };
        let ghost mk = a[k];
        proof {
            assert(mid == a.insert(k, Order { qty_rem: (mk.qty_rem - trade_qty) as i64, ..mk }));
            // the suffix keeps its live contents when slot k changes
            assert forall|i: int| 0 <= i < suffix.len() implies (is_live(a, #[trigger] suffix[i]) == is_live(mid, suffix[i])
                && (is_live(a, suffix[i]) ==> a[suffix[i]] == mid[suffix[i]])) by {
                assert(suffix[i] != k);
            }
            lemma_live_slots_frame(suffix, a, mid);
            assert(l =~= seq![k] + l.drop_first());
            assert(slots_qty(l, a) == a[k].qty_rem + slots_qty(l.drop_first(), a));
            assert(l.drop_first().no_duplicates()) by {
                assert forall|x: int, y: int| 0 <= x < y < l.drop_first().len() implies l.drop_first()[x] != l.drop_first()[y] by {
                    assert(l.drop_first()[x] == l[x + 1]);
                    assert(l.drop_first()[y] == l[y + 1]);
                }
            }
            assert forall|i: int| 0 <= i < l.drop_first().len() implies l.drop_first()[i] != k by {
                assert(l.drop_first()[i] == l[i + 1]);
            }
            lemma_without_absent(l.drop_first(), k);
            assert(seq_without(l, k) == l.drop_first());
            // the other levels of this side keep their contents
            assert(side_wf(others, ms, a));
            assert forall|p: Price| #[trigger] others.contains_key(p) implies !others[p].queue@.contains(k) by {
                assert(level_wf(others[p], ms, p, a));
                if others[p].queue@.contains(k) {
                    let i = choose|i: int| 0 <= i < others[p].queue@.len() && others[p].queue@[i] == k;
                    assert(a[others[p].queue@[i]].price == p);
                }
            }
        }
        if maker_done {
            index.remove(&maker_order_id);
            slab_remove(orders, maker_key);
        } else {
            lvl.queue.push_front(maker_key);
        }
        let ghost b = slab_entries(*orders);
        let ghost ld = l.drop_first();
        proof {
            assert(agree_except(a, b, k));
            lemma_levels_frame(others, ms, a, b, k);
            assert forall|i: int| 0 <= i < suffix.len() implies (is_live(a, #[trigger] suffix[i]) == is_live(b, suffix[i])
                && (is_live(a, suffix[i]) ==> a[suffix[i]] == b[suffix[i]])) by {
                assert(suffix[i] != k);
            }
            lemma_live_slots_frame(suffix, a, b);
            assert forall|i: int| 0 <= i < ld.len() implies a[#[trigger] ld[i]].qty_rem == b[ld[i]].qty_rem by {
                assert(ld[i] == l[i + 1]);
                assert(ld[i] != k);
                assert(a.contains_key(ld[i]));
            }
            lemma_slots_qty_agree(ld, a, b);
            lemma_live_slots_live(suffix, b);
            lemma_slots_qty_pos(live_slots(suffix, b), b);
            if maker_done {
                assert(b == a.remove(k));
                assert(lvl.queue@ == suffix);
                assert(live_slots(lvl.queue@, b) == ld);
                assert(lvl.total_qty == slots_qty(ld, b));
                assert(lvl.queue@.no_duplicates()) by {
                    assert forall|x: int, y: int| 0 <= x < y < suffix.len() implies suffix[x] != suffix[y] by {
                        assert(suffix[x] == q0[n + x]);
                        assert(suffix[y] == q0[n + y]);
                    }
                }
                assert forall|i: int| 0 <= i < lvl.queue@.len() implies {
                    let j = #[trigger] lvl.queue@[i];
                    &&& b.contains_key(j)
                    &&& b[j].side == ms
                    &&& b[j].price == px
                } by {
                    assert(suffix[i] == q0[n + i]);
                    assert(suffix[i] != k);
                }
            } else {
                assert(lvl.queue@ == seq![k] + suffix);
                let nq = lvl.queue@;
                assert(nq[0] == k);
                assert(nq.drop_first() =~= suffix);
                assert(is_live(b, k));
                assert(live_slots(nq, b) == seq![k] + live_slots(suffix, b));
                assert(live_slots(nq, b) =~= l);
                assert(slots_qty(live_slots(nq, b), b) == b[k].qty_rem + slots_qty(ld, b)) by {
                    let w = live_slots(nq, b);
                    assert(w[0] == k);
                    assert(w.drop_first() =~= ld);
                }
                assert(nq.no_duplicates()) by {
                    assert forall|x: int, y: int| 0 <= x < y < nq.len() implies nq[x] != nq[y] by {
                        if x == 0 {
                            assert(nq[y] == suffix[y - 1]);
                        } else {
                            assert(nq[x] == q0[n + x - 1]);
                            assert(nq[y] == q0[n + y - 1]);
                        }
                    }
                }
                assert forall|i: int| 0 <= i < nq.len() implies {
                    let j = #[trigger] nq[i];
                    &&& b.contains_key(j)
                    &&& b[j].side == ms
                    &&& b[j].price == px
                } by {
                    if i > 0 {
                        assert(nq[i] == q0[n + i - 1]);
                    }
                }
            }
        }
        if lvl.total_qty > 0 {
            proof {
                assert(level_wf(lvl, ms, px, b));
            }
            levels.insert(px, lvl);
        }
        proof {
            let lv = old_levels.map_values(|l: Level| live_slots(l.queue@, a));
            let nl = levels@.map_values(|l: Level| live_slots(l.queue@, b));
            assert(lv[px] == l);
            if maker_done {
                if ld.len() == 0 {
                    assert(nl =~= lv.remove(px));
                } else {
                    assert(nl =~= lv.insert(px, ld));
                }
            } else {
                assert(nl =~= lv);
            }
            // live slots of this side sit in their levels
            assert forall|j: usize| #[trigger] is_live(b, j) && b[j].side == ms implies levels@.contains_key(b[j].price)
                && levels@[b[j].price].queue@.contains(j) by {
                if j == k {
                    assert(!maker_done);
                    assert(levels@[px].queue@[0] == k);
                } else {
                    assert(is_live(a, j));
                    if b[j].price == px {
                        let i = choose|i: int| 0 <= i < q0.len() && q0[i] == j;
                        lemma_live_slots_member(q0, a, i);
                        assert(l.contains(j));
                        let i2 = choose|i2: int| 0 <= i2 < l.len() && l[i2] == j;
                        assert(i2 > 0);
                        assert(ld[i2 - 1] == j);
                        assert(live_slots(suffix, b).contains(j));
                        lemma_live_slots_live(suffix, b);
                        let i3 = choose|i3: int| 0 <= i3 < live_slots(suffix, b).len() && live_slots(suffix, b)[i3] == j;
                        assert(suffix.contains(j));
                        if maker_done {
                            assert(ld.len() > 0);
                            assert(lvl.total_qty > 0);
                        } else {
                            let i4 = choose|i4: int| 0 <= i4 < suffix.len() && suffix[i4] == j;
                            assert(lvl.queue@[i4 + 1] == j);
                        }
                    }
                }
            }
            assert forall|id: OrderId| #[trigger] index@.contains_key(id) implies is_live(b, index@[id])
                && b[index@[id]].order_id == id by {
                if index@[id] == k {
                    assert(a[k].order_id == id);
                    if maker_done {
                        assert(id != maker_order_id);
                    }
                }
            }
        }
        Some(MatchFill { maker_order_id, taker_order_id, price: px, qty: trade_qty })
    }

    /// Matches a taker against the opposite side of the book and returns its
    /// fills; the remaining quantity is left to the caller.
    pub fn match_taker(
        &mut self,
        taker_order_id: OrderId,
        taker_side: Side,
        taker_price: Price,
        taker_qty: Qty,
    ) -> (fills: Vec<MatchFill>)
        requires
            old(self).wf(),
        ensures
            final(self).wf(),
            (fills@, final(self)@) == match_result(
                old(self)@,
                taker_side,
                taker_order_id,
                taker_price,
                taker_qty as int,
            ),
            forall|p: Price| #[trigger] level_qty(final(self)@, taker_side, p) == level_qty(old(self)@, taker_side, p),
    {
        let mut taker_qty = taker_qty;
        let mut fills: Vec<MatchFill> = Vec::new();
        let ghost m0 = self@;
        let ghost total = match_result(self@, taker_side, taker_order_id, taker_price, taker_qty as int);
        let ghost ms = crate::types::spec_opposite(taker_side);
        loop
            invariant
                self.wf(),
                ms == crate::types::spec_opposite(taker_side),
                fills@ + match_result(self@, taker_side, taker_order_id, taker_price, taker_qty as int).0
                    == total.0,
                match_result(self@, taker_side, taker_order_id, taker_price, taker_qty as int).1
                    == total.1,
                forall|p: Price| #[trigger] level_qty(self@, taker_side, p) == level_qty(m0, taker_side, p),
            ensures
                self.wf(),
                fills@ == total.0,
                self@ == total.1,
                forall|p: Price| #[trigger] level_qty(self@, taker_side, p) == level_qty(m0, taker_side, p),
            decreases taker_qty,
        {
            let ghost m = self@;
            if taker_qty <= 0 {
                proof {
                    assert(fills@ + Seq::<MatchFill>::empty() =~= fills@);
                }
                break;
            }
            proof {
                self.lemma_view_slots();
                self.lemma_wf();
            }
            let best = match taker_side {
                Side::Buy => level_map_first_key(&self.asks),
                Side::Sell => level_map_last_key(&self.bids),
            };
            let px = match best {
                Some(p) => p,
                None => {
                    proof {
                        assert forall|p: Price| !is_best(side_levels(m, ms), ms, p) by {
                            if is_best(side_levels(m, ms), ms, p) {
                                assert(self.levels_of(ms).dom().contains(p));
                            }
                        }
                        assert(fills@ + Seq::<MatchFill>::empty() =~= fills@);
                    }
                    break;
                },
            };
            proof {
                assert(is_best(side_levels(m, ms), ms, px));
                lemma_best_is_unique(side_levels(m, ms), ms, px);
            }
            let crossing = match taker_side {
                Side::Buy => px <= taker_price,
                Side::Sell => px >= taker_price,
            };
            if !crossing {
                proof {
                    assert(fills@ + Seq::<MatchFill>::empty() =~= fills@);
                }
                break;
            }
            let ghost a = self.slab();
            let ghost other = self.levels_of(taker_side);
            let step = match taker_side {
                Side::Buy => Self::take_from_level(
                    &mut self.asks,
                    &mut self.orders,
                    &mut self.index,
                    Ghost(Side::Sell),
                    px,
                    taker_order_id,
                    taker_qty,
                ),
                Side::Sell => Self::take_from_level(
                    &mut self.bids,
                    &mut self.orders,
                    &mut self.index,
                    Ghost(Side::Buy),
                    px,
                    taker_order_id,
                    taker_qty,
                ),
            };
            let ghost b = self.slab();
            let f = step.unwrap();
            proof {
                let q = side_levels(m, ms)[px];
                let k = q[0];
                assert(a[k].side == ms);
                assert(other == self.levels_of(taker_side));
                assert forall|p: Price| #[trigger] other.contains_key(p) implies !other[p].queue@.contains(k) by {
                    assert(level_wf(other[p], taker_side, p, a));
                    if other[p].queue@.contains(k) {
                        let i = choose|i: int| 0 <= i < other[p].queue@.len() && other[p].queue@[i] == k;
                        assert(a[other[p].queue@[i]].side == taker_side);
                    }
                }
                lemma_levels_frame(other, taker_side, a, b, k);
                let mk = a[k];
                let t = trade_qty(taker_qty as int, mk.qty_rem as int);
                assert(m.slots[k] == mk);
                let next = self@;
                if t == mk.qty_rem {
                    let r = remove_slot(m, k);
                    assert(next.slots =~= r.slots);
                    assert(next.index =~= r.index);
                    assert(next.bids =~= r.bids);
                    assert(next.asks =~= r.asks);
                } else {
                    let r = BookModel {
                        slots: m.slots.insert(k, Order { qty_rem: (mk.qty_rem - t) as i64, ..mk }),
                        ..m
                    };
                    assert(next.slots =~= r.slots);
                    assert(next.bids =~= r.bids);
                    assert(next.asks =~= r.asks);
                }
                assert(match_step(m, taker_side, taker_order_id, taker_price, taker_qty as int) == Some((f, next)));
                assert forall|p: Price| #[trigger] level_qty(next, taker_side, p) == level_qty(m0, taker_side, p) by {
                    lemma_match_step_keeps_side(m, taker_side, taker_order_id, taker_price, taker_qty as int, p);
                }
                assert forall|j: usize| #[trigger] is_live(b, j) implies {
                    let levels = self.levels_of(b[j].side);
                    &&& levels.contains_key(b[j].price)
                    &&& levels[b[j].price].queue@.contains(j)
                } by {
                    if b[j].side != ms {
                        assert(j != k);
                        assert(is_live(a, j));
                    }
                }
                assert(self.wf());
                let rest = match_result(next, taker_side, taker_order_id, taker_price, taker_qty - f.qty);
                assert(match_result(m, taker_side, taker_order_id, taker_price, taker_qty as int) == (seq![f] + rest.0, rest.1));
                assert(fills@.push(f) + rest.0 =~= fills@ + (seq![f] + rest.0));
            }
            taker_qty = taker_qty - f.qty;
            fills.push(f);
        }
        fills
    }

    /// The keys listed for the bids and then the asks name every level of the
    /// book once.
    proof fn lemma_queue_listing_keys(
        &self,
        bid_keys: Seq<(Side, Price)>,
        keys: Seq<(Side, Price)>,
        bids_all: Seq<(&Price, &Level)>,
        asks_all: Seq<(&Price, &Level)>,
    )
        requires
            bids_all.len() == self.bids@.dom().len(),
            bids_all.no_duplicates(),
            forall|i: int| 0 <= i < bids_all.len() ==> self.bids@.contains_key(*#[trigger] bids_all[i].0) && self.bids@[*bids_all[i].0] == *bids_all[i].1,
            forall|p: Price| #[trigger] self.bids@.contains_key(p) ==> bids_all.contains((&p, &self.bids@[p])),
            asks_all.len() == self.asks@.dom().len(),
            asks_all.no_duplicates(),
            forall|i: int| 0 <= i < asks_all.len() ==> self.asks@.contains_key(*#[trigger] asks_all[i].0) && self.asks@[*asks_all[i].0] == *asks_all[i].1,
            forall|p: Price| #[trigger] self.asks@.contains_key(p) ==> asks_all.contains((&p, &self.asks@[p])),
            bid_keys.len() == bids_all.len(),
            forall|i: int| 0 <= i < bid_keys.len() ==> #[trigger] bid_keys[i] == (Side::Buy, *bids_all[i].0),
            keys.len() == bid_keys.len() + asks_all.len(),
            forall|i: int| 0 <= i < bid_keys.len() ==> #[trigger] keys[i] == bid_keys[i],
            forall|i: int| 0 <= i < asks_all.len() ==> #[trigger] keys[bid_keys.len() + i] == (Side::Sell, *asks_all[i].0),
        ensures
            keys.no_duplicates(),
            forall|s: Side, p: Price| #[trigger] keys.contains((s, p)) <==> side_levels(self@, s).contains_key(p),
    {
        self.lemma_view_slots();
        let nb = bid_keys.len() as int;
        assert forall|i: int| 0 <= i < keys.len() implies #[trigger] keys[i] == (if i < nb {
            (Side::Buy, *bids_all[i].0)
        } else {
            (Side::Sell, *asks_all[i - nb].0)
        }) by {
            if i < nb {
                assert(keys[i] == bid_keys[i]);
            } else {
                assert(keys[nb + (i - nb)] == (Side::Sell, *asks_all[i - nb].0));
            }
        }
        assert forall|a: int, b: int| 0 <= a < b < keys.len() implies keys[a] != keys[b] by {
            if b < nb {
                if *bids_all[a].0 == *bids_all[b].0 {
                    assert(bids_all[a] == bids_all[b]);
                }
            } else if a >= nb {
                if *asks_all[a - nb].0 == *asks_all[b - nb].0 {
                    assert(asks_all[a - nb] == asks_all[b - nb]);
                }
            }
        }
        assert forall|s: Side, p: Price| #[trigger] keys.contains((s, p)) <==> side_levels(self@, s).contains_key(p) by {
            if keys.contains((s, p)) {
                let i = choose|i: int| 0 <= i < keys.len() && keys[i] == (s, p);
                if i < nb {
                    assert(self.bids@.contains_key(*bids_all[i].0));
                } else {
                    assert(self.asks@.contains_key(*asks_all[i - nb].0));
                }
            }
            if side_levels(self@, s).contains_key(p) {
                match s {
                    Side::Buy => {
                        assert(self.bids@.contains_key(p));
                        let i = choose|i: int| 0 <= i < bids_all.len() && bids_all[i] == (&p, &self.bids@[p]);
                        assert(keys[i] == (s, p));
                    },
                    Side::Sell => {
                        assert(self.asks@.contains_key(p));
                        let i = choose|i: int| 0 <= i < asks_all.len() && asks_all[i] == (&p, &self.asks@[p]);
                        assert(keys[nb + i] == (s, p));
                    },
                }
            }
        }
    }

    /// Appends the live orders queued at price `p` of side `s`, front first.
    fn push_level_orders(&self, out: &mut Vec<Order>, s: Side, p: Price, lvl: &Level)
        requires
            self.wf(),
            self.levels_of(s).contains_key(p),
            self.levels_of(s)[p] == *lvl,
        ensures
            final(out)@ == old(out)@ + level_orders(self@, s, p),
    {
        proof {
            self.lemma_view_slots();
            assert(level_wf(*lvl, s, p, self.slab()));
        }
        let ghost out0 = out@;
        let ghost q = lvl.queue@;
        let ghost slab = self.slab();
        let ghost slots = self@.slots;
        let n = lvl.queue.len();
        let mut i: usize = 0;
        proof {
            assert(q.take(0) =~= Seq::<usize>::empty());
            assert(out@ =~= out0 + live_slots(q.take(0), slab).map_values(|x: usize| slots[x]));
        }
        while i < n
            invariant
                i <= n,
                n == q.len(),
                q == lvl.queue@,
                slab == self.slab(),
                slots == self@.slots,
                slots == live_part(slab),
                level_wf(*lvl, s, p, slab),
                out@ == out0 + live_slots(q.take(i as int), slab).map_values(|x: usize| slots[x]),
            decreases n - i,
        {
            let k = lvl.queue[i];
            let ghost before = out@;
            match slab_get(&self.orders, k) {
                Some(o) => {
                    if o.qty_rem > 0 {
                        out.push(*o);
                    }
                },
                None => {},
            }
            proof {
                lemma_live_slots_push(q.take(i as int), q[i as int], slab);
                assert(q.take(i + 1) =~= q.take(i as int).push(q[i as int]));
                let ls = live_slots(q.take(i as int), slab);
                if is_live(slab, k) {
                    assert((ls + seq![k]).map_values(|x: usize| slots[x]) =~= ls.map_values(|x: usize| slots[x]).push(
                        slots[k],
                    ));
                    assert(out@ =~= out0 + live_slots(q.take(i + 1), slab).map_values(|x: usize| slots[x]));
                } else {
                    assert(ls + Seq::<usize>::empty() =~= ls);
                }
            }
            i = i + 1;
        }
        proof {
            assert(q.take(n as int) =~= q);
            assert(side_levels(self@, s)[p] == live_slots(q, slab));
        }
    }

    /// The live orders of the book for a snapshot: level by level, the bids
    /// then the asks, each level's queue in time priority.
    pub fn live_orders(&self) -> (r: Vec<Order>)
        requires
            self.wf(),
        ensures
            is_queue_listing(self@, r@),
    {
        proof {
            self.lemma_view_slots();
            lemma_price_keys_ordered();
        }
        let mut out: Vec<Order> = Vec::new();
        let ghost m = self@;
        let ghost bids_all = vstd::std_specs::iter::IteratorSpec::remaining(
            &vstd::std_specs::btree::spec_btree_map_iter(&self.bids),
        );
        let ghost mut keys: Seq<(Side, Price)> = Seq::empty();
        for entry in it: self.bids.iter()
            invariant
                self.wf(),
                m == self@,
                it.seq() == bids_all,
                bids_all.len() == self.bids@.dom().len(),
                bids_all.no_duplicates(),
                forall|i: int| 0 <= i < bids_all.len() ==> self.bids@.contains_key(*#[trigger] bids_all[i].0) && self.bids@[*bids_all[i].0] == *bids_all[i].1,
                forall|p: Price| #[trigger] self.bids@.contains_key(p) ==> bids_all.contains((&p, &self.bids@[p])),
                keys.len() == it.index(),
                forall|i: int| 0 <= i < keys.len() ==> #[trigger] keys[i] == (Side::Buy, *bids_all[i].0),
                out@ == levels_listing(m, keys),
        {
            let (p, lvl) = entry;
            proof {
                assert(entry == bids_all[keys.len() as int]);
            }
            self.push_level_orders(&mut out, Side::Buy, *p, lvl);
            proof {
                let k2 = keys.push((Side::Buy, *p));
                assert(k2.drop_last() =~= keys);
                keys = k2;
            }
        }
        let ghost bid_keys = keys;
        let ghost asks_all = vstd::std_specs::iter::IteratorSpec::remaining(
            &vstd::std_specs::btree::spec_btree_map_iter(&self.asks),
        );
        for entry in it: self.asks.iter()
            invariant
                self.wf(),
                m == self@,
                it.seq() == asks_all,
                asks_all.len() == self.asks@.dom().len(),
                asks_all.no_duplicates(),
                forall|i: int| 0 <= i < asks_all.len() ==> self.asks@.contains_key(*#[trigger] asks_all[i].0) && self.asks@[*asks_all[i].0] == *asks_all[i].1,
                forall|p: Price| #[trigger] self.asks@.contains_key(p) ==> asks_all.contains((&p, &self.asks@[p])),
                keys.len() == bid_keys.len() + it.index(),
                forall|i: int| 0 <= i < bid_keys.len() ==> #[trigger] keys[i] == bid_keys[i],
                forall|i: int| 0 <= i < it.index() ==> #[trigger] keys[bid_keys.len() + i] == (Side::Sell, *asks_all[i].0),
                out@ == levels_listing(m, keys),
        {
            let (p, lvl) = entry;
            proof {
                assert(entry == asks_all[keys.len() - bid_keys.len()]);
            }
            self.push_level_orders(&mut out, Side::Sell, *p, lvl);
            proof {
                let k2 = keys.push((Side::Sell, *p));
                assert(k2.drop_last() =~= keys);
                keys = k2;
            }
        }
        proof {
            self.lemma_queue_listing_keys(bid_keys, keys, bids_all, asks_all);
        }
        out
    }

    /// Empties the book and rests `orders` in turn, as a snapshot restore does.
    /// Stops at the first order that cannot rest (no quantity left, or its level
    /// would overflow) and returns its position.
    pub fn restore_from_snapshot(&mut self, orders: &Vec<Order>) -> (r: Result<(), usize>)
        requires
            old(self).wf(),
        ensures
            final(self).wf(),
            final(self)@.symbol_id == old(self)@.symbol_id,
            match r {
                Ok(()) => rests_all(empty_book(old(self)@.symbol_id), orders@, final(self)@),
                Err(i) => i < orders.len() && rests_all(
                    empty_book(old(self)@.symbol_id),
                    orders@.take(i as int),
                    final(self)@,
                ) && !can_rest(final(self)@, orders@[i as int]),
            },
    {
        let ghost sym = self@.symbol_id;
        *self = OrderBook::new(self.symbol_id);
        proof {
            assert(self@ =~= empty_book(sym));
            assert(orders@.take(0) =~= Seq::<Order>::empty());
        }
        let mut i: usize = 0;
        while i < orders.len()
            invariant
                self.wf(),
                self@.symbol_id == sym,
                sym == old(self)@.symbol_id,
                0 <= i <= orders.len(),
                rests_all(empty_book(sym), orders@.take(i as int), self@),
            decreases orders.len() - i,
        {
            let o = orders[i];
            if o.qty_rem <= 0 {
                return Err(i);
            }
            let lq = self.level_total(o.side, o.price);
            if lq > i64::MAX - o.qty_rem {
                return Err(i);
            }
            let ghost mid = self@;
            self.insert_resting(o);
            proof {
                let k = choose|k: usize| !mid.slots.contains_key(k) && self@ == rest_order(mid, o, k);
                let t = orders@.take(i + 1);
                assert(t.drop_last() =~= orders@.take(i as int));
                assert(t.last() == o);
                assert(rest_order(mid, t.last(), k) == self@);
            }
            i = i + 1;
        }
        proof {
            assert(orders@.take(orders.len() as int) =~= orders@);
        }
        Ok(())
    }

    /// The symbol this book trades (the `symbol_id` field, as the model sees it).
    pub fn symbol(&self) -> (r: SymbolId)
        ensures
            r == self@.symbol_id,
    {
        self.symbol_id
    }

    /// Aggregate quantity resting at `price` on side `side` (zero without a level).
    pub fn level_total(&self, side: Side, price: Price) -> (r: Qty)
        requires
            self.wf(),
        ensures
            r == level_qty(self@, side, price),
    {
        proof {
            self.lemma_view_slots();
        }
        let levels = match side {
            Side::Buy => &self.bids,
            Side::Sell => &self.asks,
        };
        match levels.get(&price) {
            Some(lvl) => {
                proof {
                    assert(level_wf(*lvl, side, price, self.slab()));
                    lemma_level_qty_live(lvl.queue@, self.slab());
                }
                lvl.total_qty
            },
            None => 0,
        }
    }

    pub fn new(symbol_id: SymbolId) -> (b: Self)
        ensures
            b.wf(),
            b@.symbol_id == symbol_id,
            b@.slots == Map::<usize, Order>::empty(),
            b@.bids == Map::<Price, Seq<usize>>::empty(),
            b@.asks == Map::<Price, Seq<usize>>::empty(),
            b@.index == Map::<OrderId, usize>::empty(),
    {
        let b = OrderBook {
            symbol_id,
            bids: BTreeMap::new(),
            asks: BTreeMap::new(),
            orders: slab_new(),
            index: HashMap::new(),
        };
        assert(b@.slots =~= Map::<usize, Order>::empty());
        assert(b@.bids =~= Map::<Price, Seq<usize>>::empty());
        assert(b@.asks =~= Map::<Price, Seq<usize>>::empty());
        b
    }
}


// ------------------------------------------------------------------
// Lemmas about the model.
// ------------------------------------------------------------------

/// Prices are ordered as the ordered maps of the book need.
proof fn lemma_price_keys_ordered()
    ensures
        vstd::std_specs::btree::key_obeys_cmp_spec::<Price>(),
{
    broadcast use vstd::laws_cmp::group_laws_cmp, vstd::std_specs::btree::axiom_key_obeys_cmp_spec_meaning;

    assert(vstd::laws_cmp::obeys_cmp::<Price>());
}

/// The live slots of a slab, as a map.
pub open spec fn live_part(slab: Map<usize, Order>) -> Map<usize, Order> {
    Map::new(|k: usize| is_live(slab, k), |k: usize| slab[k])
}

proof fn lemma_live_slots_live(q: Seq<usize>, slab: Map<usize, Order>)
    ensures
        forall|i: int|
            0 <= i < live_slots(q, slab).len() ==> is_live(slab, #[trigger] live_slots(q, slab)[i]),
        forall|i: int|
            0 <= i < live_slots(q, slab).len() ==> q.contains(#[trigger] live_slots(q, slab)[i]),
    decreases q.len(),
{
    if q.len() > 0 {
        lemma_live_slots_live(q.drop_first(), slab);
        let r = live_slots(q.drop_first(), slab);
        if is_live(slab, q[0]) {
            assert forall|i: int| 0 <= i < live_slots(q, slab).len() implies q.contains(
                #[trigger] live_slots(q, slab)[i],
            ) by {
                if i == 0 {
                    assert(q[0] == live_slots(q, slab)[i]);
                } else {
                    assert(live_slots(q, slab)[i] == r[i - 1]);
                    assert(q.drop_first().contains(r[i - 1]));
                    let j = choose|j: int| 0 <= j < q.drop_first().len() && q.drop_first()[j] == r[i - 1];
                    assert(q[j + 1] == r[i - 1]);
                }
            }
        } else {
            assert forall|i: int| 0 <= i < live_slots(q, slab).len() implies q.contains(
                #[trigger] live_slots(q, slab)[i],
            ) by {
                assert(q.drop_first().contains(r[i]));
                let j = choose|j: int| 0 <= j < q.drop_first().len() && q.drop_first()[j] == r[i];
                assert(q[j + 1] == r[i]);
            }
        }
    }
}

proof fn lemma_slots_qty_agree(s: Seq<usize>, a: Map<usize, Order>, b: Map<usize, Order>)
    requires
        forall|i: int| 0 <= i < s.len() ==> a[#[trigger] s[i]].qty_rem == b[s[i]].qty_rem,
    ensures
        slots_qty(s, a) == slots_qty(s, b),
    decreases s.len(),
{
    if s.len() > 0 {
        assert forall|i: int| 0 <= i < s.drop_first().len() implies a[#[trigger] s.drop_first()[i]].qty_rem
            == b[s.drop_first()[i]].qty_rem by {
            assert(s.drop_first()[i] == s[i + 1]);
        }
        lemma_slots_qty_agree(s.drop_first(), a, b);
    }
}

/// The level quantity of the model equals the quantity computed on the whole slab.
proof fn lemma_level_qty_live(q: Seq<usize>, slab: Map<usize, Order>)
    ensures
        slots_qty(live_slots(q, slab), slab) == slots_qty(live_slots(q, slab), live_part(slab)),
{
    lemma_live_slots_live(q, slab);
    let s = live_slots(q, slab);
    assert forall|i: int| 0 <= i < s.len() implies slab[#[trigger] s[i]].qty_rem == live_part(
        slab,
    )[s[i]].qty_rem by {
        assert(is_live(slab, s[i]));
    }
    lemma_slots_qty_agree(s, slab, live_part(slab));
}

proof fn lemma_best_is_unique(levels: Map<Price, Seq<usize>>, s: Side, p: Price)
    requires
        is_best(levels, s, p),
    ensures
        (choose|q: Price| is_best(levels, s, q)) == p,
{
    let c = choose|q: Price| is_best(levels, s, q);
    assert(is_best(levels, s, c));
    assert(levels.contains_key(c));
    assert(levels.contains_key(p));
}


/// Two slabs that agree everywhere except at slot `k`.
pub open spec fn agree_except(a: Map<usize, Order>, b: Map<usize, Order>, k: usize) -> bool {
    forall|j: usize|
        j != k ==> (#[trigger] a.contains_key(j) == b.contains_key(j) && (a.contains_key(j) ==> a[j]
            == b[j]))
}

proof fn lemma_live_slots_frame(q: Seq<usize>, a: Map<usize, Order>, b: Map<usize, Order>)
    requires
        forall|i: int|
            0 <= i < q.len() ==> (is_live(a, #[trigger] q[i]) == is_live(b, q[i]) && (is_live(a, q[i])
                ==> a[q[i]] == b[q[i]])),
    ensures
        live_slots(q, a) == live_slots(q, b),
        slots_qty(live_slots(q, a), a) == slots_qty(live_slots(q, b), b),
    decreases q.len(),
{
    if q.len() > 0 {
        assert forall|i: int| 0 <= i < q.drop_first().len() implies (is_live(
            a,
            #[trigger] q.drop_first()[i],
        ) == is_live(b, q.drop_first()[i]) && (is_live(a, q.drop_first()[i]) ==> a[q.drop_first()[i]]
            == b[q.drop_first()[i]])) by {
            assert(q.drop_first()[i] == q[i + 1]);
        }
        lemma_live_slots_frame(q.drop_first(), a, b);
        assert(is_live(a, q[0]) == is_live(b, q[0]));
        if is_live(a, q[0]) {
            assert(live_slots(q, a) == seq![q[0]] + live_slots(q.drop_first(), a));
            assert(live_slots(q, a).drop_first() =~= live_slots(q.drop_first(), a));
            assert(live_slots(q, b).drop_first() =~= live_slots(q.drop_first(), b));
        }
    }
}

proof fn lemma_live_slots_push(q: Seq<usize>, k: usize, slab: Map<usize, Order>)
    ensures
        live_slots(q.push(k), slab) == live_slots(q, slab) + (if is_live(slab, k) {
            seq![k]
        } else {
            Seq::<usize>::empty()
        }),
    decreases q.len(),
{
    if q.len() == 0 {
        assert(q.push(k).drop_first() =~= Seq::<usize>::empty());
        assert(live_slots(Seq::<usize>::empty(), slab) == Seq::<usize>::empty());
        if is_live(slab, k) {
            assert(live_slots(q.push(k), slab) =~= seq![k]);
        }
        assert(live_slots(q, slab) + Seq::<usize>::empty() =~= live_slots(q, slab));
    } else {
        assert(q.push(k).drop_first() =~= q.drop_first().push(k));
        lemma_live_slots_push(q.drop_first(), k, slab);
        assert(q.push(k)[0] == q[0]);
        let tail = if is_live(slab, k) {
            seq![k]
        } else {
            Seq::<usize>::empty()
        };
        if is_live(slab, q[0]) {
            assert(seq![q[0]] + (live_slots(q.drop_first(), slab) + tail) =~= (seq![q[0]]
                + live_slots(q.drop_first(), slab)) + tail);
        }
    }
}

proof fn lemma_slots_qty_push(s: Seq<usize>, k: usize, slots: Map<usize, Order>)
    ensures
        slots_qty(s.push(k), slots) == slots_qty(s, slots) + slots[k].qty_rem,
    decreases s.len(),
{
    assert(s.push(k)[0] == if s.len() == 0 {
        k
    } else {
        s[0]
    });
    if s.len() == 0 {
        assert(s.push(k).drop_first() =~= Seq::<usize>::empty());
        assert(slots_qty(s.push(k).drop_first(), slots) == 0);
    } else {
        assert(s.push(k).drop_first() =~= s.drop_first().push(k));
        lemma_slots_qty_push(s.drop_first(), k, slots);
    }
}

/// Changing the slab at a slot that no queue of `levels` holds keeps the levels
/// well formed and their live contents unchanged.
proof fn lemma_levels_frame(
    levels: Map<Price, Level>,
    s: Side,
    a: Map<usize, Order>,
    b: Map<usize, Order>,
    k: usize,
)
    requires
        side_wf(levels, s, a),
        agree_except(a, b, k),
        forall|p: Price| #[trigger] levels.contains_key(p) ==> !levels[p].queue@.contains(k),
    ensures
        side_wf(levels, s, b),
        forall|p: Price|
            #[trigger] levels.contains_key(p) ==> live_slots(levels[p].queue@, a) == live_slots(
                levels[p].queue@,
                b,
            ),
        levels.map_values(|l: Level| live_slots(l.queue@, a)) =~= levels.map_values(
            |l: Level| live_slots(l.queue@, b),
        ),
{
    assert forall|p: Price| #[trigger] levels.contains_key(p) implies level_wf(levels[p], s, p, b)
        && live_slots(levels[p].queue@, a) == live_slots(levels[p].queue@, b) by {
        let q = levels[p].queue@;
        assert(level_wf(levels[p], s, p, a));
        assert forall|i: int| 0 <= i < q.len() implies (is_live(a, #[trigger] q[i]) == is_live(b, q[i])
            && (is_live(a, q[i]) ==> a[q[i]] == b[q[i]])) by {
            assert(q[i] != k);
            assert(a.contains_key(q[i]) == b.contains_key(q[i]));
        }
        lemma_live_slots_frame(q, a, b);
        assert forall|i: int| 0 <= i < q.len() implies {
            let j = #[trigger] q[i];
            &&& b.contains_key(j)
            &&& b[j].side == s
            &&& b[j].price == p
        } by {
            assert(q[i] != k);
            assert(a.contains_key(q[i]));
        }
    }
}

/// The model after resting order `o` in the fresh slot `k`.
pub open spec fn rest_order(m: BookModel, o: Order, k: usize) -> BookModel {
    let levels = side_levels(m, o.side);
    let q = if levels.contains_key(o.price) {
        levels[o.price]
    } else {
        Seq::<usize>::empty()
    };
    let new_levels = levels.insert(o.price, q.push(k));
    BookModel {
        symbol_id: m.symbol_id,
        slots: m.slots.insert(k, o),
        bids: if o.side == Side::Buy {
            new_levels
        } else {
            m.bids
        },
        asks: if o.side == Side::Sell {
            new_levels
        } else {
            m.asks
        },
        index: m.index.insert(o.order_id, k),
    }
}




/// The book of symbol `symbol_id` with no order.
pub open spec fn empty_book(symbol_id: SymbolId) -> BookModel {
    BookModel {
        symbol_id,
        slots: Map::empty(),
        bids: Map::empty(),
        asks: Map::empty(),
        index: Map::empty(),
    }
}

/// Resting `orders` in turn on `m`, each in a vacant slot, can give `t`.
pub open spec fn rests_all(m: BookModel, orders: Seq<Order>, t: BookModel) -> bool
    decreases orders.len(),
{
    if orders.len() == 0 {
        t == m
    } else {
        exists|mid: BookModel, k: usize|
            #[trigger] rest_order(mid, orders.last(), k) == t && !mid.slots.contains_key(k) && rests_all(
                m,
                orders.drop_last(),
                mid,
            )
    }
}

/// An order that can rest on `m`: it has quantity left and its level can take it.
pub open spec fn can_rest(m: BookModel, o: Order) -> bool {
    o.qty_rem > 0 && level_qty(m, o.side, o.price) + o.qty_rem <= i64::MAX
}

/// `s` without the occurrences of `k`.
pub open spec fn seq_without(s: Seq<usize>, k: usize) -> Seq<usize>
    decreases s.len(),
{
    if s.len() == 0 {
        Seq::empty()
    } else if s[0] == k {
        seq_without(s.drop_first(), k)
    } else {
        seq![s[0]] + seq_without(s.drop_first(), k)
    }
}

/// The model after removing the live order in slot `k` from the book.
pub open spec fn remove_slot(m: BookModel, k: usize) -> BookModel {
    let o = m.slots[k];
    let levels = side_levels(m, o.side);
    let rest = seq_without(levels[o.price], k);
    let new_levels = if rest.len() == 0 {
        levels.remove(o.price)
    } else {
        levels.insert(o.price, rest)
    };
    BookModel {
        symbol_id: m.symbol_id,
        slots: m.slots.remove(k),
        bids: if o.side == Side::Buy {
            new_levels
        } else {
            m.bids
        },
        asks: if o.side == Side::Sell {
            new_levels
        } else {
            m.asks
        },
        index: m.index.remove(o.order_id),
    }
}

/// Taking an order off the book does not change whether a price of its side
/// would cross: only the opposite side decides that.
pub proof fn lemma_would_cross_after_remove(m: BookModel, k: usize, px: Price)
    ensures
        spec_would_cross(remove_slot(m, k), m.slots[k].side, px) == spec_would_cross(m, m.slots[k].side, px),
{
    let s = m.slots[k].side;
    let os = crate::types::spec_opposite(s);
    assert(side_levels(remove_slot(m, k), os) == side_levels(m, os));
    assert(best_price(remove_slot(m, k), os) == best_price(m, os));
}

/// Whether `cancel(order_id, account_id)` succeeds on the model.
pub open spec fn can_cancel(m: BookModel, order_id: OrderId, account_id: AccountId) -> bool {
    match indexed_order(m, order_id) {
        Some(o) => o.account_id == account_id,
        None => false,
    }
}

proof fn lemma_live_slots_kill(q: Seq<usize>, a: Map<usize, Order>, b: Map<usize, Order>, k: usize)
    requires
        forall|i: int|
            0 <= i < q.len() && #[trigger] q[i] != k ==> (is_live(a, q[i]) == is_live(b, q[i])),
        !is_live(b, k),
    ensures
        live_slots(q, b) == seq_without(live_slots(q, a), k),
    decreases q.len(),
{
    if q.len() > 0 {
        assert forall|i: int| 0 <= i < q.drop_first().len() && #[trigger] q.drop_first()[i] != k implies (is_live(a, q.drop_first()[i]) == is_live(b, q.drop_first()[i])) by {
            assert(q.drop_first()[i] == q[i + 1]);
        }
        lemma_live_slots_kill(q.drop_first(), a, b, k);
        let ra = live_slots(q.drop_first(), a);
        if is_live(a, q[0]) {
            let la = seq![q[0]] + ra;
            assert(la[0] == q[0]);
            assert(la.drop_first() =~= ra);
        }
    }
}

proof fn lemma_slots_qty_without(s: Seq<usize>, k: usize, slots: Map<usize, Order>)
    requires
        s.no_duplicates(),
        s.contains(k),
    ensures
        slots_qty(seq_without(s, k), slots) == slots_qty(s, slots) - slots[k].qty_rem,
    decreases s.len(),
{
    if s[0] == k {
        assert forall|i: int| 0 <= i < s.drop_first().len() implies s.drop_first()[i] != k by {
            assert(s.drop_first()[i] == s[i + 1]);
        }
        lemma_without_absent(s.drop_first(), k);
    } else {
        let j = choose|j: int| 0 <= j < s.len() && s[j] == k;
        assert(s.drop_first()[j - 1] == k);
        assert(s.drop_first().no_duplicates()) by {
            assert forall|a: int, b: int| 0 <= a < b < s.drop_first().len() implies s.drop_first()[a] != s.drop_first()[b] by {
                assert(s.drop_first()[a] == s[a + 1]);
                assert(s.drop_first()[b] == s[b + 1]);
            }
        }
        lemma_slots_qty_without(s.drop_first(), k, slots);
        let w = seq![s[0]] + seq_without(s.drop_first(), k);
        assert(w[0] == s[0]);
        assert(w.drop_first() =~= seq_without(s.drop_first(), k));
    }
}

proof fn lemma_without_absent(s: Seq<usize>, k: usize)
    requires
        forall|i: int| 0 <= i < s.len() ==> s[i] != k,
    ensures
        seq_without(s, k) == s,
    decreases s.len(),
{
    if s.len() > 0 {
        assert forall|i: int| 0 <= i < s.drop_first().len() implies s.drop_first()[i] != k by {
            assert(s.drop_first()[i] == s[i + 1]);
        }
        lemma_without_absent(s.drop_first(), k);
        assert(seq![s[0]] + s.drop_first() =~= s);
    }
}

proof fn lemma_slots_qty_pos(s: Seq<usize>, slots: Map<usize, Order>)
    requires
        forall|i: int| 0 <= i < s.len() ==> slots[#[trigger] s[i]].qty_rem > 0,
    ensures
        slots_qty(s, slots) >= 0,
        s.len() > 0 ==> slots_qty(s, slots) > 0,
    decreases s.len(),
{
    if s.len() > 0 {
        assert forall|i: int| 0 <= i < s.drop_first().len() implies slots[#[trigger] s.drop_first()[i]].qty_rem > 0 by {
            assert(s.drop_first()[i] == s[i + 1]);
        }
        lemma_slots_qty_pos(s.drop_first(), slots);
    }
}

proof fn lemma_without_contains(s: Seq<usize>, k: usize, x: usize)
    ensures
        seq_without(s, k).contains(x) <==> (s.contains(x) && x != k),
    decreases s.len(),
{
    if s.len() > 0 {
        lemma_without_contains(s.drop_first(), k, x);
        if s.contains(x) && x != k && s[0] != x {
            let j = choose|j: int| 0 <= j < s.len() && s[j] == x;
            assert(s.drop_first()[j - 1] == x);
        }
        if s.drop_first().contains(x) {
            let j = choose|j: int| 0 <= j < s.drop_first().len() && s.drop_first()[j] == x;
            assert(s[j + 1] == x);
        }
        if s[0] != k {
            let w = seq![s[0]] + seq_without(s.drop_first(), k);
            if seq_without(s.drop_first(), k).contains(x) {
                let j = choose|j: int| 0 <= j < seq_without(s.drop_first(), k).len() && seq_without(s.drop_first(), k)[j] == x;
                assert(w[j + 1] == x);
            }
            if w.contains(x) {
                let j = choose|j: int| 0 <= j < w.len() && w[j] == x;
                if j > 0 {
                    assert(seq_without(s.drop_first(), k)[j - 1] == x);
                }
            }
            assert(w[0] == s[0]);
        }
    }
}


proof fn lemma_live_slots_member(q: Seq<usize>, slab: Map<usize, Order>, i: int)
    requires
        0 <= i < q.len(),
        is_live(slab, q[i]),
    ensures
        live_slots(q, slab).contains(q[i]),
    decreases q.len(),
{
    if i == 0 {
        assert(live_slots(q, slab)[0] == q[0]);
    } else {
        assert(q.drop_first()[i - 1] == q[i]);
        lemma_live_slots_member(q.drop_first(), slab, i - 1);
        let r = live_slots(q.drop_first(), slab);
        let j = choose|j: int| 0 <= j < r.len() && r[j] == q[i];
        if is_live(slab, q[0]) {
            assert(live_slots(q, slab)[j + 1] == q[i]);
        }
    }
}

proof fn lemma_live_slots_no_dup(q: Seq<usize>, slab: Map<usize, Order>)
    requires
        q.no_duplicates(),
    ensures
        live_slots(q, slab).no_duplicates(),
    decreases q.len(),
{
    if q.len() > 0 {
        assert(q.drop_first().no_duplicates()) by {
            assert forall|a: int, b: int| 0 <= a < b < q.drop_first().len() implies q.drop_first()[a] != q.drop_first()[b] by {
                assert(q.drop_first()[a] == q[a + 1]);
                assert(q.drop_first()[b] == q[b + 1]);
            }
        }
        lemma_live_slots_no_dup(q.drop_first(), slab);
        lemma_live_slots_live(q.drop_first(), slab);
        let r = live_slots(q.drop_first(), slab);
        if is_live(slab, q[0]) {
            let w = seq![q[0]] + r;
            assert forall|a: int, b: int| 0 <= a < b < w.len() implies w[a] != w[b] by {
                if a == 0 {
                    assert(w[b] == r[b - 1]);
                    assert(q.drop_first().contains(r[b - 1]));
                    let j = choose|j: int| 0 <= j < q.drop_first().len() && q.drop_first()[j] == r[b - 1];
                    assert(q[j + 1] == r[b - 1]);
                } else {
                    assert(w[a] == r[a - 1]);
                    assert(w[b] == r[b - 1]);
                }
            }
        }
    }
}

/// Taking an order off a book never raises the quantity at any price.
pub proof fn lemma_remove_slot_level_qty(m: BookModel, k: usize, s: Side, p: Price)
    requires
        model_wf(m),
        m.slots.contains_key(k),
    ensures
        level_qty(remove_slot(m, k), s, p) <= level_qty(m, s, p),
{
    let o = m.slots[k];
    let m1 = remove_slot(m, k);
    if side_levels(m, s).contains_key(p) {
        let q = side_levels(m, s)[p];
        assert forall|i: int| 0 <= i < q.len() implies m.slots[#[trigger] q[i]].qty_rem > 0 by {
            assert(m.slots.contains_key(q[i]));
        }
        lemma_slots_qty_pos(q, m.slots);
        if s == o.side && p == o.price {
            lemma_slots_qty_without(q, k, m.slots);
            let rest = seq_without(q, k);
            if rest.len() > 0 {
                assert forall|i: int| 0 <= i < rest.len() implies m.slots[#[trigger] rest[i]].qty_rem == m1.slots[rest[i]].qty_rem by {
                    lemma_without_contains(q, k, rest[i]);
                    assert(rest.contains(rest[i]));
                }
                lemma_slots_qty_agree(rest, m.slots, m1.slots);
            }
        } else {
            assert(side_levels(m1, s)[p] == q);
            assert forall|i: int| 0 <= i < q.len() implies m.slots[#[trigger] q[i]].qty_rem == m1.slots[q[i]].qty_rem by {
                assert(m.slots.contains_key(q[i]));
                if q[i] == k {
                    assert(m.slots[k].side == s && m.slots[k].price == p);
                }
            }
            lemma_slots_qty_agree(q, m.slots, m1.slots);
        }
    } else {
        assert(!side_levels(m1, s).contains_key(p));
    }
}


/// Well-formedness of a book model: levels hold distinct live slots of their own
/// side and price with a positive aggregate that fits a quantity, every live slot
/// sits in its level, and every index entry names a live slot of that order id.
pub open spec fn model_wf(m: BookModel) -> bool {
    &&& m.bids.dom().finite()
    &&& m.asks.dom().finite()
    &&& forall|s: Side, p: Price|
        #[trigger] side_levels(m, s).contains_key(p) ==> {
            let q = side_levels(m, s)[p];
            &&& q.len() > 0
            &&& q.no_duplicates()
            &&& 0 < slots_qty(q, m.slots) <= i64::MAX
            &&& forall|i: int|
                0 <= i < q.len() ==> {
                    &&& m.slots.contains_key(#[trigger] q[i])
                    &&& m.slots[q[i]].side == s
                    &&& m.slots[q[i]].price == p
                }
        }
    &&& forall|k: usize|
        #[trigger] m.slots.contains_key(k) ==> {
            &&& m.slots[k].qty_rem > 0
            &&& side_levels(m, m.slots[k].side).contains_key(m.slots[k].price)
            &&& side_levels(m, m.slots[k].side)[m.slots[k].price].contains(k)
        }
    &&& forall|id: OrderId|
        #[trigger] m.index.contains_key(id) ==> {
            &&& m.slots.contains_key(m.index[id])
            &&& m.slots[m.index[id]].order_id == id
        }
}


/// A taker of side `ts` with limit `tp` trades with a level at price `p`.
pub open spec fn crosses(ts: Side, tp: Price, p: Price) -> bool {
    match ts {
        Side::Buy => p <= tp,
        Side::Sell => p >= tp,
    }
}

/// Quantity traded between a taker with `q` left and a maker with `mq` left.
pub open spec fn trade_qty(q: int, mq: int) -> int {
    if q < mq {
        q
    } else {
        mq
    }
}

/// One matching step of a taker of side `ts` (order `taker_id`, limit `tp`, `q`
/// left) against the front order of the best opposite level: the fill and the
/// book after it, or `None` when matching stops there.
pub open spec fn match_step(m: BookModel, ts: Side, taker_id: OrderId, tp: Price, q: int) -> Option<
    (MatchFill, BookModel),
> {
    let ms = crate::types::spec_opposite(ts);
    if q <= 0 {
        None
    } else {
        match best_price(m, ms) {
            None => None,
            Some(p) => {
                let lvl = side_levels(m, ms)[p];
                if !crosses(ts, tp, p) || lvl.len() == 0 {
                    None
                } else {
                    let k = lvl[0];
                    let maker = m.slots[k];
                    let t = trade_qty(q, maker.qty_rem as int);
                    let fill = MatchFill {
                        maker_order_id: maker.order_id,
                        taker_order_id: taker_id,
                        price: p,
                        qty: t as i64,
                    };
                    if t == maker.qty_rem {
                        Some((fill, remove_slot(m, k)))
                    } else {
                        Some(
                            (
                                fill,
                                BookModel {
                                    slots: m.slots.insert(
                                        k,
                                        Order { qty_rem: (maker.qty_rem - t) as i64, ..maker },
                                    ),
                                    ..m
                                },
                            ),
                        )
                    }
                }
            },
        }
    }
}

/// The fills of a taker and the book after matching it, price-time priority:
/// best opposite price first, FIFO within a price, until the taker is done, the
/// opposite side is empty or its best price no longer crosses the limit.
pub open spec fn match_result(m: BookModel, ts: Side, taker_id: OrderId, tp: Price, q: int) -> (
    Seq<MatchFill>,
    BookModel,
)
    decreases q,
{
    match match_step(m, ts, taker_id, tp, q) {
        None => (Seq::empty(), m),
        Some((f, m2)) => if 0 < f.qty <= q {
            let (rest, mf) = match_result(m2, ts, taker_id, tp, q - f.qty);
            (seq![f] + rest, mf)
        } else {
            (Seq::empty(), m)
        },
    }
}

/// Total quantity of a sequence of fills.
pub open spec fn fills_qty(fills: Seq<MatchFill>) -> int
    decreases fills.len(),
{
    if fills.len() == 0 {
        0
    } else {
        fills[0].qty + fills_qty(fills.drop_first())
    }
}


// ------------------------------------------------------------------
// Laws of matching.
// ------------------------------------------------------------------

/// Matching never trades through the taker's limit: every fill is at a price
/// that crosses the limit, has a positive quantity, names the taker, and the
/// fills together never exceed the taker's quantity.
pub proof fn lemma_match_respects_limit(m: BookModel, ts: Side, taker_id: OrderId, tp: Price, q: int)
    ensures
        ({
            let fills = match_result(m, ts, taker_id, tp, q).0;
            &&& forall|i: int|
                #![trigger fills[i]]
                0 <= i < fills.len() ==> crosses(ts, tp, fills[i].price) && fills[i].qty > 0
                    && fills[i].taker_order_id == taker_id
            &&& fills_qty(fills) <= if q > 0 {
                q
            } else {
                0
            }
        }),
    decreases q,
{
    match match_step(m, ts, taker_id, tp, q) {
        None => {},
        Some((f, m2)) => {
            if 0 < f.qty <= q {
                lemma_match_respects_limit(m2, ts, taker_id, tp, q - f.qty);
                let rest = match_result(m2, ts, taker_id, tp, q - f.qty).0;
                let fills = seq![f] + rest;
                assert(fills == match_result(m, ts, taker_id, tp, q).0);
                let p = best_price(m, crate::types::spec_opposite(ts)).unwrap();
                assert(f.price == p);
                assert(crosses(ts, tp, f.price));
                assert(f.taker_order_id == taker_id);
                assert(fills[0] == f);
                assert(fills.drop_first() =~= rest);
                assert(fills_qty(fills) == f.qty + fills_qty(rest));
                assert forall|i: int| #![trigger fills[i]] 0 <= i < fills.len() implies crosses(ts, tp, fills[i].price)
                    && fills[i].qty > 0 && fills[i].taker_order_id == taker_id by {
                    if i > 0 {
                        assert(fills[i] == rest[i - 1]);
                    }
                }
            }
        },
    }
}

/// Matching only takes orders off the book: every order id indexed after a
/// taker has matched was indexed before, so matching never puts the taker (or
/// anything else) on the book.
pub proof fn lemma_match_adds_no_order(m: BookModel, ts: Side, taker_id: OrderId, tp: Price, q: int, id: OrderId)
    ensures
        match_result(m, ts, taker_id, tp, q).1.index.contains_key(id) ==> m.index.contains_key(id),
    decreases q,
{
    match match_step(m, ts, taker_id, tp, q) {
        None => {},
        Some((f, m2)) => {
            if 0 < f.qty <= q {
                lemma_match_adds_no_order(m2, ts, taker_id, tp, q - f.qty, id);
                assert(m2.index.contains_key(id) ==> m.index.contains_key(id));
            }
        },
    }
}

/// For a taker of side `ts`, price `a` is at least as good as price `b`: a buy
/// taker prefers lower prices, a sell taker higher ones.
pub open spec fn no_worse(ts: Side, a: Price, b: Price) -> bool {
    match ts {
        Side::Buy => a <= b,
        Side::Sell => a >= b,
    }
}

/// Every slot queued at a price of the side of `s` holds an order of that side
/// and price.
pub(crate) closed spec fn side_sound(m: BookModel, s: Side) -> bool {
    forall|p: Price, i: int|
        #![trigger side_levels(m, s)[p][i]]
        side_levels(m, s).contains_key(p) && 0 <= i < side_levels(m, s)[p].len() ==> {
            &&& m.slots.contains_key(side_levels(m, s)[p][i])
            &&& m.slots[side_levels(m, s)[p][i]].side == s
            &&& m.slots[side_levels(m, s)[p][i]].price == p
        }
}

/// A matching step keeps the opposite side sound and adds no price level to it.
proof fn lemma_match_step_levels(m: BookModel, ts: Side, taker_id: OrderId, tp: Price, q: int)
    requires
        side_sound(m, crate::types::spec_opposite(ts)),
        match_step(m, ts, taker_id, tp, q) is Some,
    ensures
        ({
            let ms = crate::types::spec_opposite(ts);
            let m2 = match_step(m, ts, taker_id, tp, q).unwrap().1;
            &&& side_sound(m2, ms)
            &&& side_levels(m2, ms).dom().subset_of(side_levels(m, ms).dom())
        }),
{
    let ms = crate::types::spec_opposite(ts);
    let p = best_price(m, ms).unwrap();
    let c = choose|x: Price| is_best(side_levels(m, ms), ms, x);
    assert(is_best(side_levels(m, ms), ms, c));
    let lvl = side_levels(m, ms)[p];
    let k = lvl[0];
    assert(m.slots.contains_key(k) && m.slots[k].side == ms && m.slots[k].price == p);
    let (f, m2) = match_step(m, ts, taker_id, tp, q).unwrap();
    let maker = m.slots[k];
    let t = trade_qty(q, maker.qty_rem as int);
    if t == maker.qty_rem {
        assert(m2 == remove_slot(m, k));
        let rest = seq_without(lvl, k);
        assert forall|p2: Price, i: int|
            #![trigger side_levels(m2, ms)[p2][i]]
            side_levels(m2, ms).contains_key(p2) && 0 <= i < side_levels(m2, ms)[p2].len() implies {
                &&& m2.slots.contains_key(side_levels(m2, ms)[p2][i])
                &&& m2.slots[side_levels(m2, ms)[p2][i]].side == ms
                &&& m2.slots[side_levels(m2, ms)[p2][i]].price == p2
            } by {
            let x = side_levels(m2, ms)[p2][i];
            if p2 == p {
                assert(rest[i] == x);
                assert(rest.contains(x));
                lemma_without_contains(lvl, k, x);
                let j = choose|j: int| 0 <= j < lvl.len() && lvl[j] == x;
                assert(side_levels(m, ms)[p][j] == x);
            } else {
                assert(side_levels(m, ms)[p2][i] == x);
                assert(m.slots[x].price == p2);
            }
        }
        assert(side_levels(m2, ms).dom().subset_of(side_levels(m, ms).dom()));
    } else {
        assert(side_levels(m2, ms) == side_levels(m, ms));
        assert forall|p2: Price, i: int|
            #![trigger side_levels(m2, ms)[p2][i]]
            side_levels(m2, ms).contains_key(p2) && 0 <= i < side_levels(m2, ms)[p2].len() implies {
                &&& m2.slots.contains_key(side_levels(m2, ms)[p2][i])
                &&& m2.slots[side_levels(m2, ms)[p2][i]].side == ms
                &&& m2.slots[side_levels(m2, ms)[p2][i]].price == p2
            } by {
            assert(side_levels(m, ms)[p2][i] == side_levels(m2, ms)[p2][i]);
        }
    }
}

proof fn lemma_match_prices(m: BookModel, ts: Side, taker_id: OrderId, tp: Price, q: int)
    requires
        side_sound(m, crate::types::spec_opposite(ts)),
    ensures
        ({
            let ms = crate::types::spec_opposite(ts);
            let fills = match_result(m, ts, taker_id, tp, q).0;
            &&& forall|i: int| #![trigger fills[i]] 0 <= i < fills.len() ==> side_levels(m, ms).contains_key(fills[i].price)
            &&& forall|i: int, j: int|
                #![trigger fills[i], fills[j]]
                0 <= i < j < fills.len() ==> no_worse(ts, fills[i].price, fills[j].price)
        }),
    decreases q,
{
    let ms = crate::types::spec_opposite(ts);
    match match_step(m, ts, taker_id, tp, q) {
        None => {},
        Some((f, m2)) => {
            if 0 < f.qty <= q {
                lemma_match_step_levels(m, ts, taker_id, tp, q);
                lemma_match_prices(m2, ts, taker_id, tp, q - f.qty);
                let rest = match_result(m2, ts, taker_id, tp, q - f.qty).0;
                let fills = seq![f] + rest;
                assert(fills == match_result(m, ts, taker_id, tp, q).0);
                let p = best_price(m, ms).unwrap();
                let c = choose|x: Price| is_best(side_levels(m, ms), ms, x);
                assert(is_best(side_levels(m, ms), ms, c));
                assert(f.price == p);
                assert(fills[0] == f);
                assert forall|i: int| #![trigger fills[i]] 0 <= i < fills.len() implies side_levels(m, ms).contains_key(fills[i].price) by {
                    if i > 0 {
                        assert(fills[i] == rest[i - 1]);
                        assert(side_levels(m2, ms).contains_key(rest[i - 1].price));
                    }
                }
                assert forall|i: int, j: int|
                    #![trigger fills[i], fills[j]]
                    0 <= i < j < fills.len() implies no_worse(ts, fills[i].price, fills[j].price) by {
                    assert(fills[j] == rest[j - 1]);
                    if i > 0 {
                        assert(fills[i] == rest[i - 1]);
                    } else {
                        assert(side_levels(m2, ms).contains_key(rest[j - 1].price));
                        assert(side_levels(m, ms).contains_key(fills[j].price));
                    }
                }
            }
        },
    }
}

/// Price priority: a taker trades at the best opposite price first and then at
/// ever worse prices for it (a buy taker at rising ask prices, a sell taker at
/// falling bid prices), every fill at a price where the book had a level; its
/// first fill is against the front order of the best opposite level (time
/// priority).
pub proof fn lemma_match_price_time_priority(m: BookModel, ts: Side, taker_id: OrderId, tp: Price, q: int)
    requires
        model_wf(m),
    ensures
        ({
            let ms = crate::types::spec_opposite(ts);
            let fills = match_result(m, ts, taker_id, tp, q).0;
            &&& forall|i: int| #![trigger fills[i]] 0 <= i < fills.len() ==> side_levels(m, ms).contains_key(fills[i].price)
            &&& forall|i: int, j: int|
                #![trigger fills[i], fills[j]]
                0 <= i < j < fills.len() ==> no_worse(ts, fills[i].price, fills[j].price)
            &&& fills.len() > 0 ==> {
                &&& best_price(m, ms) == Some(fills[0].price)
                &&& fills[0].maker_order_id == m.slots[side_levels(m, ms)[fills[0].price][0]].order_id
            }
        }),
{
    let ms = crate::types::spec_opposite(ts);
    assert forall|p: Price, i: int|
        #![trigger side_levels(m, ms)[p][i]]
        side_levels(m, ms).contains_key(p) && 0 <= i < side_levels(m, ms)[p].len() implies {
            &&& m.slots.contains_key(side_levels(m, ms)[p][i])
            &&& m.slots[side_levels(m, ms)[p][i]].side == ms
            &&& m.slots[side_levels(m, ms)[p][i]].price == p
        } by {
        assert(side_levels(m, ms).contains_key(p));
    }
    lemma_match_prices(m, ts, taker_id, tp, q);
    let fills = match_result(m, ts, taker_id, tp, q).0;
    if fills.len() > 0 {
        let (f, m2) = match_step(m, ts, taker_id, tp, q).unwrap();
        assert(fills[0] == f);
    }
}

/// No bid is at or above an ask.
pub open spec fn uncrossed(m: BookModel) -> bool {
    forall|b: Price, a: Price| #[trigger] m.bids.contains_key(b) && #[trigger] m.asks.contains_key(a) ==> b < a
}

/// The levels of the side of `s` are finitely many, each holds at least one
/// slot, and every slot has quantity left.
pub(crate) closed spec fn side_live(m: BookModel, s: Side) -> bool {
    &&& side_levels(m, s).dom().finite()
    &&& forall|p: Price| #[trigger] side_levels(m, s).contains_key(p) ==> side_levels(m, s)[p].len() > 0
    &&& forall|p: Price, i: int|
        #![trigger side_levels(m, s)[p][i]]
        side_levels(m, s).contains_key(p) && 0 <= i < side_levels(m, s)[p].len() ==> m.slots[side_levels(
            m,
            s,
        )[p][i]].qty_rem > 0
}

pub(crate) proof fn lemma_wf_sides(m: BookModel, s: Side)
    requires
        model_wf(m),
    ensures
        side_sound(m, s),
        side_live(m, s),
{
    assert forall|p: Price, i: int|
        #![trigger side_levels(m, s)[p][i]]
        side_levels(m, s).contains_key(p) && 0 <= i < side_levels(m, s)[p].len() implies {
            &&& m.slots.contains_key(side_levels(m, s)[p][i])
            &&& m.slots[side_levels(m, s)[p][i]].side == s
            &&& m.slots[side_levels(m, s)[p][i]].price == p
            &&& m.slots[side_levels(m, s)[p][i]].qty_rem > 0
        } by {
        assert(side_levels(m, s).contains_key(p));
        assert(m.slots.contains_key(side_levels(m, s)[p][i]));
    }
    assert forall|p: Price| #[trigger] side_levels(m, s).contains_key(p) implies side_levels(m, s)[p].len() > 0 by {
        assert(side_levels(m, s).contains_key(p));
    }
}

/// A finite side with a level has a best price.
proof fn lemma_best_exists(levels: Map<Price, Seq<usize>>, s: Side, p0: Price)
    requires
        levels.dom().finite(),
        levels.contains_key(p0),
    ensures
        exists|p: Price| is_best(levels, s, p),
{
    let d = levels.dom();
    let r = |a: Price, b: Price|
        match s {
            Side::Buy => a >= b,
            Side::Sell => a <= b,
        };
    assert(vstd::relations::total_ordering(r));
    vstd::set_lib::lemma_set_empty_equivalency_len(d);
    assert(d.len() > 0) by {
        if d.len() == 0 {
            assert(d.contains(p0));
        }
    }
    d.find_unique_minimal_ensures(r);
    let p = d.find_unique_minimal(r);
    d.lemma_minimal_equivalent_least(r, p);
    assert forall|q: Price| levels.contains_key(q) implies match s {
        Side::Buy => q <= p,
        Side::Sell => p <= q,
    } by {
        assert(d.contains(q));
        assert(r(p, q));
    }
    assert(is_best(levels, s, p));
}

/// When the best price of the side of `ms` does not cross a taker's limit (or
/// the side is empty), no price of that side does.
pub(crate) proof fn lemma_best_blocks(m: BookModel, ts: Side, tp: Price)
    requires
        side_live(m, crate::types::spec_opposite(ts)),
        match best_price(m, crate::types::spec_opposite(ts)) {
            Some(b) => !crosses(ts, tp, b),
            None => true,
        },
    ensures
        forall|p: Price|
            #[trigger] side_levels(m, crate::types::spec_opposite(ts)).contains_key(p) ==> !crosses(ts, tp, p),
{
    let ms = crate::types::spec_opposite(ts);
    assert forall|p: Price| #[trigger] side_levels(m, ms).contains_key(p) implies !crosses(ts, tp, p) by {
        lemma_best_exists(side_levels(m, ms), ms, p);
        let b = choose|x: Price| is_best(side_levels(m, ms), ms, x);
        assert(is_best(side_levels(m, ms), ms, b));
        assert(best_price(m, ms) == Some(b));
    }
}

/// A matching step keeps the opposite side live and leaves the taker's side alone.
proof fn lemma_match_step_live(m: BookModel, ts: Side, taker_id: OrderId, tp: Price, q: int)
    requires
        side_sound(m, crate::types::spec_opposite(ts)),
        side_live(m, crate::types::spec_opposite(ts)),
        match_step(m, ts, taker_id, tp, q) is Some,
    ensures
        side_live(match_step(m, ts, taker_id, tp, q).unwrap().1, crate::types::spec_opposite(ts)),
        side_levels(match_step(m, ts, taker_id, tp, q).unwrap().1, ts) == side_levels(m, ts),
{
    let ms = crate::types::spec_opposite(ts);
    lemma_match_step_levels(m, ts, taker_id, tp, q);
    let p = best_price(m, ms).unwrap();
    let c = choose|x: Price| is_best(side_levels(m, ms), ms, x);
    assert(is_best(side_levels(m, ms), ms, c));
    let lvl = side_levels(m, ms)[p];
    let k = lvl[0];
    assert(side_levels(m, ms)[p][0] == k);
    assert(m.slots.contains_key(k) && m.slots[k].side == ms && m.slots[k].price == p);
    assert(m.slots[k].qty_rem > 0);
    let m2 = match_step(m, ts, taker_id, tp, q).unwrap().1;
    let maker = m.slots[k];
    let t = trade_qty(q, maker.qty_rem as int);
    vstd::set_lib::lemma_set_subset_finite(side_levels(m, ms).dom(), side_levels(m2, ms).dom());
    if t == maker.qty_rem {
        assert(m2 == remove_slot(m, k));
        let rest = seq_without(lvl, k);
        assert forall|p2: Price| #[trigger] side_levels(m2, ms).contains_key(p2) implies side_levels(m2, ms)[p2].len()
            > 0 by {
            if p2 != p {
                assert(side_levels(m2, ms)[p2] == side_levels(m, ms)[p2]);
            }
        }
        assert forall|p2: Price, i: int|
            #![trigger side_levels(m2, ms)[p2][i]]
            side_levels(m2, ms).contains_key(p2) && 0 <= i < side_levels(m2, ms)[p2].len() implies m2.slots[side_levels(
                m2,
                ms,
            )[p2][i]].qty_rem > 0 by {
            let x = side_levels(m2, ms)[p2][i];
            if p2 == p {
                assert(rest[i] == x);
                assert(rest.contains(x));
                lemma_without_contains(lvl, k, x);
                let j = choose|j: int| 0 <= j < lvl.len() && lvl[j] == x;
                assert(side_levels(m, ms)[p][j] == x);
            } else {
                assert(side_levels(m, ms)[p2][i] == x);
                assert(m.slots[x].price == p2);
            }
        }
    } else {
        assert(side_levels(m2, ms) == side_levels(m, ms));
        assert forall|p2: Price, i: int|
            #![trigger side_levels(m2, ms)[p2][i]]
            side_levels(m2, ms).contains_key(p2) && 0 <= i < side_levels(m2, ms)[p2].len() implies m2.slots[side_levels(
                m2,
                ms,
            )[p2][i]].qty_rem > 0 by {
            assert(side_levels(m, ms)[p2][i] == side_levels(m2, ms)[p2][i]);
        }
    }
}

/// What matching leaves: the taker's side as it was, no new level on the
/// other side, and, while the taker still has quantity, no level there that
/// crosses its limit.
pub(crate) proof fn lemma_match_result_outcome(m: BookModel, ts: Side, taker_id: OrderId, tp: Price, q: int)
    requires
        side_sound(m, crate::types::spec_opposite(ts)),
        side_live(m, crate::types::spec_opposite(ts)),
    ensures
        ({
            let ms = crate::types::spec_opposite(ts);
            let (fills, m2) = match_result(m, ts, taker_id, tp, q);
            &&& side_levels(m2, ts) == side_levels(m, ts)
            &&& side_levels(m2, ms).dom().subset_of(side_levels(m, ms).dom())
            &&& q - fills_qty(fills) > 0 ==> forall|p: Price|
                #[trigger] side_levels(m2, ms).contains_key(p) ==> !crosses(ts, tp, p)
        }),
    decreases q,
{
    let ms = crate::types::spec_opposite(ts);
    match match_step(m, ts, taker_id, tp, q) {
        None => {
            if q > 0 {
                match best_price(m, ms) {
                    Some(b) => {
                        let c = choose|x: Price| is_best(side_levels(m, ms), ms, x);
                        assert(is_best(side_levels(m, ms), ms, c));
                        assert(side_levels(m, ms).contains_key(b));
                        assert(side_levels(m, ms)[b].len() > 0);
                    },
                    None => {},
                }
                lemma_best_blocks(m, ts, tp);
            }
        },
        Some((f, m2)) => {
            let b = best_price(m, ms).unwrap();
            let c = choose|x: Price| is_best(side_levels(m, ms), ms, x);
            assert(is_best(side_levels(m, ms), ms, c));
            let k = side_levels(m, ms)[b][0];
            assert(side_levels(m, ms).contains_key(b));
            assert(side_levels(m, ms)[b].len() > 0);
            assert(m.slots[k].qty_rem > 0);
            assert(0 < f.qty <= q);
            lemma_match_step_live(m, ts, taker_id, tp, q);
            lemma_match_step_levels(m, ts, taker_id, tp, q);
            lemma_match_result_outcome(m2, ts, taker_id, tp, q - f.qty);
            let rest = match_result(m2, ts, taker_id, tp, q - f.qty).0;
            let fills = seq![f] + rest;
            assert(fills[0] == f);
            assert(fills.drop_first() =~= rest);
            assert(fills_qty(fills) == f.qty + fills_qty(rest));
        },
    }
}

/// Partial fills: a taker trades until its quantity is used up or no level
/// left on the other side crosses its limit; matching leaves the taker's own
/// side as it was and adds no level to the other side.
pub proof fn lemma_match_leaves_no_crossing_level(m: BookModel, ts: Side, taker_id: OrderId, tp: Price, q: int)
    requires
        model_wf(m),
    ensures
        ({
            let ms = crate::types::spec_opposite(ts);
            let (fills, m2) = match_result(m, ts, taker_id, tp, q);
            &&& side_levels(m2, ts) == side_levels(m, ts)
            &&& side_levels(m2, ms).dom().subset_of(side_levels(m, ms).dom())
            &&& q - fills_qty(fills) > 0 ==> forall|p: Price|
                #[trigger] side_levels(m2, ms).contains_key(p) ==> !crosses(ts, tp, p)
        }),
{
    lemma_wf_sides(m, crate::types::spec_opposite(ts));
    lemma_match_result_outcome(m, ts, taker_id, tp, q);
}

/// Every slot of `a` holds, in `b`, an order with the same id, side and price.
spec fn slots_from(a: BookModel, b: BookModel) -> bool {
    forall|k: usize|
        #[trigger] a.slots.contains_key(k) ==> {
            &&& b.slots.contains_key(k)
            &&& a.slots[k].order_id == b.slots[k].order_id
            &&& a.slots[k].side == b.slots[k].side
            &&& a.slots[k].price == b.slots[k].price
        }
}

proof fn lemma_match_fills_outcome(m: BookModel, ts: Side, taker_id: OrderId, tp: Price, q: int)
    requires
        side_sound(m, crate::types::spec_opposite(ts)),
        side_live(m, crate::types::spec_opposite(ts)),
    ensures
        ({
            let ms = crate::types::spec_opposite(ts);
            let (fills, m2) = match_result(m, ts, taker_id, tp, q);
            &&& slots_from(m2, m)
            &&& forall|i: int|
                #![trigger fills[i]]
                0 <= i < fills.len() ==> exists|k: usize|
                    #[trigger] m.slots.contains_key(k) && m.slots[k].order_id == fills[i].maker_order_id
                        && m.slots[k].side == ms && m.slots[k].price == fills[i].price
            &&& forall|i: int, p: Price|
                0 <= i < fills.len() && #[trigger] side_levels(m2, ms).contains_key(p) ==> no_worse(
                    ts,
                    #[trigger] fills[i].price,
                    p,
                )
        }),
    decreases q,
{
    let ms = crate::types::spec_opposite(ts);
    match match_step(m, ts, taker_id, tp, q) {
        None => {},
        Some((f, m2)) => {
            let b = best_price(m, ms).unwrap();
            let c = choose|x: Price| is_best(side_levels(m, ms), ms, x);
            assert(is_best(side_levels(m, ms), ms, c));
            let k = side_levels(m, ms)[b][0];
            assert(side_levels(m, ms).contains_key(b));
            assert(side_levels(m, ms)[b].len() > 0);
            assert(m.slots.contains_key(k) && m.slots[k].side == ms && m.slots[k].price == b);
            assert(m.slots[k].qty_rem > 0);
            if 0 < f.qty <= q {
                lemma_match_step_live(m, ts, taker_id, tp, q);
                lemma_match_step_levels(m, ts, taker_id, tp, q);
                lemma_match_fills_outcome(m2, ts, taker_id, tp, q - f.qty);
                lemma_match_result_outcome(m2, ts, taker_id, tp, q - f.qty);
                let (rest, mf) = match_result(m2, ts, taker_id, tp, q - f.qty);
                let fills = seq![f] + rest;
                assert(fills[0] == f);
                assert(slots_from(m2, m));
                assert forall|x: usize| #[trigger] mf.slots.contains_key(x) implies {
                    &&& m.slots.contains_key(x)
                    &&& mf.slots[x].order_id == m.slots[x].order_id
                    &&& mf.slots[x].side == m.slots[x].side
                    &&& mf.slots[x].price == m.slots[x].price
                } by {
                    assert(m2.slots.contains_key(x));
                }
                assert forall|i: int|
                    #![trigger fills[i]]
                    0 <= i < fills.len() implies exists|k: usize|
                        #[trigger] m.slots.contains_key(k) && m.slots[k].order_id == fills[i].maker_order_id
                            && m.slots[k].side == ms && m.slots[k].price == fills[i].price by {
                    if i == 0 {
                        assert(m.slots.contains_key(k));
                    } else {
                        assert(fills[i] == rest[i - 1]);
                        let k1 = choose|k1: usize|
                            #[trigger] m2.slots.contains_key(k1) && m2.slots[k1].order_id == rest[i - 1].maker_order_id
                                && m2.slots[k1].side == ms && m2.slots[k1].price == rest[i - 1].price;
                        assert(m.slots.contains_key(k1));
                    }
                }
                assert forall|i: int, p: Price|
                    0 <= i < fills.len() && #[trigger] side_levels(mf, ms).contains_key(p) implies no_worse(
                        ts,
                        #[trigger] fills[i].price,
                        p,
                    ) by {
                    if i == 0 {
                        assert(side_levels(m2, ms).contains_key(p));
                        assert(side_levels(m, ms).contains_key(p));
                    } else {
                        assert(fills[i] == rest[i - 1]);
                    }
                }
            }
        },
    }
}

/// Every fill is against an order that rested on the other side at the fill
/// price, and no fill is at a better price for the taker than any level left
/// on the other side after matching.
pub proof fn lemma_match_fills_from_book(m: BookModel, ts: Side, taker_id: OrderId, tp: Price, q: int)
    requires
        model_wf(m),
    ensures
        ({
            let ms = crate::types::spec_opposite(ts);
            let (fills, m2) = match_result(m, ts, taker_id, tp, q);
            &&& forall|i: int|
                #![trigger fills[i]]
                0 <= i < fills.len() ==> exists|k: usize|
                    #[trigger] m.slots.contains_key(k) && m.slots[k].order_id == fills[i].maker_order_id
                        && m.slots[k].side == ms && m.slots[k].price == fills[i].price
            &&& forall|i: int, p: Price|
                0 <= i < fills.len() && #[trigger] side_levels(m2, ms).contains_key(p) ==> no_worse(
                    ts,
                    #[trigger] fills[i].price,
                    p,
                )
        }),
{
    lemma_wf_sides(m, crate::types::spec_opposite(ts));
    lemma_match_fills_outcome(m, ts, taker_id, tp, q);
}

/// Two books a user cannot tell apart: the same levels on both sides, each
/// with the same orders in the same time priority (the slots may differ).
pub open spec fn books_alike(a: BookModel, b: BookModel) -> bool {
    &&& forall|s: Side, p: Price|
        #[trigger] side_levels(a, s).contains_key(p) == side_levels(b, s).contains_key(p)
    &&& forall|s: Side, p: Price| #[trigger] level_orders(a, s, p) == level_orders(b, s, p)
}

/// What matching needs of a book to keep going: both sides sound, the other
/// side live, and no slot twice in a queue of the other side.
spec fn match_inv(m: BookModel, ts: Side) -> bool {
    &&& side_sound(m, Side::Buy)
    &&& side_sound(m, Side::Sell)
    &&& side_live(m, crate::types::spec_opposite(ts))
    &&& forall|p: Price|
        #[trigger] side_levels(m, crate::types::spec_opposite(ts)).contains_key(p) ==> side_levels(
            m,
            crate::types::spec_opposite(ts),
        )[p].no_duplicates()
}

proof fn lemma_match_inv_of_wf(m: BookModel, ts: Side)
    requires
        model_wf(m),
    ensures
        match_inv(m, ts),
{
    lemma_wf_sides(m, Side::Buy);
    lemma_wf_sides(m, Side::Sell);
    let ms = crate::types::spec_opposite(ts);
    assert forall|p: Price| #[trigger] side_levels(m, ms).contains_key(p) implies side_levels(m, ms)[p].no_duplicates() by {
        assert(side_levels(m, ms).contains_key(p));
    }
}

/// The queue of a slot `k` at the front of a queue without repeats, once `k`
/// leaves: the rest of the queue.
proof fn lemma_without_front(q: Seq<usize>)
    requires
        q.len() > 0,
        q.no_duplicates(),
    ensures
        seq_without(q, q[0]) == q.drop_first(),
        q.drop_first().no_duplicates(),
{
    assert forall|i: int| 0 <= i < q.drop_first().len() implies q.drop_first()[i] != q[0] by {
        assert(q.drop_first()[i] == q[i + 1]);
    }
    lemma_without_absent(q.drop_first(), q[0]);
    assert forall|a: int, b: int| 0 <= a < b < q.drop_first().len() implies q.drop_first()[a] != q.drop_first()[b] by {
        assert(q.drop_first()[a] == q[a + 1] && q.drop_first()[b] == q[b + 1]);
    }
}

/// A map over the queue of orders is unchanged by a slot change the queue
/// does not hold.
proof fn lemma_orders_frame(q: Seq<usize>, x: Map<usize, Order>, y: Map<usize, Order>, k: usize)
    requires
        forall|i: int| 0 <= i < q.len() ==> #[trigger] q[i] != k && x[q[i]] == y[q[i]],
    ensures
        q.map_values(|j: usize| x[j]) == q.map_values(|j: usize| y[j]),
{
    assert(q.map_values(|j: usize| x[j]) =~= q.map_values(|j: usize| y[j]));
}

/// One matching step on two books a user cannot tell apart gives the same fill
/// and again two such books.
proof fn lemma_alike_step(a: BookModel, b: BookModel, ts: Side, taker_id: OrderId, tp: Price, q: int)
    requires
        match_inv(a, ts),
        match_inv(b, ts),
        books_alike(a, b),
    ensures
        match_step(a, ts, taker_id, tp, q) is Some <==> match_step(b, ts, taker_id, tp, q) is Some,
        match_step(a, ts, taker_id, tp, q) is Some ==> {
            let (fa, a2) = match_step(a, ts, taker_id, tp, q).unwrap();
            let (fb, b2) = match_step(b, ts, taker_id, tp, q).unwrap();
            &&& fa == fb
            &&& match_inv(a2, ts)
            &&& match_inv(b2, ts)
            &&& books_alike(a2, b2)
        },
{
    let ms = crate::types::spec_opposite(ts);
    assert forall|p: Price| is_best(side_levels(a, ms), ms, p) == is_best(side_levels(b, ms), ms, p) by {
        assert(side_levels(a, ms).contains_key(p) == side_levels(b, ms).contains_key(p));
        assert forall|x: Price| side_levels(a, ms).contains_key(x) == side_levels(b, ms).contains_key(x) by {
            assert(side_levels(a, ms).contains_key(x) == side_levels(b, ms).contains_key(x));
        }
    }
    if exists|p: Price| is_best(side_levels(a, ms), ms, p) {
        let p = choose|p: Price| is_best(side_levels(a, ms), ms, p);
        lemma_best_is_unique(side_levels(a, ms), ms, p);
        lemma_best_is_unique(side_levels(b, ms), ms, p);
        assert(best_price(a, ms) == Some(p));
        assert(best_price(b, ms) == Some(p));
        let la = side_levels(a, ms)[p];
        let lb = side_levels(b, ms)[p];
        assert(level_orders(a, ms, p) == level_orders(b, ms, p));
        assert(la.len() == level_orders(a, ms, p).len());
        assert(lb.len() == level_orders(b, ms, p).len());
        if q > 0 && crosses(ts, tp, p) && la.len() > 0 {
            let ka = la[0];
            let kb = lb[0];
            assert(level_orders(a, ms, p)[0] == a.slots[ka]);
            assert(level_orders(b, ms, p)[0] == b.slots[kb]);
            let maker = a.slots[ka];
            assert(b.slots[kb] == maker);
            assert(side_levels(a, ms)[p][0] == ka);
            assert(side_levels(b, ms)[p][0] == kb);
            assert(a.slots.contains_key(ka) && maker.side == ms && maker.price == p);
            assert(b.slots.contains_key(kb));
            assert(la.no_duplicates() && lb.no_duplicates());
            let t = trade_qty(q, maker.qty_rem as int);
            let (fa, a2) = match_step(a, ts, taker_id, tp, q).unwrap();
            let (fb, b2) = match_step(b, ts, taker_id, tp, q).unwrap();
            lemma_match_step_live(a, ts, taker_id, tp, q);
            lemma_match_step_live(b, ts, taker_id, tp, q);
            lemma_match_step_levels(a, ts, taker_id, tp, q);
            lemma_match_step_levels(b, ts, taker_id, tp, q);
            // Both books change only at the front slot of the best level.
            if t == maker.qty_rem {
                assert(a2 == remove_slot(a, ka));
                assert(b2 == remove_slot(b, kb));
                lemma_without_front(la);
                lemma_without_front(lb);
            } else {
                assert(side_levels(a2, ms) == side_levels(a, ms));
                assert(side_levels(b2, ms) == side_levels(b, ms));
            }
            // The taker's side: same queues, slots unchanged there.
            assert forall|p2: Price, i: int|
                #![trigger side_levels(a2, ts)[p2][i]]
                side_levels(a2, ts).contains_key(p2) && 0 <= i < side_levels(a2, ts)[p2].len() implies {
                    &&& a2.slots.contains_key(side_levels(a2, ts)[p2][i])
                    &&& a2.slots[side_levels(a2, ts)[p2][i]].side == ts
                    &&& a2.slots[side_levels(a2, ts)[p2][i]].price == p2
                } by {
                assert(side_levels(a, ts)[p2][i] == side_levels(a2, ts)[p2][i]);
            }
            assert forall|p2: Price, i: int|
                #![trigger side_levels(b2, ts)[p2][i]]
                side_levels(b2, ts).contains_key(p2) && 0 <= i < side_levels(b2, ts)[p2].len() implies {
                    &&& b2.slots.contains_key(side_levels(b2, ts)[p2][i])
                    &&& b2.slots[side_levels(b2, ts)[p2][i]].side == ts
                    &&& b2.slots[side_levels(b2, ts)[p2][i]].price == p2
                } by {
                assert(side_levels(b, ts)[p2][i] == side_levels(b2, ts)[p2][i]);
            }
            assert(match_inv(a2, ts)) by {
                assert forall|p2: Price| #[trigger] side_levels(a2, ms).contains_key(p2) implies side_levels(a2, ms)[p2].no_duplicates() by {
                    if !(t == maker.qty_rem && p2 == p) {
                        assert(side_levels(a2, ms)[p2] == side_levels(a, ms)[p2]);
                    }
                }
                match ts {
                    Side::Buy => {},
                    Side::Sell => {},
                }
            }
            assert(match_inv(b2, ts)) by {
                assert forall|p2: Price| #[trigger] side_levels(b2, ms).contains_key(p2) implies side_levels(b2, ms)[p2].no_duplicates() by {
                    if !(t == maker.qty_rem && p2 == p) {
                        assert(side_levels(b2, ms)[p2] == side_levels(b, ms)[p2]);
                    }
                }
                match ts {
                    Side::Buy => {},
                    Side::Sell => {},
                }
            }
            assert forall|s2: Side, p2: Price|
                #[trigger] side_levels(a2, s2).contains_key(p2) == side_levels(b2, s2).contains_key(p2) by {
                assert(side_levels(a, s2).contains_key(p2) == side_levels(b, s2).contains_key(p2));
                if t == maker.qty_rem && s2 == ms && p2 == p {
                    assert(la.drop_first().len() == lb.drop_first().len());
                }
            }
            assert forall|s2: Side, p2: Price| #[trigger] level_orders(a2, s2, p2) == level_orders(b2, s2, p2) by {
                assert(level_orders(a, s2, p2) == level_orders(b, s2, p2));
                assert(side_levels(a, s2).contains_key(p2) == side_levels(b, s2).contains_key(p2));
                if side_levels(a2, s2).contains_key(p2) {
                    let qa = side_levels(a2, s2)[p2];
                    let qb = side_levels(b2, s2)[p2];
                    if s2 == ms && p2 == p {
                        if t == maker.qty_rem {
                            assert(qa == la.drop_first());
                            assert(qb == lb.drop_first());
                            assert forall|i: int| 0 <= i < qa.len() implies #[trigger] qa[i] != ka && a2.slots[qa[i]] == a.slots[qa[i]] by {
                                assert(qa[i] == la[i + 1]);
                                assert(a.slots.contains_key(la[i + 1]));
                            }
                            assert forall|i: int| 0 <= i < qb.len() implies #[trigger] qb[i] != kb && b2.slots[qb[i]] == b.slots[qb[i]] by {
                                assert(qb[i] == lb[i + 1]);
                                assert(b.slots.contains_key(lb[i + 1]));
                            }
                            lemma_orders_frame(qa, a2.slots, a.slots, ka);
                            lemma_orders_frame(qb, b2.slots, b.slots, kb);
                            assert(qa.map_values(|j: usize| a.slots[j]) =~= la.map_values(|j: usize| a.slots[j]).drop_first());
                            assert(qb.map_values(|j: usize| b.slots[j]) =~= lb.map_values(|j: usize| b.slots[j]).drop_first());
                        } else {
                            assert(qa == la && qb == lb);
                            assert(qa.map_values(|j: usize| a2.slots[j]) =~= la.map_values(|j: usize| a.slots[j]).update(0, a2.slots[ka]));
                            assert(qb.map_values(|j: usize| b2.slots[j]) =~= lb.map_values(|j: usize| b.slots[j]).update(0, b2.slots[kb]));
                        }
                    } else {
                        assert(side_levels(a, s2).contains_key(p2));
                        assert(qa == side_levels(a, s2)[p2]);
                        assert(qb == side_levels(b, s2)[p2]);
                        assert forall|i: int| 0 <= i < qa.len() implies #[trigger] qa[i] != ka && a2.slots[qa[i]] == a.slots[qa[i]] by {
                            assert(side_levels(a, s2)[p2][i] == qa[i]);
                            assert(a.slots.contains_key(qa[i]));
                        }
                        assert forall|i: int| 0 <= i < qb.len() implies #[trigger] qb[i] != kb && b2.slots[qb[i]] == b.slots[qb[i]] by {
                            assert(side_levels(b, s2)[p2][i] == qb[i]);
                            assert(b.slots.contains_key(qb[i]));
                        }
                        lemma_orders_frame(qa, a2.slots, a.slots, ka);
                        lemma_orders_frame(qb, b2.slots, b.slots, kb);
                    }
                }
            }
        }
    } else {
        assert forall|p: Price| !is_best(side_levels(b, ms), ms, p) by {}
    }
}

proof fn lemma_alike_match(a: BookModel, b: BookModel, ts: Side, taker_id: OrderId, tp: Price, q: int)
    requires
        match_inv(a, ts),
        match_inv(b, ts),
        books_alike(a, b),
    ensures
        match_result(a, ts, taker_id, tp, q).0 == match_result(b, ts, taker_id, tp, q).0,
        books_alike(match_result(a, ts, taker_id, tp, q).1, match_result(b, ts, taker_id, tp, q).1),
    decreases q,
{
    lemma_alike_step(a, b, ts, taker_id, tp, q);
    match match_step(a, ts, taker_id, tp, q) {
        None => {},
        Some((f, a2)) => {
            let (fb, b2) = match_step(b, ts, taker_id, tp, q).unwrap();
            if 0 < f.qty <= q {
                lemma_alike_match(a2, b2, ts, taker_id, tp, q - f.qty);
            }
        },
    }
}

/// Matching cannot tell apart two books with the same levels holding the same
/// orders in the same time priority: it gives the same fills and leaves two
/// such books again. So a book restored from a snapshot trades as the book
/// the snapshot was taken of, for any taker, call after call.
pub proof fn lemma_alike_books_match_alike(a: BookModel, b: BookModel, ts: Side, taker_id: OrderId, tp: Price, q: int)
    requires
        model_wf(a),
        model_wf(b),
        books_alike(a, b),
    ensures
        match_result(a, ts, taker_id, tp, q).0 == match_result(b, ts, taker_id, tp, q).0,
        books_alike(match_result(a, ts, taker_id, tp, q).1, match_result(b, ts, taker_id, tp, q).1),
{
    lemma_match_inv_of_wf(a, ts);
    lemma_match_inv_of_wf(b, ts);
    lemma_alike_match(a, b, ts, taker_id, tp, q);
}

/// Taking an order off a well-formed book adds no level to either side, so an
/// uncrossed book stays uncrossed.
pub proof fn lemma_remove_keeps_uncrossed(m: BookModel, k: usize)
    requires
        model_wf(m),
        m.slots.contains_key(k),
        uncrossed(m),
    ensures
        uncrossed(remove_slot(m, k)),
        remove_slot(m, k).bids.dom().subset_of(m.bids.dom()),
        remove_slot(m, k).asks.dom().subset_of(m.asks.dom()),
{
    let o = m.slots[k];
    assert(side_levels(m, o.side).contains_key(o.price));
}

/// When a taker of side `ts` at `px` meets no crossing level on the other side,
/// resting it on the taker's side keeps an uncrossed book uncrossed.
pub(crate) proof fn lemma_rest_keeps_uncrossed(m: BookModel, o: Order, k: usize)
    requires
        uncrossed(m),
        forall|p: Price|
            #[trigger] side_levels(m, crate::types::spec_opposite(o.side)).contains_key(p) ==> !crosses(
                o.side,
                o.price,
                p,
            ),
    ensures
        uncrossed(rest_order(m, o, k)),
{
    let t = rest_order(m, o, k);
    assert forall|b: Price, a: Price| #[trigger] t.bids.contains_key(b) && #[trigger] t.asks.contains_key(a) implies b
        < a by {
        match o.side {
            Side::Buy => {
                assert(t.asks == m.asks);
                if b != o.price {
                    assert(m.bids.contains_key(b));
                } else {
                    assert(side_levels(m, Side::Sell).contains_key(a));
                }
            },
            Side::Sell => {
                assert(t.bids == m.bids);
                if a != o.price {
                    assert(m.asks.contains_key(a));
                } else {
                    assert(side_levels(m, Side::Buy).contains_key(b));
                }
            },
        }
    }
}

/// One matching step touches only the opposite side: the levels of the taker's
/// own side and their quantities stay as they were.
proof fn lemma_match_step_keeps_side(m: BookModel, ts: Side, taker_id: OrderId, tp: Price, q: int, p: Price)
    requires
        model_wf(m),
        match_step(m, ts, taker_id, tp, q) is Some,
    ensures
        side_levels(match_step(m, ts, taker_id, tp, q).unwrap().1, ts) == side_levels(m, ts),
        level_qty(match_step(m, ts, taker_id, tp, q).unwrap().1, ts, p) == level_qty(m, ts, p),
{
    let ms = crate::types::spec_opposite(ts);
    let bp = best_price(m, ms).unwrap();
    let c = choose|x: Price| is_best(side_levels(m, ms), ms, x);
    assert(is_best(side_levels(m, ms), ms, c));
    assert(side_levels(m, ms).contains_key(bp));
    let lvl = side_levels(m, ms)[bp];
    let k = lvl[0];
    assert(m.slots.contains_key(k) && m.slots[k].side == ms);
    let m2 = match_step(m, ts, taker_id, tp, q).unwrap().1;
    assert(side_levels(m2, ts) == side_levels(m, ts));
    assert(forall|j: usize| j != k ==> #[trigger] m2.slots.contains_key(j) == m.slots.contains_key(j));
    assert(forall|j: usize| j != k && m.slots.contains_key(j) ==> #[trigger] m2.slots[j] == m.slots[j]);
    if side_levels(m, ts).contains_key(p) {
        let lq = side_levels(m, ts)[p];
        assert forall|i: int| 0 <= i < lq.len() implies m.slots[#[trigger] lq[i]].qty_rem == m2.slots[lq[i]].qty_rem by {
            assert(m.slots.contains_key(lq[i]) && m.slots[lq[i]].side == ts);
            assert(lq[i] != k);
        }
        lemma_slots_qty_agree(lq, m.slots, m2.slots);
    }
}




/// Total remaining quantity of the orders of side `s` at price `p` among `orders`.
pub open spec fn listed_qty(orders: Seq<Order>, s: Side, p: Price) -> int
    decreases orders.len(),
{
    if orders.len() == 0 {
        0
    } else {
        listed_qty(orders.drop_last(), s, p) + if orders.last().side == s && orders.last().price == p {
            orders.last().qty_rem as int
        } else {
            0
        }
    }
}


/// Resting `o` in a vacant slot keeps both sides sound and adds its quantity
/// to its own level only.
proof fn lemma_rest_order_levels(mid: BookModel, o: Order, k: usize)
    requires
        side_sound(mid, Side::Buy),
        side_sound(mid, Side::Sell),
        !mid.slots.contains_key(k),
    ensures
        side_sound(rest_order(mid, o, k), Side::Buy),
        side_sound(rest_order(mid, o, k), Side::Sell),
        forall|s: Side, p: Price|
            #[trigger] level_qty(rest_order(mid, o, k), s, p) == level_qty(mid, s, p) + if o.side == s && o.price
                == p {
                o.qty_rem as int
            } else {
                0
            },
{
    let t = rest_order(mid, o, k);
    let lv = side_levels(mid, o.side);
    let q0 = if lv.contains_key(o.price) {
        lv[o.price]
    } else {
        Seq::<usize>::empty()
    };
    assert forall|s: Side| side_sound(t, s) by {
        assert forall|p: Price, i: int|
            #![trigger side_levels(t, s)[p][i]]
            side_levels(t, s).contains_key(p) && 0 <= i < side_levels(t, s)[p].len() implies {
                &&& t.slots.contains_key(side_levels(t, s)[p][i])
                &&& t.slots[side_levels(t, s)[p][i]].side == s
                &&& t.slots[side_levels(t, s)[p][i]].price == p
            } by {
            let x = side_levels(t, s)[p][i];
            if s == o.side && p == o.price {
                if i < q0.len() {
                    assert(q0.push(k)[i] == q0[i]);
                    assert(side_levels(mid, s)[p][i] == x);
                    assert(mid.slots.contains_key(x));
                } else {
                    assert(x == k);
                }
            } else {
                assert(side_levels(t, s)[p] == side_levels(mid, s)[p]);
                assert(side_levels(mid, s)[p][i] == x);
                assert(mid.slots.contains_key(x));
            }
        }
    }
    assert forall|s: Side, p: Price|
        #[trigger] level_qty(t, s, p) == level_qty(mid, s, p) + if o.side == s && o.price == p {
            o.qty_rem as int
        } else {
            0
        } by {
        let q = if side_levels(mid, s).contains_key(p) {
            side_levels(mid, s)[p]
        } else {
            Seq::<usize>::empty()
        };
        assert forall|i: int| 0 <= i < q.len() implies mid.slots[#[trigger] q[i]].qty_rem == t.slots[q[i]].qty_rem by {
            assert(side_levels(mid, s)[p][i] == q[i]);
            assert(mid.slots.contains_key(q[i]));
        }
        lemma_slots_qty_agree(q, mid.slots, t.slots);
        if s == o.side && p == o.price {
            lemma_slots_qty_push(q, k, t.slots);
        } else if side_levels(mid, s).contains_key(p) {
            assert(side_levels(t, s)[p] == q);
        }
    }
}

/// Resting a list of orders on an empty book gives every price the listed
/// quantity of its orders.
proof fn lemma_rests_all_levels(m0: BookModel, r: Seq<Order>, t: BookModel)
    requires
        m0 == empty_book(m0.symbol_id),
        rests_all(m0, r, t),
    ensures
        side_sound(t, Side::Buy),
        side_sound(t, Side::Sell),
        forall|s: Side, p: Price| #[trigger] level_qty(t, s, p) == listed_qty(r, s, p),
    decreases r.len(),
{
    if r.len() == 0 {
        assert(side_levels(t, Side::Buy).dom() =~= Set::<Price>::empty());
        assert(side_levels(t, Side::Sell).dom() =~= Set::<Price>::empty());
    } else {
        let (mid, k) = choose|mid: BookModel, k: usize|
            #[trigger] rest_order(mid, r.last(), k) == t && !mid.slots.contains_key(k) && rests_all(
                m0,
                r.drop_last(),
                mid,
            );
        lemma_rests_all_levels(m0, r.drop_last(), mid);
        lemma_rest_order_levels(mid, r.last(), k);
        assert forall|s: Side, p: Price| #[trigger] level_qty(t, s, p) == listed_qty(r, s, p) by {
            assert(level_qty(mid, s, p) == listed_qty(r.drop_last(), s, p));
            assert(level_qty(rest_order(mid, r.last(), k), s, p) == level_qty(mid, s, p) + if r.last().side == s
                && r.last().price == p {
                r.last().qty_rem as int
            } else {
                0
            });
        }
    }
}

/// In a well-formed book, a price has a level exactly when orders rest there.
proof fn lemma_level_iff_qty(m: BookModel, s: Side, p: Price)
    requires
        model_wf(m),
    ensures
        side_levels(m, s).contains_key(p) <==> level_qty(m, s, p) > 0,
{
}

/// Two well-formed books with the same quantity at every price show the same
/// top of book on a side.
proof fn lemma_same_levels_same_top(a: BookModel, b: BookModel, s: Side)
    requires
        model_wf(a),
        model_wf(b),
        forall|p: Price| #[trigger] level_qty(a, s, p) == level_qty(b, s, p),
    ensures
        spec_top(a, s) == spec_top(b, s),
{
    assert forall|p: Price|
        #![trigger side_levels(a, s).contains_key(p)]
        #![trigger side_levels(b, s).contains_key(p)]
        side_levels(a, s).contains_key(p) == side_levels(b, s).contains_key(p) by {
        lemma_level_iff_qty(a, s, p);
        lemma_level_iff_qty(b, s, p);
        assert(level_qty(a, s, p) == level_qty(b, s, p));
    }
    if exists|p: Price| is_best(side_levels(a, s), s, p) {
        let p = choose|p: Price| is_best(side_levels(a, s), s, p);
        assert(is_best(side_levels(b, s), s, p));
        lemma_best_is_unique(side_levels(a, s), s, p);
        lemma_best_is_unique(side_levels(b, s), s, p);
        assert(level_qty(a, s, p) == level_qty(b, s, p));
    } else {
        assert forall|p: Price| !is_best(side_levels(b, s), s, p) by {
            if is_best(side_levels(b, s), s, p) {
                assert(is_best(side_levels(a, s), s, p));
            }
        }
    }
}


proof fn lemma_listed_qty_prefix(r: Seq<Order>, j: int, s: Side, p: Price)
    requires
        0 <= j <= r.len(),
        forall|i: int| 0 <= i < r.len() ==> #[trigger] r[i].qty_rem >= 0,
    ensures
        listed_qty(r.take(j), s, p) <= listed_qty(r, s, p),
    decreases r.len(),
{
    if j < r.len() {
        assert(r.drop_last().take(j) =~= r.take(j));
        assert forall|i: int| 0 <= i < r.drop_last().len() implies #[trigger] r.drop_last()[i].qty_rem >= 0 by {
            assert(r.drop_last()[i] == r[i]);
        }
        lemma_listed_qty_prefix(r.drop_last(), j, s, p);
        assert(r.last() == r[r.len() - 1]);
    } else {
        assert(r.take(j) =~= r);
    }
}


/// The orders queued at price `p` of the side of `s`, front first (none
/// without a level).
pub open spec fn level_orders(m: BookModel, s: Side, p: Price) -> Seq<Order> {
    if side_levels(m, s).contains_key(p) {
        side_levels(m, s)[p].map_values(|k: usize| m.slots[k])
    } else {
        Seq::empty()
    }
}

/// The orders of the levels `keys` of `m`, level after level, each level's
/// queue front first.
pub open spec fn levels_listing(m: BookModel, keys: Seq<(Side, Price)>) -> Seq<Order>
    decreases keys.len(),
{
    if keys.len() == 0 {
        Seq::empty()
    } else {
        levels_listing(m, keys.drop_last()) + level_orders(m, keys.last().0, keys.last().1)
    }
}

/// `r` lists the live orders of `m` level by level, every level once, each
/// level's queue in time priority.
pub open spec fn is_queue_listing(m: BookModel, r: Seq<Order>) -> bool {
    exists|keys: Seq<(Side, Price)>|
        {
            &&& keys.no_duplicates()
            &&& forall|s: Side, p: Price| #[trigger] keys.contains((s, p)) <==> side_levels(m, s).contains_key(p)
            &&& r == levels_listing(m, keys)
        }
}

/// The orders of side `s` at price `p` among `r`, in the order of `r`.
pub open spec fn orders_at(r: Seq<Order>, s: Side, p: Price) -> Seq<Order>
    decreases r.len(),
{
    if r.len() == 0 {
        Seq::empty()
    } else if r.last().side == s && r.last().price == p {
        orders_at(r.drop_last(), s, p).push(r.last())
    } else {
        orders_at(r.drop_last(), s, p)
    }
}

/// Total remaining quantity of `r`.
pub open spec fn orders_qty(r: Seq<Order>) -> int
    decreases r.len(),
{
    if r.len() == 0 {
        0
    } else {
        orders_qty(r.drop_last()) + r.last().qty_rem
    }
}

proof fn lemma_orders_at_concat(a: Seq<Order>, b: Seq<Order>, s: Side, p: Price)
    ensures
        orders_at(a + b, s, p) == orders_at(a, s, p) + orders_at(b, s, p),
    decreases b.len(),
{
    if b.len() == 0 {
        assert(a + b =~= a);
        assert(orders_at(a, s, p) + Seq::<Order>::empty() =~= orders_at(a, s, p));
    } else {
        assert((a + b).drop_last() =~= a + b.drop_last());
        assert((a + b).last() == b.last());
        lemma_orders_at_concat(a, b.drop_last(), s, p);
        if b.last().side == s && b.last().price == p {
            assert(orders_at(a, s, p) + orders_at(b.drop_last(), s, p).push(b.last()) =~= (orders_at(a, s, p)
                + orders_at(b.drop_last(), s, p)).push(b.last()));
        }
    }
}

proof fn lemma_orders_at_uniform(x: Seq<Order>, s0: Side, p0: Price, s: Side, p: Price)
    requires
        forall|i: int| 0 <= i < x.len() ==> #[trigger] x[i].side == s0 && x[i].price == p0,
    ensures
        orders_at(x, s, p) == (if s0 == s && p0 == p {
            x
        } else {
            Seq::<Order>::empty()
        }),
    decreases x.len(),
{
    if x.len() > 0 {
        assert forall|i: int| 0 <= i < x.drop_last().len() implies #[trigger] x.drop_last()[i].side == s0
            && x.drop_last()[i].price == p0 by {
            assert(x.drop_last()[i] == x[i]);
        }
        lemma_orders_at_uniform(x.drop_last(), s0, p0, s, p);
        assert(x.last() == x[x.len() - 1]);
        if s0 == s && p0 == p {
            assert(x.drop_last().push(x.last()) =~= x);
        }
    }
}

/// Picking one level out of a level-by-level listing gives that level's queue.
proof fn lemma_listing_level(m: BookModel, keys: Seq<(Side, Price)>, s: Side, p: Price)
    requires
        model_wf(m),
        keys.no_duplicates(),
    ensures
        orders_at(levels_listing(m, keys), s, p) == (if keys.contains((s, p)) {
            level_orders(m, s, p)
        } else {
            Seq::<Order>::empty()
        }),
    decreases keys.len(),
{
    if keys.len() > 0 {
        let ks = keys.drop_last();
        let (s0, p0) = keys.last();
        assert(ks.no_duplicates()) by {
            assert forall|a: int, b: int| 0 <= a < b < ks.len() implies ks[a] != ks[b] by {
                assert(ks[a] == keys[a] && ks[b] == keys[b]);
            }
        }
        lemma_listing_level(m, ks, s, p);
        let x = level_orders(m, s0, p0);
        assert forall|i: int| 0 <= i < x.len() implies #[trigger] x[i].side == s0 && x[i].price == p0 by {
            let q = side_levels(m, s0)[p0];
            assert(side_levels(m, s0).contains_key(p0));
            assert(m.slots.contains_key(q[i]));
        }
        lemma_orders_at_uniform(x, s0, p0, s, p);
        lemma_orders_at_concat(levels_listing(m, ks), x, s, p);
        assert(keys.last() == keys[keys.len() - 1]);
        if keys.contains((s, p)) {
            let j = choose|j: int| 0 <= j < keys.len() && keys[j] == (s, p);
            if j < keys.len() - 1 {
                assert(ks[j] == (s, p));
                assert(ks.contains((s, p)));
            }
        }
        if ks.contains((s, p)) {
            let j = choose|j: int| 0 <= j < ks.len() && ks[j] == (s, p);
            assert(keys[j] == (s, p));
            assert(keys.contains((s, p)));
            assert((s0, p0) != (s, p));
            assert(levels_listing(m, ks) == levels_listing(m, keys.drop_last()));
            assert(level_orders(m, s, p) + Seq::<Order>::empty() =~= level_orders(m, s, p));
        } else if (s0, p0) == (s, p) {
            assert(keys.contains((s, p))) by {
                assert(keys[keys.len() - 1] == (s, p));
            }
            assert(Seq::<Order>::empty() + level_orders(m, s, p) =~= level_orders(m, s, p));
        } else {
            assert(!keys.contains((s, p))) by {
                if keys.contains((s, p)) {
                    let j = choose|j: int| 0 <= j < keys.len() && keys[j] == (s, p);
                    if j < keys.len() - 1 {
                        assert(ks[j] == (s, p));
                    }
                }
            }
            assert(Seq::<Order>::empty() + Seq::<Order>::empty() =~= Seq::<Order>::empty());
        }
    }
}

/// Every order of a level-by-level listing has quantity left and rests at a
/// level of its side and price.
proof fn lemma_listing_members(m: BookModel, keys: Seq<(Side, Price)>)
    requires
        model_wf(m),
    ensures
        forall|j: int|
            0 <= j < levels_listing(m, keys).len() ==> {
                let o = #[trigger] levels_listing(m, keys)[j];
                &&& o.qty_rem > 0
                &&& side_levels(m, o.side).contains_key(o.price)
            },
    decreases keys.len(),
{
    if keys.len() > 0 {
        let ks = keys.drop_last();
        let (s0, p0) = keys.last();
        lemma_listing_members(m, ks);
        let a = levels_listing(m, ks);
        let x = level_orders(m, s0, p0);
        assert forall|j: int| 0 <= j < levels_listing(m, keys).len() implies {
            let o = #[trigger] levels_listing(m, keys)[j];
            &&& o.qty_rem > 0
            &&& side_levels(m, o.side).contains_key(o.price)
        } by {
            if j < a.len() {
                assert(levels_listing(m, keys)[j] == a[j]);
            } else {
                assert(levels_listing(m, keys)[j] == x[j - a.len()]);
                let q = side_levels(m, s0)[p0];
                assert(side_levels(m, s0).contains_key(p0));
                assert(m.slots.contains_key(q[j - a.len()]));
            }
        }
    }
}

/// The aggregate quantity at a price is the total of the orders queued there.
proof fn lemma_level_qty_orders(m: BookModel, s: Side, p: Price)
    ensures
        level_qty(m, s, p) == orders_qty(level_orders(m, s, p)),
{
    if side_levels(m, s).contains_key(p) {
        lemma_slots_qty_orders(side_levels(m, s)[p], m.slots);
    }
}

proof fn lemma_slots_qty_orders(q: Seq<usize>, slots: Map<usize, Order>)
    ensures
        slots_qty(q, slots) == orders_qty(q.map_values(|k: usize| slots[k])),
    decreases q.len(),
{
    if q.len() > 0 {
        let q0 = q.drop_last();
        lemma_slots_qty_orders(q0, slots);
        lemma_slots_qty_push(q0, q.last(), slots);
        assert(q0.push(q.last()) =~= q);
        assert(q.map_values(|k: usize| slots[k]).drop_last() =~= q0.map_values(|k: usize| slots[k]));
    }
}

proof fn lemma_listed_qty_orders(r: Seq<Order>, s: Side, p: Price)
    ensures
        listed_qty(r, s, p) == orders_qty(orders_at(r, s, p)),
    decreases r.len(),
{
    if r.len() > 0 {
        lemma_listed_qty_orders(r.drop_last(), s, p);
        if r.last().side == s && r.last().price == p {
            let x = orders_at(r.drop_last(), s, p).push(r.last());
            assert(x.drop_last() =~= orders_at(r.drop_last(), s, p));
        }
    }
}

/// Resting `o` in a vacant slot puts it at the back of its level's queue and
/// leaves every other queue as it was.
proof fn lemma_rest_order_queues(mid: BookModel, o: Order, k: usize)
    requires
        side_sound(mid, Side::Buy),
        side_sound(mid, Side::Sell),
        !mid.slots.contains_key(k),
    ensures
        forall|s: Side, p: Price|
            #[trigger] level_orders(rest_order(mid, o, k), s, p) == if o.side == s && o.price == p {
                level_orders(mid, s, p).push(o)
            } else {
                level_orders(mid, s, p)
            },
{
    let t = rest_order(mid, o, k);
    assert forall|s: Side, p: Price|
        #[trigger] level_orders(t, s, p) == if o.side == s && o.price == p {
            level_orders(mid, s, p).push(o)
        } else {
            level_orders(mid, s, p)
        } by {
        let q = if side_levels(mid, s).contains_key(p) {
            side_levels(mid, s)[p]
        } else {
            Seq::<usize>::empty()
        };
        assert forall|i: int| 0 <= i < q.len() implies t.slots[#[trigger] q[i]] == mid.slots[q[i]] by {
            assert(side_levels(mid, s)[p][i] == q[i]);
            assert(mid.slots.contains_key(q[i]));
        }
        if s == o.side && p == o.price {
            assert(side_levels(t, s)[p] == q.push(k));
            assert(q.push(k).map_values(|x: usize| t.slots[x]) =~= q.map_values(|x: usize| mid.slots[x]).push(o));
        } else if side_levels(mid, s).contains_key(p) {
            assert(side_levels(t, s)[p] == q);
            assert(q.map_values(|x: usize| t.slots[x]) =~= q.map_values(|x: usize| mid.slots[x]));
        } else {
            assert(!side_levels(t, s).contains_key(p));
        }
    }
}

/// Resting a list of orders on an empty book gives each level the orders of
/// its side and price, in list order; every level holds at least one.
proof fn lemma_rests_all_queues(m0: BookModel, r: Seq<Order>, t: BookModel)
    requires
        m0 == empty_book(m0.symbol_id),
        rests_all(m0, r, t),
    ensures
        side_sound(t, Side::Buy),
        side_sound(t, Side::Sell),
        forall|s: Side, p: Price| #[trigger] level_orders(t, s, p) == orders_at(r, s, p),
        forall|s: Side, p: Price| #[trigger] side_levels(t, s).contains_key(p) ==> side_levels(t, s)[p].len() > 0,
    decreases r.len(),
{
    if r.len() == 0 {
        assert(side_levels(t, Side::Buy).dom() =~= Set::<Price>::empty());
        assert(side_levels(t, Side::Sell).dom() =~= Set::<Price>::empty());
    } else {
        let (mid, k) = choose|mid: BookModel, k: usize|
            #[trigger] rest_order(mid, r.last(), k) == t && !mid.slots.contains_key(k) && rests_all(
                m0,
                r.drop_last(),
                mid,
            );
        lemma_rests_all_queues(m0, r.drop_last(), mid);
        lemma_rest_order_levels(mid, r.last(), k);
        lemma_rest_order_queues(mid, r.last(), k);
        assert forall|s: Side, p: Price| #[trigger] level_orders(t, s, p) == orders_at(r, s, p) by {
            assert(level_orders(mid, s, p) == orders_at(r.drop_last(), s, p));
        }
        assert forall|s: Side, p: Price| #[trigger] side_levels(t, s).contains_key(p) implies side_levels(t, s)[p].len()
            > 0 by {
            if !(s == r.last().side && p == r.last().price) {
                assert(side_levels(t, s)[p] == side_levels(mid, s)[p]);
            }
        }
    }
}

/// Restoring a book from its live orders listed level by level gives back the
/// same book as its users see it: every level of both sides with the same
/// orders in the same time priority, so the same quantity at every price, the
/// same best bid and best ask, and (`lemma_alike_books_match_alike`) the same
/// fills for any later taker.
pub proof fn lemma_snapshot_restores_queues(m: BookModel, listing: Seq<Order>, t: BookModel)
    requires
        model_wf(m),
        model_wf(t),
        is_queue_listing(m, listing),
        rests_all(empty_book(m.symbol_id), listing, t),
    ensures
        forall|s: Side, p: Price|
            #[trigger] side_levels(t, s).contains_key(p) == side_levels(m, s).contains_key(p),
        forall|s: Side, p: Price| #[trigger] level_orders(t, s, p) == level_orders(m, s, p),
        forall|s: Side, p: Price| #[trigger] level_qty(t, s, p) == level_qty(m, s, p),
        spec_top(t, Side::Buy) == spec_top(m, Side::Buy),
        spec_top(t, Side::Sell) == spec_top(m, Side::Sell),
        books_alike(t, m),
{
    let keys = choose|keys: Seq<(Side, Price)>|
        {
            &&& keys.no_duplicates()
            &&& forall|s: Side, p: Price| #[trigger] keys.contains((s, p)) <==> side_levels(m, s).contains_key(p)
            &&& listing == levels_listing(m, keys)
        };
    lemma_rests_all_queues(empty_book(m.symbol_id), listing, t);
    assert forall|s: Side, p: Price| #[trigger] level_orders(t, s, p) == level_orders(m, s, p) by {
        lemma_listing_level(m, keys, s, p);
        assert(keys.contains((s, p)) <==> side_levels(m, s).contains_key(p));
    }
    assert forall|s: Side, p: Price|
        #[trigger] side_levels(t, s).contains_key(p) == side_levels(m, s).contains_key(p) by {
        assert(level_orders(t, s, p) == level_orders(m, s, p));
        if side_levels(t, s).contains_key(p) {
            assert(level_orders(t, s, p).len() > 0);
        }
        if side_levels(m, s).contains_key(p) {
            assert(level_orders(m, s, p).len() > 0);
        }
    }
    assert forall|s: Side, p: Price| #[trigger] level_qty(t, s, p) == level_qty(m, s, p) by {
        lemma_level_qty_orders(t, s, p);
        lemma_level_qty_orders(m, s, p);
        assert(level_orders(t, s, p) == level_orders(m, s, p));
    }
    lemma_same_levels_same_top(t, m, Side::Buy);
    lemma_same_levels_same_top(t, m, Side::Sell);
}

/// Restoring a book from its live orders listed level by level never meets
/// an order that cannot rest: whatever prefix is restored, the next listed
/// order fits.
pub proof fn lemma_snapshot_restore_fits(m: BookModel, listing: Seq<Order>, i: int, t: BookModel)
    requires
        model_wf(m),
        is_queue_listing(m, listing),
        0 <= i < listing.len(),
        rests_all(empty_book(m.symbol_id), listing.take(i), t),
    ensures
        can_rest(t, listing[i]),
{
    let keys = choose|keys: Seq<(Side, Price)>|
        {
            &&& keys.no_duplicates()
            &&& forall|s: Side, p: Price| #[trigger] keys.contains((s, p)) <==> side_levels(m, s).contains_key(p)
            &&& listing == levels_listing(m, keys)
        };
    let o = listing[i];
    lemma_listing_members(m, keys);
    assert(o.qty_rem > 0 && side_levels(m, o.side).contains_key(o.price));
    assert forall|j: int| 0 <= j < listing.len() implies #[trigger] listing[j].qty_rem >= 0 by {
        assert(levels_listing(m, keys)[j] == listing[j]);
    }
    lemma_rests_all_levels(empty_book(m.symbol_id), listing.take(i), t);
    assert(level_qty(t, o.side, o.price) == listed_qty(listing.take(i), o.side, o.price));
    assert(listing.take(i + 1).drop_last() =~= listing.take(i));
    assert(listing.take(i + 1).last() == o);
    lemma_listed_qty_prefix(listing, i + 1, o.side, o.price);
    lemma_listed_qty_orders(listing, o.side, o.price);
    lemma_listing_level(m, keys, o.side, o.price);
    assert(keys.contains((o.side, o.price)));
    lemma_level_qty_orders(m, o.side, o.price);
}

/// A successful cancel as a user sees it: the order is gone, every other
/// order is found as before, one order fewer is live, and the level of the
/// order loses exactly its remaining quantity while every other level keeps
/// its quantity.
pub proof fn lemma_cancel_observed(m: BookModel, order_id: OrderId, account_id: AccountId)
    requires
        model_wf(m),
        m.index.dom().finite(),
        can_cancel(m, order_id, account_id),
    ensures
        ({
            let k = m.index[order_id];
            let o = m.slots[k];
            let t = remove_slot(m, k);
            &&& indexed_order(t, order_id) is None
            &&& forall|id: OrderId| id != order_id ==> #[trigger] indexed_order(t, id) == indexed_order(m, id)
            &&& t.index.len() == m.index.len() - 1
            &&& forall|s: Side, p: Price|
                #[trigger] level_qty(t, s, p) == level_qty(m, s, p) - if s == o.side && p == o.price {
                    o.qty_rem as int
                } else {
                    0
                }
        }),
{
    let k = m.index[order_id];
    let o = m.slots[k];
    let t = remove_slot(m, k);
    assert(m.slots.contains_key(k));
    assert forall|id: OrderId| id != order_id implies #[trigger] indexed_order(t, id) == indexed_order(m, id) by {
        if m.index.contains_key(id) {
            assert(m.slots.contains_key(m.index[id]));
            assert(m.index[id] != k);
        }
    }
    assert forall|s: Side, p: Price|
        #[trigger] level_qty(t, s, p) == level_qty(m, s, p) - if s == o.side && p == o.price {
            o.qty_rem as int
        } else {
            0
        } by {
        if side_levels(m, s).contains_key(p) {
            let q = side_levels(m, s)[p];
            if s == o.side && p == o.price {
                let rest = seq_without(q, k);
                assert(q.contains(k));
                lemma_slots_qty_without(q, k, m.slots);
                assert forall|i: int| 0 <= i < rest.len() implies m.slots[#[trigger] rest[i]].qty_rem == t.slots[rest[i]].qty_rem by {
                    assert(rest.contains(rest[i]));
                    lemma_without_contains(q, k, rest[i]);
                }
                lemma_slots_qty_agree(rest, m.slots, t.slots);
                if rest.len() == 0 {
                    assert(slots_qty(rest, m.slots) == 0);
                }
            } else {
                assert(side_levels(t, s)[p] == q);
                assert forall|i: int| 0 <= i < q.len() implies m.slots[#[trigger] q[i]].qty_rem == t.slots[q[i]].qty_rem by {
                    assert(m.slots.contains_key(q[i]));
                    assert(q[i] != k);
                }
                lemma_slots_qty_agree(q, m.slots, t.slots);
            }
        } else {
            assert(!(s == o.side && p == o.price));
        }
    }
}

/// A successful replace as a user sees it: the order is found again with its
/// new price and quantity and everything else as it was, queued last at its
/// new price; every other order is found as before, and as many orders are
/// live as before.
pub proof fn lemma_replace_observed(
    m: BookModel,
    order_id: OrderId,
    account_id: AccountId,
    new_price: Price,
    new_qty: Qty,
    k2: usize,
)
    requires
        model_wf(m),
        m.index.dom().finite(),
        can_cancel(m, order_id, account_id),
        !remove_slot(m, m.index[order_id]).slots.contains_key(k2),
    ensures
        ({
            let k = m.index[order_id];
            let o = m.slots[k];
            let o2 = Order { price: new_price, qty_rem: new_qty, ..o };
            let t = rest_order(remove_slot(m, k), o2, k2);
            &&& indexed_order(t, order_id) == Some(o2)
            &&& forall|id: OrderId| id != order_id ==> #[trigger] indexed_order(t, id) == indexed_order(m, id)
            &&& t.index.len() == m.index.len()
            &&& side_levels(t, o.side).contains_key(new_price)
            &&& side_levels(t, o.side)[new_price].last() == k2
        }),
{
    let k = m.index[order_id];
    let o = m.slots[k];
    let m1 = remove_slot(m, k);
    lemma_cancel_observed(m, order_id, account_id);
    assert forall|id: OrderId| id != order_id && #[trigger] m1.index.contains_key(id) implies m1.index[id] != k2 by {
        assert(m.slots.contains_key(m.index[id]));
        assert(m.index[id] != k);
    }
    assert(m1.index.insert(order_id, k2).dom() =~= m.index.dom());
}

/// Matching changes the orders of a book, never the symbol it trades.
pub proof fn lemma_match_keeps_symbol(m: BookModel, ts: Side, taker_id: OrderId, tp: Price, q: int)
    ensures
        match_result(m, ts, taker_id, tp, q).1.symbol_id == m.symbol_id,
    decreases q,
{
    match match_step(m, ts, taker_id, tp, q) {
        None => {},
        Some((f, m2)) => {
            if 0 < f.qty <= q {
                lemma_match_keeps_symbol(m2, ts, taker_id, tp, q - f.qty);
            }
        },
    }
}

/// A taker whose limit does not cross the best opposite price (or that meets an
/// empty opposite side) gets no fill and leaves the book unchanged.
pub proof fn lemma_no_cross_no_fill(m: BookModel, ts: Side, taker_id: OrderId, tp: Price, q: int)
    requires
        match best_price(m, crate::types::spec_opposite(ts)) {
            Some(p) => !crosses(ts, tp, p),
            None => true,
        },
    ensures
        match_result(m, ts, taker_id, tp, q) == (Seq::<MatchFill>::empty(), m),
{
}

/// Resting an order under an id that is not indexed and then cancelling it by
/// that id and its owner gives back the book as it was.
pub proof fn lemma_rest_then_cancel(m: BookModel, o: Order, k: usize)
    requires
        model_wf(m),
        !m.slots.contains_key(k),
        !m.index.contains_key(o.order_id),
        o.qty_rem > 0,
    ensures
        can_cancel(rest_order(m, o, k), o.order_id, o.account_id),
        remove_slot(rest_order(m, o, k), k) == m,
{
    let m1 = rest_order(m, o, k);
    let levels = side_levels(m, o.side);
    let q = if levels.contains_key(o.price) {
        levels[o.price]
    } else {
        Seq::<usize>::empty()
    };
    assert forall|i: int| 0 <= i < q.len() implies q[i] != k by {
        assert(m.slots.contains_key(q[i]));
    }
    lemma_without_absent(q, k);
    lemma_without_push(q, k);
    let m2 = remove_slot(m1, k);
    assert(m1.slots[k] == o);
    assert(m2.slots =~= m.slots);
    assert(m2.index =~= m.index);
    if levels.contains_key(o.price) {
        assert(q.len() > 0);
        assert(side_levels(m2, o.side) =~= levels);
    } else {
        assert(side_levels(m2, o.side) =~= levels);
    }
    assert(m2.bids =~= m.bids);
    assert(m2.asks =~= m.asks);
}

proof fn lemma_without_push(q: Seq<usize>, k: usize)
    ensures
        seq_without(q.push(k), k) == seq_without(q, k),
    decreases q.len(),
{
    if q.len() == 0 {
        assert(q.push(k).drop_first() =~= Seq::<usize>::empty());
        assert(q.push(k)[0] == k);
        assert(seq_without(q.push(k).drop_first(), k) == Seq::<usize>::empty());
        assert(seq_without(q.push(k), k) == seq_without(q.push(k).drop_first(), k));
    } else {
        assert(q.push(k).drop_first() =~= q.drop_first().push(k));
        assert(q.push(k)[0] == q[0]);
        lemma_without_push(q.drop_first(), k);
        if q[0] == k {
            assert(seq_without(q.push(k), k) == seq_without(q.push(k).drop_first(), k));
        } else {
            assert(seq_without(q.push(k), k) == seq![q[0]] + seq_without(q.push(k).drop_first(), k));
        }
    }
}

/// The quantity of fills grows by the quantity of each fill appended.
pub proof fn lemma_fills_qty_push(s: Seq<MatchFill>, f: MatchFill)
    ensures
        fills_qty(s.push(f)) == fills_qty(s) + f.qty,
    decreases s.len(),
{
    assert(s.push(f)[0] == if s.len() == 0 {
        f
    } else {
        s[0]
    });
    if s.len() == 0 {
        assert(s.push(f).drop_first() =~= Seq::<MatchFill>::empty());
        assert(fills_qty(s.push(f).drop_first()) == 0);
    } else {
        assert(s.push(f).drop_first() =~= s.drop_first().push(f));
        lemma_fills_qty_push(s.drop_first(), f);
    }
}

/// With positive fill quantities, there are no more fills than lots filled.
pub proof fn lemma_fills_count(s: Seq<MatchFill>)
    requires
        forall|i: int| 0 <= i < s.len() ==> #[trigger] s[i].qty > 0,
    ensures
        s.len() <= fills_qty(s),
        0 <= fills_qty(s),
    decreases s.len(),
{
    if s.len() > 0 {
        assert forall|i: int| 0 <= i < s.drop_first().len() implies #[trigger] s.drop_first()[i].qty > 0 by {
            assert(s.drop_first()[i] == s[i + 1]);
        }
        lemma_fills_count(s.drop_first());
    }
}

} // verus!
