//! The per-market order book: price levels on both sides in price order,
//! an order-id index locating each resting entry, and the last trade price.

use vstd::prelude::*;
use crate::types::{OrderSide, Order, OrderbookLevel, OrderbookSnapshot};
use crate::clock::now_unix_nanos;

verus! {

/// The book's view of one resting order.
#[derive(Clone, Debug)]
pub struct OrderEntry {
    pub order_id: u64,
    pub user_wallet: String,
    pub size: u64,
    pub filled: u64,
    /// Arrival time, used as the tie-breaker within a level.
    pub timestamp: i64,
}

/// Mathematical model of a resting entry.
#[verifier::ext_equal]
pub struct EntryM {
    pub order_id: int,
    pub wallet: Seq<char>,
    pub size: int,
    pub filled: int,
    pub timestamp: int,
}

impl View for OrderEntry {
    type V = EntryM;

    open spec fn view(&self) -> EntryM {
        EntryM {
            order_id: self.order_id as int,
            wallet: self.user_wallet@,
            size: self.size as int,
            filled: self.filled as int,
            timestamp: self.timestamp as int,
        }
    }
}

impl OrderEntry {
    pub open spec fn remaining_spec(self) -> int {
        self.size - self.filled
    }

    /// Unfilled size still resting in the book.
    pub fn remaining(&self) -> (r: u64)
        requires
            self.filled <= self.size,
        ensures
            r == self.remaining_spec(),
            r == entry_m_remaining(self@),
    {
        self.size - self.filled
    }
}

/// Unfilled size of a model entry.
pub open spec fn entry_m_remaining(e: EntryM) -> int {
    e.size - e.filled
}

/// A model entry is well-formed while it still has something to trade.
pub open spec fn entry_m_wf(e: EntryM) -> bool {
    0 <= e.filled < e.size
}

/// The FIFO queue of resting orders at one price; head is the earliest arrival.
#[derive(Debug)]
pub struct PriceLevel {
    pub price: u64,
    pub orders: Vec<OrderEntry>,
}

/// Mathematical model of a price level.
#[verifier::ext_equal]
pub struct LevelM {
    pub price: int,
    pub entries: Seq<EntryM>,
}

impl View for PriceLevel {
    type V = LevelM;

    open spec fn view(&self) -> LevelM {
        LevelM { price: self.price as int, entries: self.orders@.map_values(|e: OrderEntry| e@) }
    }
}

/// A level is well-formed when it is non-empty, every entry still has
/// remaining size, and no order identifier repeats inside it.
pub open spec fn level_m_wf(l: LevelM) -> bool {
    &&& l.entries.len() > 0
    &&& forall|i: int| 0 <= i < l.entries.len() ==> entry_m_wf(#[trigger] l.entries[i])
    &&& forall|i: int, j: int|
        #![trigger l.entries[i], l.entries[j]]
        0 <= i < j < l.entries.len() ==> l.entries[i].order_id != l.entries[j].order_id
}

/// Storage (and consumption) order of two level prices on one side:
/// bids hold the highest price first, asks the lowest.
pub open spec fn price_before(side: OrderSide, a: int, b: int) -> bool {
    match side {
        OrderSide::Buy => a > b,
        OrderSide::Sell => a < b,
    }
}

/// All levels of one side: strictly ordered by price and individually
/// well-formed.
pub open spec fn side_levels_wf(levels: Seq<LevelM>, side: OrderSide) -> bool {
    &&& forall|i: int, j: int|
        #![trigger levels[i], levels[j]]
        0 <= i < j < levels.len() ==> price_before(side, levels[i].price, levels[j].price)
    &&& forall|i: int| 0 <= i < levels.len() ==> level_m_wf(#[trigger] levels[i])
}

/// Some entry with identifier `id` rests in level `l`.
pub open spec fn level_has_id(l: LevelM, id: int) -> bool {
    exists|j: int| 0 <= j < l.entries.len() && (#[trigger] l.entries[j]).order_id == id
}

/// Some entry with identifier `id` rests at price `p` on this side.
pub open spec fn side_has_at(levels: Seq<LevelM>, id: int, p: int) -> bool {
    exists|i: int|
        0 <= i < levels.len() && (#[trigger] levels[i]).price == p && level_has_id(levels[i], id)
}

/// Some entry with identifier `id` rests somewhere on this side.
pub open spec fn side_has_id(levels: Seq<LevelM>, id: int) -> bool {
    exists|i: int| 0 <= i < levels.len() && level_has_id(#[trigger] levels[i], id)
}

/// An id-index record: where one resting order lives.
#[derive(Clone, Copy, Debug)]
pub struct OrderLocation {
    pub order_id: u64,
    pub side: OrderSide,
    pub price: u64,
}

/// The id-index as a map from order identifier to side and price.
pub open spec fn locs_map(s: Seq<OrderLocation>) -> Map<int, (OrderSide, int)>
    decreases s.len(),
{
    if s.len() == 0 {
        Map::empty()
    } else {
        locs_map(s.drop_last()).insert(
            s.last().order_id as int,
            (s.last().side, s.last().price as int),
        )
    }
}

/// No order identifier repeats in the index.
pub open spec fn locs_unique(s: Seq<OrderLocation>) -> bool {
    forall|i: int, j: int|
        #![trigger s[i], s[j]]
        0 <= i < j < s.len() ==> s[i].order_id != s[j].order_id
}

/// The keys of the index map are exactly the identifiers recorded in the
/// sequence.
pub proof fn lemma_locs_map_contains(s: Seq<OrderLocation>, id: int)
    ensures
        locs_map(s).contains_key(id) <==> exists|i: int|
            0 <= i < s.len() && (#[trigger] s[i]).order_id == id,
    decreases s.len(),
{
    if s.len() > 0 {
        lemma_locs_map_contains(s.drop_last(), id);
        if s.last().order_id == id {
            assert(s[s.len() - 1].order_id == id);
        } else {
            if locs_map(s).contains_key(id) {
                let i = choose|i: int|
                    0 <= i < s.drop_last().len() && (#[trigger] s.drop_last()[i]).order_id == id;
                assert(s[i].order_id == id);
            }
            if exists|i: int| 0 <= i < s.len() && (#[trigger] s[i]).order_id == id {
                let i = choose|i: int| 0 <= i < s.len() && (#[trigger] s[i]).order_id == id;
                assert(i < s.len() - 1);
                assert(s.drop_last()[i].order_id == id);
            }
        }
    }
}

/// With unique identifiers, each index record is faithfully reported by the
/// index map.
pub proof fn lemma_locs_map_index(s: Seq<OrderLocation>, i: int)
    requires
        locs_unique(s),
        0 <= i < s.len(),
    ensures
        locs_map(s).contains_key(s[i].order_id as int),
        locs_map(s)[s[i].order_id as int] == (s[i].side, s[i].price as int),
    decreases s.len(),
{
    if i < s.len() - 1 {
        assert(locs_unique(s.drop_last()));
        lemma_locs_map_index(s.drop_last(), i);
        assert(s.drop_last()[i] == s[i]);
        assert(s.last().order_id != s[i].order_id);
    }
}

/// Appending a record inserts its key into the index map.
pub proof fn lemma_locs_map_push(s: Seq<OrderLocation>, x: OrderLocation)
    ensures
        locs_map(s.push(x)) == locs_map(s).insert(x.order_id as int, (x.side, x.price as int)),
{
    assert(s.push(x).drop_last() =~= s);
    assert(s.push(x).last() == x);
}

/// Removing the record at position `i` removes exactly its key from the
/// index map, provided identifiers are unique.
pub proof fn lemma_locs_map_remove(s: Seq<OrderLocation>, i: int)
    requires
        locs_unique(s),
        0 <= i < s.len(),
    ensures
        locs_map(s.remove(i)) == locs_map(s).remove(s[i].order_id as int),
    decreases s.len(),
{
    let id = s[i].order_id as int;
    if i == s.len() - 1 {
        assert(s.remove(i) =~= s.drop_last());
        lemma_locs_map_contains(s.drop_last(), id);
        assert(forall|j: int|
            0 <= j < s.drop_last().len() ==> (#[trigger] s.drop_last()[j]).order_id != s[i].order_id);
        assert(!locs_map(s.drop_last()).contains_key(id));
        assert(locs_map(s.drop_last()).insert(id, (s[i].side, s[i].price as int)).remove(id)
            =~= locs_map(s.drop_last()));
    } else {
        assert(locs_unique(s.drop_last()));
        lemma_locs_map_remove(s.drop_last(), i);
        assert(s.remove(i).drop_last() =~= s.drop_last().remove(i));
        assert(s.remove(i).last() == s.last());
        let klast = s.last().order_id as int;
        assert(klast != id);
        assert(locs_map(s.drop_last()).remove(id).insert(
            klast,
            (s.last().side, s.last().price as int),
        ) =~= locs_map(s.drop_last()).insert(
            klast,
            (s.last().side, s.last().price as int),
        ).remove(id));
    }
}

/// One side record of the index is consistent: the order rests where the
/// index says it does.
pub open spec fn index_entry_ok(
    v: (OrderSide, int),
    id: int,
    bids: Seq<LevelM>,
    asks: Seq<LevelM>,
) -> bool {
    match v.0 {
        OrderSide::Buy => side_has_at(bids, id, v.1),
        OrderSide::Sell => side_has_at(asks, id, v.1),
    }
}

/// The id-index and the price levels report exactly the same population of
/// resting orders, and agree on where each one rests.
pub open spec fn index_wf(
    locations: Map<int, (OrderSide, int)>,
    bids: Seq<LevelM>,
    asks: Seq<LevelM>,
) -> bool {
    &&& forall|id: int| #[trigger]
        locations.contains_key(id) ==> index_entry_ok(locations[id], id, bids, asks)
    &&& forall|id: int, p: int| #[trigger]
        side_has_at(bids, id, p) ==> locations.contains_key(id) && locations[id] == (
        OrderSide::Buy,
        p,
        )
    &&& forall|id: int, p: int| #[trigger]
        side_has_at(asks, id, p) ==> locations.contains_key(id) && locations[id] == (
        OrderSide::Sell,
        p,
        )
}

/// Mathematical model of a whole book.
#[verifier::ext_equal]
pub struct BookM {
    pub market_id: int,
    pub bids: Seq<LevelM>,
    pub asks: Seq<LevelM>,
    pub locations: Map<int, (OrderSide, int)>,
    pub last_price: Option<int>,
}

/// The book invariant: both sides ordered and well-formed, and the id-index
/// in exact correspondence with the levels.
pub open spec fn book_wf(b: BookM) -> bool {
    &&& side_levels_wf(b.bids, OrderSide::Buy)
    &&& side_levels_wf(b.asks, OrderSide::Sell)
    &&& index_wf(b.locations, b.bids, b.asks)
}

/// No crossed top: whenever both sides are populated, the best bid is
/// strictly below the best ask.
pub open spec fn book_uncrossed(b: BookM) -> bool {
    b.bids.len() > 0 && b.asks.len() > 0 ==> b.bids[0].price < b.asks[0].price
}

pub open spec fn opt_price_view(o: Option<u64>) -> Option<int> {
    match o {
        Some(p) => Some(p as int),
        None => None,
    }
}

/// A per-market order book.
#[derive(Debug)]
pub struct Orderbook {
    pub market_id: u128,
    /// Bid levels, highest price first.
    pub bids: Vec<PriceLevel>,
    /// Ask levels, lowest price first.
    pub asks: Vec<PriceLevel>,
    /// Index from order identifier to the side and price where it rests.
    pub order_locations: Vec<OrderLocation>,
    /// Price of the most recent execution on this market, if any.
    pub last_price: Option<u64>,
}

pub open spec fn side_view(levels: Seq<PriceLevel>) -> Seq<LevelM> {
    levels.map_values(|l: PriceLevel| l@)
}

impl View for Orderbook {
    type V = BookM;

    open spec fn view(&self) -> BookM {
        BookM {
            market_id: self.market_id as int,
            bids: side_view(self.bids@),
            asks: side_view(self.asks@),
            locations: locs_map(self.order_locations@),
            last_price: opt_price_view(self.last_price),
        }
    }
}

impl Orderbook {
    /// The invariant every operation preserves.
    pub open spec fn wf(self) -> bool {
        &&& book_wf(self@)
        &&& locs_unique(self.order_locations@)
    }

    /// A fresh, empty book for one market.
    pub fn new(market_id: u128) -> (r: Orderbook)
        ensures
            r.wf(),
            r@.market_id == market_id as int,
            r@.bids.len() == 0,
            r@.asks.len() == 0,
            r@.locations == Map::<int, (OrderSide, int)>::empty(),
            r@.last_price is None,
    {
        let r = Orderbook {
            market_id,
            bids: Vec::new(),
            asks: Vec::new(),
            order_locations: Vec::new(),
            last_price: None,
        };
        proof {
            assert(r@.bids =~= Seq::<LevelM>::empty());
            assert(r@.asks =~= Seq::<LevelM>::empty());
        }
        r
    }

    /// Record the price of the most recent execution.
    pub fn set_last_price(&mut self, price: u64)
        ensures
            *final(self) == (Orderbook { last_price: Some(price), ..*old(self) }),
            final(self)@ == (BookM { last_price: Some(price as int), ..old(self)@ }),
            old(self).wf() ==> final(self).wf(),
    {
        self.last_price = Some(price);
    }

    /// Highest resting bid price, if any.
    pub fn best_bid(&self) -> (r: Option<u64>)
        ensures
            match r {
                Some(p) => self@.bids.len() > 0 && p == self@.bids[0].price,
                None => self@.bids.len() == 0,
            },
    {
        if self.bids.len() > 0 {
            Some(self.bids[0].price)
        } else {
            None
        }
    }

    /// Lowest resting ask price, if any.
    pub fn best_ask(&self) -> (r: Option<u64>)
        ensures
            match r {
                Some(p) => self@.asks.len() > 0 && p == self@.asks[0].price,
                None => self@.asks.len() == 0,
            },
    {
        if self.asks.len() > 0 {
            Some(self.asks[0].price)
        } else {
            None
        }
    }

    /// Best ask minus best bid; `None` unless both sides are populated.
    pub fn spread(&self) -> (r: Option<i128>)
        ensures
            self@.asks.len() > 0 && self@.bids.len() > 0 ==> r == Some(
                (self@.asks[0].price - self@.bids[0].price) as i128,
            ),
            !(self@.asks.len() > 0 && self@.bids.len() > 0) ==> r is None,
    {
        match (self.best_ask(), self.best_bid()) {
            (Some(ask), Some(bid)) => Some(ask as i128 - bid as i128),
            _ => None,
        }
    }

    /// Whether an order currently rests in this book.
    pub fn contains_order(&self, order_id: u64) -> (r: bool)
        requires
            self.wf(),
        ensures
            r == self@.locations.contains_key(order_id as int),
    {
        let n = self.order_locations.len();
        let mut i: usize = 0;
        while i < n
            invariant
                n == self.order_locations.len(),
                0 <= i <= n,
                forall|j: int|
                    0 <= j < i ==> (#[trigger] self.order_locations@[j]).order_id != order_id,
            decreases n - i,
        {
            if self.order_locations[i].order_id == order_id {
                proof {
                    lemma_locs_map_contains(self.order_locations@, order_id as int);
                }
                return true;
            }
            i += 1;
        }
        proof {
            lemma_locs_map_contains(self.order_locations@, order_id as int);
        }
        false
    }
}

/// Total remaining size across a level's entries.
pub open spec fn entries_remaining_total(es: Seq<EntryM>) -> int
    decreases es.len(),
{
    if es.len() == 0 {
        0
    } else {
        entries_remaining_total(es.drop_last()) + entry_m_remaining(es.last())
    }
}

/// An aggregated snapshot row faithfully summarises a level.
pub open spec fn level_agg_ok(o: OrderbookLevel, l: LevelM) -> bool {
    &&& o.price == l.price
    &&& o.size == entries_remaining_total(l.entries)
    &&& o.order_count == l.entries.len()
}

/// Aggregate one level: its price, the sum of remaining sizes, and the
/// number of entries.
#[verifier::loop_isolation(false)]
fn aggregate_level(lvl: &PriceLevel) -> (r: OrderbookLevel)
    requires
        level_m_wf(lvl@),
    ensures
        level_agg_ok(r, lvl@),
{
    let n = lvl.orders.len();
    let mut total: u128 = 0;
    let mut j: usize = 0;
    while j < n
        invariant
            0 <= j <= n,
            total == entries_remaining_total(lvl@.entries.subrange(0, j as int)),
            total <= j * 0xFFFF_FFFF_FFFF_FFFFu128,
        decreases n - j,
    {
        assert(lvl@.entries[j as int] == lvl.orders@[j as int]@);
        let e_rem = lvl.orders[j].remaining();
        proof {
            assert(lvl@.entries.subrange(0, j + 1 as int).drop_last() =~= lvl@.entries.subrange(
                0,
                j as int,
            ));
            assert(total + e_rem <= (j + 1) * 0xFFFF_FFFF_FFFF_FFFFu128) by (nonlinear_arith)
                requires
                    total <= j * 0xFFFF_FFFF_FFFF_FFFFu128,
                    0 <= e_rem <= 0xFFFF_FFFF_FFFF_FFFFu128,
            ;
            assert((j + 1) * 0xFFFF_FFFF_FFFF_FFFFu128 < u128::MAX) by (nonlinear_arith)
                requires
                    j + 1 <= 0x1_0000_0000_0000_0000,
            ;
        }
        total = total + e_rem as u128;
        j += 1;
    }
    proof {
        assert(lvl@.entries.subrange(0, n as int) =~= lvl@.entries);
    }
    OrderbookLevel { price: lvl.price, size: total, order_count: n }
}

/// The fresh book entry standing for an order when it comes to rest.
pub open spec fn entry_of_order(o: Order) -> EntryM {
    EntryM {
        order_id: o.order_id as int,
        wallet: o.user_wallet@,
        size: o.size as int,
        filled: o.filled as int,
        timestamp: o.created_at as int,
    }
}

/// The position at which a level with price `price` stands (or would be
/// inserted) on a side: the first index whose price does not come before it.
pub open spec fn level_insert_index(levels: Seq<LevelM>, side: OrderSide, price: int) -> int
    decreases levels.len(),
{
    if levels.len() == 0 {
        0
    } else if price_before(side, levels[0].price, price) {
        1 + level_insert_index(levels.drop_first(), side, price)
    } else {
        0
    }
}

/// The insert position is pinned down by what a linear scan observes.
pub proof fn lemma_insert_index_unique(levels: Seq<LevelM>, side: OrderSide, price: int, i: int)
    requires
        0 <= i <= levels.len(),
        forall|k: int| 0 <= k < i ==> price_before(side, (#[trigger] levels[k]).price, price),
        i < levels.len() ==> !price_before(side, levels[i].price, price),
    ensures
        level_insert_index(levels, side, price) == i,
    decreases levels.len(),
{
    if levels.len() > 0 {
        if price_before(side, levels[0].price, price) {
            assert(i != 0);
            assert(forall|k: int|
                0 <= k < i - 1 ==> price_before(
                    side,
                    (#[trigger] levels.drop_first()[k]).price,
                    price,
                ));
            lemma_insert_index_unique(levels.drop_first(), side, price, i - 1);
        } else {
            assert(i == 0);
        }
    }
}

/// The side after an order is added at `price`: appended to its level's FIFO
/// queue when the level exists, else a new single-entry level in price order.
pub open spec fn levels_add(levels: Seq<LevelM>, side: OrderSide, price: int, e: EntryM) -> Seq<
    LevelM,
> {
    let i = level_insert_index(levels, side, price);
    if i < levels.len() && levels[i].price == price {
        levels.update(i, LevelM { price, entries: levels[i].entries.push(e) })
    } else {
        levels.insert(i, LevelM { price, entries: seq![e] })
    }
}

/// Membership after an add: exactly the old population plus the new order at
/// its price.
pub open spec fn side_add_members(
    oldl: Seq<LevelM>,
    newl: Seq<LevelM>,
    aid: int,
    aprice: int,
) -> bool {
    forall|id: int, p: int|
        #![trigger side_has_at(newl, id, p)]
        #![trigger side_has_at(oldl, id, p)]
        side_has_at(newl, id, p) <==> (side_has_at(oldl, id, p) || (id == aid && p == aprice))
}

/// Exec comparison mirroring `price_before`.
fn price_before_x(side: OrderSide, a: u64, b: u64) -> (r: bool)
    ensures
        r == price_before(side, a as int, b as int),
{
    match side {
        OrderSide::Buy => a > b,
        OrderSide::Sell => a < b,
    }
}

/// Insert an entry into one side, preserving price order and level FIFO.
#[verifier::loop_isolation(false)]
fn side_add(levels: &mut Vec<PriceLevel>, side: OrderSide, price: u64, entry: OrderEntry)
    requires
        side_levels_wf(side_view(old(levels)@), side),
        !side_has_id(side_view(old(levels)@), entry@.order_id),
        entry_m_wf(entry@),
    ensures
        side_view(final(levels)@) == levels_add(
            side_view(old(levels)@),
            side,
            price as int,
            entry@,
        ),
        side_levels_wf(side_view(final(levels)@), side),
        side_add_members(
            side_view(old(levels)@),
            side_view(final(levels)@),
            entry@.order_id,
            price as int,
        ),
{
    let ghost oldv = side_view(levels@);
    let ghost aid = entry@.order_id;
    let n = levels.len();
    let mut i: usize = 0;
    while i < n && price_before_x(side, levels[i].price, price)
        invariant
            0 <= i <= n,
            levels@ == old(levels)@,
            forall|k: int| 0 <= k < i ==> price_before(side, (#[trigger] oldv[k]).price, price as int),
        decreases n - i,
    {
        assert(oldv[i as int].price == levels@[i as int]@.price);
        i += 1;
    }
    proof {
        lemma_insert_index_unique(oldv, side, price as int, i as int);
        assert forall|k: int| 0 <= k < oldv.len() implies !level_has_id(#[trigger] oldv[k], aid) by {
            if level_has_id(oldv[k], aid) {
                assert(side_has_id(oldv, aid));
            }
        }
    }
    let ghost tgt = levels_add(oldv, side, price as int, entry@);
    if i < n && levels[i].price == price {
        let ghost oldlvl = oldv[i as int];
        let mut lvl = levels.remove(i);
        lvl.orders.push(entry);
        levels.insert(i, lvl);
        proof {
            assert(lvl@.entries =~~= oldlvl.entries.push(entry@));
            assert(side_view(levels@) =~~= tgt);
            lemma_side_add_post_update(oldv, side, price as int, entry@, i as int);
        }
    } else {
        let mut orders: Vec<OrderEntry> = Vec::new();
        orders.push(entry);
        let newlvl = PriceLevel { price, orders };
        levels.insert(i, newlvl);
        proof {
            assert(newlvl@.entries =~~= seq![entry@]);
            assert(side_view(levels@) =~~= tgt);
            lemma_side_add_post_insert(oldv, side, price as int, entry@, i as int);
        }
    }
}

/// Adding to an existing level preserves side well-formedness and adjusts
/// membership by exactly the new order.
proof fn lemma_side_add_post_update(
    oldl: Seq<LevelM>,
    side: OrderSide,
    price: int,
    e: EntryM,
    i: int,
)
    requires
        side_levels_wf(oldl, side),
        entry_m_wf(e),
        forall|k: int| 0 <= k < oldl.len() ==> !level_has_id(#[trigger] oldl[k], e.order_id),
        level_insert_index(oldl, side, price) == i,
        0 <= i < oldl.len(),
        oldl[i].price == price,
    ensures
        side_levels_wf(levels_add(oldl, side, price, e), side),
        side_add_members(oldl, levels_add(oldl, side, price, e), e.order_id, price),
{
    let newl = levels_add(oldl, side, price, e);
    let nlvl = LevelM { price, entries: oldl[i].entries.push(e) };
    assert(newl =~~= oldl.update(i, nlvl));
    assert(level_m_wf(nlvl)) by {
        assert(forall|j: int|
            0 <= j < oldl[i].entries.len() ==> nlvl.entries[j] == (#[trigger] oldl[i].entries[j]));
        assert(nlvl.entries.last() == e);
        assert forall|j1: int, j2: int|
            #![trigger nlvl.entries[j1], nlvl.entries[j2]]
            0 <= j1 < j2 < nlvl.entries.len() implies nlvl.entries[j1].order_id
            != nlvl.entries[j2].order_id by {
            if j2 == nlvl.entries.len() - 1 {
                assert(!level_has_id(oldl[i], e.order_id));
                assert(oldl[i].entries[j1].order_id != e.order_id);
            }
        }
    }
    assert forall|id: int, p: int|
        side_has_at(newl, id, p) implies (side_has_at(oldl, id, p) || (id == e.order_id && p
        == price)) by {
        let k = choose|k: int|
            0 <= k < newl.len() && (#[trigger] newl[k]).price == p && level_has_id(newl[k], id);
        if k != i {
            assert(oldl[k].price == p && level_has_id(oldl[k], id));
        } else {
            let j = choose|j: int|
                0 <= j < newl[k].entries.len() && (#[trigger] newl[k].entries[j]).order_id == id;
            if j < oldl[i].entries.len() {
                assert(oldl[i].entries[j].order_id == id);
                assert(level_has_id(oldl[i], id));
                assert(side_has_at(oldl, id, p));
            } else {
                assert(newl[k].entries[j] == e);
            }
        }
    }
    assert forall|id: int, p: int|
        (side_has_at(oldl, id, p) || (id == e.order_id && p == price)) implies side_has_at(
        newl,
        id,
        p,
    ) by {
        if side_has_at(oldl, id, p) {
            let k = choose|k: int|
                0 <= k < oldl.len() && (#[trigger] oldl[k]).price == p && level_has_id(oldl[k], id);
            if k != i {
                assert(newl[k].price == p && level_has_id(newl[k], id));
            } else {
                let j = choose|j: int|
                    0 <= j < oldl[k].entries.len() && (#[trigger] oldl[k].entries[j]).order_id
                        == id;
                assert(newl[i].entries[j].order_id == id);
                assert(level_has_id(newl[i], id));
            }
        } else {
            let j = newl[i].entries.len() - 1;
            assert(newl[i].entries[j] == e);
            assert(level_has_id(newl[i], id));
        }
    }
}

/// Adding a fresh level preserves side well-formedness and adjusts
/// membership by exactly the new order.
proof fn lemma_side_add_post_insert(
    oldl: Seq<LevelM>,
    side: OrderSide,
    price: int,
    e: EntryM,
    i: int,
)
    requires
        side_levels_wf(oldl, side),
        entry_m_wf(e),
        forall|k: int| 0 <= k < oldl.len() ==> !level_has_id(#[trigger] oldl[k], e.order_id),
        level_insert_index(oldl, side, price) == i,
        0 <= i <= oldl.len(),
        forall|k: int| 0 <= k < i ==> price_before(side, (#[trigger] oldl[k]).price, price),
        i < oldl.len() ==> !price_before(side, oldl[i].price, price),
        !(i < oldl.len() && oldl[i].price == price),
    ensures
        side_levels_wf(levels_add(oldl, side, price, e), side),
        side_add_members(oldl, levels_add(oldl, side, price, e), e.order_id, price),
{
    let newl = levels_add(oldl, side, price, e);
    let nlvl = LevelM { price, entries: seq![e] };
    assert(newl =~~= oldl.insert(i, nlvl));
    assert(level_m_wf(nlvl));
    assert forall|k1: int, k2: int|
        #![trigger newl[k1], newl[k2]]
        0 <= k1 < k2 < newl.len() implies price_before(side, newl[k1].price, newl[k2].price) by {
        if k1 == i {
            assert(newl[k2] == oldl[k2 - 1]);
            assert(!price_before(side, oldl[k2 - 1].price, price)) by {
                if k2 - 1 > i && i < oldl.len() {
                    assert(price_before(side, oldl[i].price, oldl[k2 - 1].price));
                }
            }
            assert(oldl[k2 - 1].price != price);
        } else if k2 == i {
            assert(newl[k1] == oldl[k1]);
        } else if k1 < i && k2 > i {
            assert(newl[k1] == oldl[k1] && newl[k2] == oldl[k2 - 1]);
            assert(!price_before(side, oldl[k2 - 1].price, price)) by {
                if k2 - 1 > i && i < oldl.len() {
                    assert(price_before(side, oldl[i].price, oldl[k2 - 1].price));
                }
            }
        } else if k2 < i {
            assert(newl[k1] == oldl[k1] && newl[k2] == oldl[k2]);
        } else {
            assert(newl[k1] == oldl[k1 - 1] && newl[k2] == oldl[k2 - 1]);
        }
    }
    assert forall|id: int, p: int|
        side_has_at(newl, id, p) implies (side_has_at(oldl, id, p) || (id == e.order_id && p
        == price)) by {
        let k = choose|k: int|
            0 <= k < newl.len() && (#[trigger] newl[k]).price == p && level_has_id(newl[k], id);
        if k == i {
            let j = choose|j: int|
                0 <= j < newl[k].entries.len() && (#[trigger] newl[k].entries[j]).order_id == id;
            assert(newl[k].entries[j] == e);
        } else if k < i {
            assert(oldl[k].price == p && level_has_id(oldl[k], id));
        } else {
            assert(oldl[k - 1].price == p && level_has_id(oldl[k - 1], id));
        }
    }
    assert forall|id: int, p: int|
        (side_has_at(oldl, id, p) || (id == e.order_id && p == price)) implies side_has_at(
        newl,
        id,
        p,
    ) by {
        if side_has_at(oldl, id, p) {
            let k = choose|k: int|
                0 <= k < oldl.len() && (#[trigger] oldl[k]).price == p && level_has_id(oldl[k], id);
            if k < i {
                assert(newl[k].price == p && level_has_id(newl[k], id));
            } else {
                assert(newl[k + 1] == oldl[k]);
                assert(newl[k + 1].price == p && level_has_id(newl[k + 1], id));
            }
        } else {
            assert(newl[i].entries[0] == e);
            assert(level_has_id(newl[i], id));
        }
    }
}

impl Orderbook {
    /// Aggregated bid levels, highest price first, up to `depth` of them.
    #[verifier::loop_isolation(false)]
    pub fn get_bids(&self, depth: usize) -> (r: Vec<OrderbookLevel>)
        requires
            self.wf(),
        ensures
            r@.len() == if depth as int <= self@.bids.len() {
                depth as int
            } else {
                self@.bids.len() as int
            },
            forall|i: int| 0 <= i < r@.len() ==> level_agg_ok(#[trigger] r@[i], self@.bids[i]),
    {
        let mut r: Vec<OrderbookLevel> = Vec::new();
        let n = self.bids.len();
        let mut i: usize = 0;
        while i < n && i < depth
            invariant
                0 <= i <= n,
                i <= depth,
                r@.len() == i,
                forall|k: int| 0 <= k < i ==> level_agg_ok(#[trigger] r@[k], self@.bids[k]),
            decreases n - i,
        {
            assert(self@.bids[i as int] == self.bids@[i as int]@);
            r.push(aggregate_level(&self.bids[i]));
            i += 1;
        }
        r
    }

    /// Aggregated ask levels, lowest price first, up to `depth` of them.
    #[verifier::loop_isolation(false)]
    pub fn get_asks(&self, depth: usize) -> (r: Vec<OrderbookLevel>)
        requires
            self.wf(),
        ensures
            r@.len() == if depth as int <= self@.asks.len() {
                depth as int
            } else {
                self@.asks.len() as int
            },
            forall|i: int| 0 <= i < r@.len() ==> level_agg_ok(#[trigger] r@[i], self@.asks[i]),
    {
        let mut r: Vec<OrderbookLevel> = Vec::new();
        let n = self.asks.len();
        let mut i: usize = 0;
        while i < n && i < depth
            invariant
                0 <= i <= n,
                i <= depth,
                r@.len() == i,
                forall|k: int| 0 <= k < i ==> level_agg_ok(#[trigger] r@[k], self@.asks[k]),
            decreases n - i,
        {
            assert(self@.asks[i as int] == self.asks@[i as int]@);
            r.push(aggregate_level(&self.asks[i]));
            i += 1;
        }
        r
    }

    /// An aggregated top-`depth` view of both sides, stamped with the
    /// wall-clock time.
    pub fn snapshot(&self, depth: usize) -> (r: OrderbookSnapshot)
        requires
            self.wf(),
        ensures
            r.market_id == self.market_id,
            r.last_price == self.last_price,
            r.bids@.len() == if depth as int <= self@.bids.len() {
                depth as int
            } else {
                self@.bids.len() as int
            },
            forall|i: int| 0 <= i < r.bids@.len() ==> level_agg_ok(#[trigger] r.bids@[i], self@.bids[i]),
            r.asks@.len() == if depth as int <= self@.asks.len() {
                depth as int
            } else {
                self@.asks.len() as int
            },
            forall|i: int| 0 <= i < r.asks@.len() ==> level_agg_ok(#[trigger] r.asks@[i], self@.asks[i]),
    {
        OrderbookSnapshot {
            market_id: self.market_id,
            bids: self.get_bids(depth),
            asks: self.get_asks(depth),
            last_price: self.last_price,
            timestamp: now_unix_nanos(),
        }
    }

    /// Add a resting order to the book. The order must not be indexed yet
    /// and must still have remaining size.
    pub fn add_order(&mut self, order: &Order)
        requires
            old(self).wf(),
            !old(self)@.locations.contains_key(order.order_id as int),
            order.filled < order.size,
        ensures
            final(self).wf(),
            final(self)@ == (BookM {
                bids: if order.side == OrderSide::Buy {
                    levels_add(
                        old(self)@.bids,
                        OrderSide::Buy,
                        order.price as int,
                        entry_of_order(*order),
                    )
                } else {
                    old(self)@.bids
                },
                asks: if order.side == OrderSide::Sell {
                    levels_add(
                        old(self)@.asks,
                        OrderSide::Sell,
                        order.price as int,
                        entry_of_order(*order),
                    )
                } else {
                    old(self)@.asks
                },
                locations: old(self)@.locations.insert(
                    order.order_id as int,
                    (order.side, order.price as int),
                ),
                ..old(self)@
            }),
    {
        let ghost oldb = self@;
        let ghost id = order.order_id as int;
        let entry = OrderEntry {
            order_id: order.order_id,
            user_wallet: order.user_wallet.clone(),
            size: order.size,
            filled: order.filled,
            timestamp: order.created_at,
        };
        proof {
            assert(entry@ =~~= entry_of_order(*order));
            assert(!side_has_id(oldb.bids, id)) by {
                if side_has_id(oldb.bids, id) {
                    let k = choose|k: int|
                        0 <= k < oldb.bids.len() && level_has_id(#[trigger] oldb.bids[k], id);
                    assert(side_has_at(oldb.bids, id, oldb.bids[k].price));
                }
            }
            assert(!side_has_id(oldb.asks, id)) by {
                if side_has_id(oldb.asks, id) {
                    let k = choose|k: int|
                        0 <= k < oldb.asks.len() && level_has_id(#[trigger] oldb.asks[k], id);
                    assert(side_has_at(oldb.asks, id, oldb.asks[k].price));
                }
            }
        }
        match order.side {
            OrderSide::Buy => side_add(&mut self.bids, OrderSide::Buy, order.price, entry),
            OrderSide::Sell => side_add(&mut self.asks, OrderSide::Sell, order.price, entry),
        }
        let loc = OrderLocation { order_id: order.order_id, side: order.side, price: order.price };
        proof {
            lemma_locs_map_contains(self.order_locations@, id);
        }
        self.order_locations.push(loc);
        proof {
            lemma_locs_map_push(old(self).order_locations@, loc);
            assert(locs_unique(self.order_locations@)) by {
                let s = self.order_locations@;
                assert forall|a: int, b: int|
                    #![trigger s[a], s[b]]
                    0 <= a < b < s.len() implies s[a].order_id != s[b].order_id by {
                    if b == s.len() - 1 {
                        assert(s[a] == old(self).order_locations@[a]);
                    } else {
                        assert(s[a] == old(self).order_locations@[a]);
                        assert(s[b] == old(self).order_locations@[b]);
                    }
                }
            }
            lemma_add_order_index_wf(oldb, self@, order.side, id, order.price as int);
            assert(final(self)@ =~~= (BookM {
                bids: if order.side == OrderSide::Buy {
                    levels_add(oldb.bids, OrderSide::Buy, order.price as int, entry_of_order(*order))
                } else {
                    oldb.bids
                },
                asks: if order.side == OrderSide::Sell {
                    levels_add(oldb.asks, OrderSide::Sell, order.price as int, entry_of_order(*order))
                } else {
                    oldb.asks
                },
                locations: oldb.locations.insert(id, (order.side, order.price as int)),
                ..oldb
            }));
        }
    }
}

/// First index holding a level at `price`, or the side's length.
pub open spec fn level_index_of_price(levels: Seq<LevelM>, price: int) -> int
    decreases levels.len(),
{
    if levels.len() == 0 {
        0
    } else if levels[0].price == price {
        0
    } else {
        1 + level_index_of_price(levels.drop_first(), price)
    }
}

/// First index holding an entry with `id`, or the queue's length.
pub open spec fn entry_index_of_id(es: Seq<EntryM>, id: int) -> int
    decreases es.len(),
{
    if es.len() == 0 {
        0
    } else if es[0].order_id == id {
        0
    } else {
        1 + entry_index_of_id(es.drop_first(), id)
    }
}

/// The level position is pinned down by what a linear scan observes.
pub proof fn lemma_price_index_unique(levels: Seq<LevelM>, price: int, i: int)
    requires
        0 <= i <= levels.len(),
        forall|k: int| 0 <= k < i ==> (#[trigger] levels[k]).price != price,
        i < levels.len() ==> levels[i].price == price,
    ensures
        level_index_of_price(levels, price) == i,
    decreases levels.len(),
{
    if levels.len() > 0 && levels[0].price != price {
        assert(i != 0);
        assert(forall|k: int|
            0 <= k < i - 1 ==> (#[trigger] levels.drop_first()[k]).price != price);
        lemma_price_index_unique(levels.drop_first(), price, i - 1);
    }
}

/// The entry position is pinned down by what a linear scan observes.
pub proof fn lemma_entry_index_unique(es: Seq<EntryM>, id: int, j: int)
    requires
        0 <= j <= es.len(),
        forall|k: int| 0 <= k < j ==> (#[trigger] es[k]).order_id != id,
        j < es.len() ==> es[j].order_id == id,
    ensures
        entry_index_of_id(es, id) == j,
    decreases es.len(),
{
    if es.len() > 0 && es[0].order_id != id {
        assert(j != 0);
        assert(forall|k: int| 0 <= k < j - 1 ==> (#[trigger] es.drop_first()[k]).order_id != id);
        lemma_entry_index_unique(es.drop_first(), id, j - 1);
    }
}

/// The side after one resting entry is taken out: its level shrinks, and an
/// emptied level disappears.
pub open spec fn levels_take_at(levels: Seq<LevelM>, i: int, j: int) -> Seq<LevelM> {
    if levels[i].entries.len() == 1 {
        levels.remove(i)
    } else {
        levels.update(
            i,
            LevelM { price: levels[i].price, entries: levels[i].entries.remove(j) },
        )
    }
}

/// The side after one resting entry's `filled` grows by `amount` in place.
pub open spec fn levels_fill_at(levels: Seq<LevelM>, i: int, j: int, amount: int) -> Seq<LevelM> {
    let e = levels[i].entries[j];
    levels.update(
        i,
        LevelM {
            price: levels[i].price,
            entries: levels[i].entries.update(j, EntryM { filled: e.filled + amount, ..e }),
        },
    )
}

/// Taking one entry out preserves side well-formedness, and membership
/// shrinks by exactly that order at that price.
pub proof fn lemma_levels_take_at_post(levels: Seq<LevelM>, side: OrderSide, i: int, j: int)
    requires
        side_levels_wf(levels, side),
        0 <= i < levels.len(),
        0 <= j < levels[i].entries.len(),
    ensures
        side_levels_wf(levels_take_at(levels, i, j), side),
        forall|id: int, p: int|
            #![trigger side_has_at(levels_take_at(levels, i, j), id, p)]
            #![trigger side_has_at(levels, id, p)]
            side_has_at(levels_take_at(levels, i, j), id, p) <==> (side_has_at(levels, id, p)
                && !(id == levels[i].entries[j].order_id && p == levels[i].price)),
{
    let newl = levels_take_at(levels, i, j);
    let eid = levels[i].entries[j].order_id;
    let ep = levels[i].price;
    assert(forall|k: int|
        0 <= k < levels.len() && k != i ==> (#[trigger] levels[k]).price != ep) by {
        assert forall|k: int|
            0 <= k < levels.len() && k != i implies (#[trigger] levels[k]).price != ep by {
            if k < i {
                assert(price_before(side, levels[k].price, levels[i].price));
            } else {
                assert(price_before(side, levels[i].price, levels[k].price));
            }
        }
    }
    if levels[i].entries.len() == 1 {
        assert forall|id: int, p: int|
            side_has_at(newl, id, p) implies (side_has_at(levels, id, p) && !(id == eid && p
            == ep)) by {
            let k = choose|k: int|
                0 <= k < newl.len() && (#[trigger] newl[k]).price == p && level_has_id(newl[k], id);
            let ko = if k < i { k } else { k + 1 as int };
            assert(newl[k] == levels[ko]);
            assert(side_has_at(levels, id, p));
            assert(levels[ko].price != ep);
        }
        assert forall|id: int, p: int|
            (side_has_at(levels, id, p) && !(id == eid && p == ep)) implies side_has_at(
            newl,
            id,
            p,
        ) by {
            let k = choose|k: int|
                0 <= k < levels.len() && (#[trigger] levels[k]).price == p && level_has_id(
                    levels[k],
                    id,
                );
            if k == i {
                assert(p == ep);
                let jj = choose|jj: int|
                    0 <= jj < levels[k].entries.len() && (#[trigger] levels[k].entries[jj]).order_id
                        == id;
                assert(jj == j);
                assert(false);
            } else if k < i {
                assert(newl[k] == levels[k]);
                assert(side_has_at(newl, id, p));
            } else {
                assert(newl[k - 1] == levels[k]);
                assert(side_has_at(newl, id, p));
            }
        }
    } else {
        let nlvl = LevelM { price: levels[i].price, entries: levels[i].entries.remove(j) };
        assert(level_m_wf(nlvl)) by {
            assert forall|a: int| 0 <= a < nlvl.entries.len() implies entry_m_wf(
                #[trigger] nlvl.entries[a],
            ) by {
                let ao = if a < j { a } else { a + 1 as int };
                assert(nlvl.entries[a] == levels[i].entries[ao]);
            }
            assert forall|a: int, b: int|
                #![trigger nlvl.entries[a], nlvl.entries[b]]
                0 <= a < b < nlvl.entries.len() implies nlvl.entries[a].order_id
                != nlvl.entries[b].order_id by {
                let ao = if a < j { a } else { a + 1 as int };
                let bo = if b < j { b } else { b + 1 as int };
                assert(nlvl.entries[a] == levels[i].entries[ao]);
                assert(nlvl.entries[b] == levels[i].entries[bo]);
            }
        }
        assert forall|id: int, p: int|
            side_has_at(newl, id, p) implies (side_has_at(levels, id, p) && !(id == eid && p
            == ep)) by {
            let k = choose|k: int|
                0 <= k < newl.len() && (#[trigger] newl[k]).price == p && level_has_id(newl[k], id);
            if k != i {
                assert(newl[k] == levels[k]);
                assert(side_has_at(levels, id, p));
                assert(levels[k].price != ep);
            } else {
                let a = choose|a: int|
                    0 <= a < newl[k].entries.len() && (#[trigger] newl[k].entries[a]).order_id
                        == id;
                let ao = if a < j { a } else { a + 1 as int };
                assert(newl[k].entries[a] == levels[i].entries[ao]);
                assert(level_has_id(levels[i], id));
                assert(side_has_at(levels, id, p));
                assert(id != eid) by {
                    assert(levels[i].entries[ao].order_id == id);
                    assert(ao != j);
                }
            }
        }
        assert forall|id: int, p: int|
            (side_has_at(levels, id, p) && !(id == eid && p == ep)) implies side_has_at(
            newl,
            id,
            p,
        ) by {
            let k = choose|k: int|
                0 <= k < levels.len() && (#[trigger] levels[k]).price == p && level_has_id(
                    levels[k],
                    id,
                );
            if k != i {
                assert(newl[k] == levels[k]);
                assert(side_has_at(newl, id, p));
            } else {
                assert(p == ep);
                assert(id != eid);
                let a = choose|a: int|
                    0 <= a < levels[k].entries.len() && (#[trigger] levels[k].entries[a]).order_id
                        == id;
                assert(a != j);
                let an = if a < j { a } else { a - 1 as int };
                assert(newl[i].entries[an] == levels[i].entries[a]);
                assert(level_has_id(newl[i], id));
                assert(side_has_at(newl, id, p));
            }
        }
    }
}

/// Growing one entry's fill in place (short of exhausting it) preserves side
/// well-formedness and leaves membership unchanged.
pub proof fn lemma_levels_fill_at_post(
    levels: Seq<LevelM>,
    side: OrderSide,
    i: int,
    j: int,
    amount: int,
)
    requires
        side_levels_wf(levels, side),
        0 <= i < levels.len(),
        0 <= j < levels[i].entries.len(),
        0 < amount < entry_m_remaining(levels[i].entries[j]),
    ensures
        side_levels_wf(levels_fill_at(levels, i, j, amount), side),
        forall|id: int, p: int|
            #![trigger side_has_at(levels_fill_at(levels, i, j, amount), id, p)]
            #![trigger side_has_at(levels, id, p)]
            side_has_at(levels_fill_at(levels, i, j, amount), id, p) <==> side_has_at(
                levels,
                id,
                p,
            ),
{
    let newl = levels_fill_at(levels, i, j, amount);
    let e = levels[i].entries[j];
    let nlvl = newl[i];
    assert(level_m_wf(nlvl)) by {
        assert forall|a: int| 0 <= a < nlvl.entries.len() implies entry_m_wf(
            #[trigger] nlvl.entries[a],
        ) by {
            if a != j {
                assert(nlvl.entries[a] == levels[i].entries[a]);
            }
        }
        assert forall|a: int, b: int|
            #![trigger nlvl.entries[a], nlvl.entries[b]]
            0 <= a < b < nlvl.entries.len() implies nlvl.entries[a].order_id
            != nlvl.entries[b].order_id by {
            assert(nlvl.entries[a].order_id == levels[i].entries[a].order_id);
            assert(nlvl.entries[b].order_id == levels[i].entries[b].order_id);
        }
    }
    assert forall|id: int, p: int|
        side_has_at(newl, id, p) implies side_has_at(levels, id, p) by {
        let k = choose|k: int|
            0 <= k < newl.len() && (#[trigger] newl[k]).price == p && level_has_id(newl[k], id);
        if k != i {
            assert(levels[k].price == p && level_has_id(levels[k], id));
        } else {
            let a = choose|a: int|
                0 <= a < newl[k].entries.len() && (#[trigger] newl[k].entries[a]).order_id == id;
            assert(levels[i].entries[a].order_id == id);
            assert(level_has_id(levels[i], id));
        }
    }
    assert forall|id: int, p: int|
        side_has_at(levels, id, p) implies side_has_at(newl, id, p) by {
        let k = choose|k: int|
            0 <= k < levels.len() && (#[trigger] levels[k]).price == p && level_has_id(
                levels[k],
                id,
            );
        if k != i {
            assert(newl[k].price == p && level_has_id(newl[k], id));
        } else {
            let a = choose|a: int|
                0 <= a < levels[k].entries.len() && (#[trigger] levels[k].entries[a]).order_id
                    == id;
            assert(newl[i].entries[a].order_id == id);
            assert(level_has_id(newl[i], id));
            assert(side_has_at(newl, id, p));
        }
    }
}

/// Find the position of an order's index record.
pub(crate) fn find_location(locs: &Vec<OrderLocation>, order_id: u64) -> (r: Option<usize>)
    ensures
        match r {
            Some(i) => i < locs@.len() && locs@[i as int].order_id == order_id,
            None => forall|k: int| 0 <= k < locs@.len() ==> (#[trigger] locs@[k]).order_id
                != order_id,
        },
{
    let n = locs.len();
    let mut i: usize = 0;
    while i < n
        invariant
            0 <= i <= n,
            n == locs@.len(),
            forall|k: int| 0 <= k < i ==> (#[trigger] locs@[k]).order_id != order_id,
        decreases n - i,
    {
        if locs[i].order_id == order_id {
            return Some(i);
        }
        i += 1;
    }
    None
}

/// Take the resting entry for `id` out of the level at `price`, dropping the
/// level if it empties.
#[verifier::loop_isolation(false)]
fn side_take(levels: &mut Vec<PriceLevel>, side: OrderSide, price: u64, id: u64) -> (r: OrderEntry)
    requires
        side_levels_wf(side_view(old(levels)@), side),
        side_has_at(side_view(old(levels)@), id as int, price as int),
    ensures
        ({
            let oldv = side_view(old(levels)@);
            let i = level_index_of_price(oldv, price as int);
            let j = entry_index_of_id(oldv[i].entries, id as int);
            &&& 0 <= i < oldv.len() && oldv[i].price == price
            &&& 0 <= j < oldv[i].entries.len()
            &&& oldv[i].entries[j].order_id == id
            &&& r@ == oldv[i].entries[j]
            &&& side_view(final(levels)@) == levels_take_at(oldv, i, j)
        }),
{
    let ghost oldv = side_view(levels@);
    let n = levels.len();
    let mut i: usize = 0;
    while i < n && levels[i].price != price
        invariant
            0 <= i <= n,
            levels@ == old(levels)@,
            forall|k: int| 0 <= k < i ==> (#[trigger] oldv[k]).price != price,
        decreases n - i,
    {
        assert(oldv[i as int].price == levels@[i as int]@.price);
        i += 1;
    }
    proof {
        if i == n {
            let k = choose|k: int|
                0 <= k < oldv.len() && (#[trigger] oldv[k]).price == price && level_has_id(
                    oldv[k],
                    id as int,
                );
            assert(false);
        }
        lemma_price_index_unique(oldv, price as int, i as int);
    }
    let mut lvl = levels.remove(i);
    let ghost lm = oldv[i as int];
    assert(lvl@ == lm);
    let en = lvl.orders.len();
    let mut j: usize = 0;
    while j < en && lvl.orders[j].order_id != id
        invariant
            0 <= j <= en,
            en == lvl.orders@.len(),
            lvl@ == lm,
            forall|k: int| 0 <= k < j ==> (#[trigger] lm.entries[k]).order_id != id,
        decreases en - j,
    {
        assert(lm.entries[j as int] == lvl.orders@[j as int]@);
        j += 1;
    }
    proof {
        if j == en {
            let k = choose|k: int|
                0 <= k < lm.entries.len() && (#[trigger] lm.entries[k]).order_id == id;
            assert(false);
        }
        lemma_entry_index_unique(lm.entries, id as int, j as int);
        assert(lm.entries[j as int] == lvl.orders@[j as int]@);
    }
    let entry = lvl.orders.remove(j);
    if lvl.orders.len() > 0 {
        levels.insert(i, lvl);
        proof {
            assert(lm.entries.len() != 1);
            assert(side_view(levels@) =~~= levels_take_at(oldv, i as int, j as int));
        }
    } else {
        proof {
            assert(lm.entries.len() == 1);
            assert(side_view(levels@) =~~= levels_take_at(oldv, i as int, j as int));
        }
    }
    entry
}

/// Grow the `filled` of the resting entry for `id` at `price` in place.
#[verifier::loop_isolation(false)]
fn side_fill(levels: &mut Vec<PriceLevel>, side: OrderSide, price: u64, id: u64, amount: u64)
    requires
        side_levels_wf(side_view(old(levels)@), side),
        side_has_at(side_view(old(levels)@), id as int, price as int),
        ({
            let oldv = side_view(old(levels)@);
            let i = level_index_of_price(oldv, price as int);
            let j = entry_index_of_id(oldv[i].entries, id as int);
            0 < amount < entry_m_remaining(oldv[i].entries[j])
        }),
    ensures
        ({
            let oldv = side_view(old(levels)@);
            let i = level_index_of_price(oldv, price as int);
            let j = entry_index_of_id(oldv[i].entries, id as int);
            &&& 0 <= i < oldv.len() && oldv[i].price == price
            &&& 0 <= j < oldv[i].entries.len()
            &&& oldv[i].entries[j].order_id == id
            &&& side_view(final(levels)@) == levels_fill_at(oldv, i, j, amount as int)
        }),
{
    let ghost oldv = side_view(levels@);
    let n = levels.len();
    let mut i: usize = 0;
    while i < n && levels[i].price != price
        invariant
            0 <= i <= n,
            levels@ == old(levels)@,
            forall|k: int| 0 <= k < i ==> (#[trigger] oldv[k]).price != price,
        decreases n - i,
    {
        assert(oldv[i as int].price == levels@[i as int]@.price);
        i += 1;
    }
    proof {
        if i == n {
            let k = choose|k: int|
                0 <= k < oldv.len() && (#[trigger] oldv[k]).price == price && level_has_id(
                    oldv[k],
                    id as int,
                );
            assert(false);
        }
        lemma_price_index_unique(oldv, price as int, i as int);
    }
    let mut lvl = levels.remove(i);
    let ghost lm = oldv[i as int];
    assert(lvl@ == lm);
    let en = lvl.orders.len();
    let mut j: usize = 0;
    while j < en && lvl.orders[j].order_id != id
        invariant
            0 <= j <= en,
            en == lvl.orders@.len(),
            lvl@ == lm,
            forall|k: int| 0 <= k < j ==> (#[trigger] lm.entries[k]).order_id != id,
        decreases en - j,
    {
        assert(lm.entries[j as int] == lvl.orders@[j as int]@);
        j += 1;
    }
    proof {
        if j == en {
            let k = choose|k: int|
                0 <= k < lm.entries.len() && (#[trigger] lm.entries[k]).order_id == id;
            assert(false);
        }
        lemma_entry_index_unique(lm.entries, id as int, j as int);
        assert(lm.entries[j as int] == lvl.orders@[j as int]@);
    }
    let mut entry = lvl.orders.remove(j);
    entry.filled = entry.filled + amount;
    lvl.orders.insert(j, entry);
    levels.insert(i, lvl);
    proof {
        assert(lvl@.entries =~~= lm.entries.update(
            j as int,
            EntryM { filled: lm.entries[j as int].filled + amount, ..lm.entries[j as int] },
        ));
        assert(side_view(levels@) =~~= levels_fill_at(oldv, i as int, j as int, amount as int));
    }
}

/// Membership-preserving surgery on one side keeps the whole-book index
/// correspondence.
pub(crate) proof fn lemma_index_wf_members(
    locations: Map<int, (OrderSide, int)>,
    oldbids: Seq<LevelM>,
    oldasks: Seq<LevelM>,
    newbids: Seq<LevelM>,
    newasks: Seq<LevelM>,
)
    requires
        index_wf(locations, oldbids, oldasks),
        forall|id: int, p: int|
            #![trigger side_has_at(newbids, id, p)]
            #![trigger side_has_at(oldbids, id, p)]
            side_has_at(newbids, id, p) <==> side_has_at(oldbids, id, p),
        forall|id: int, p: int|
            #![trigger side_has_at(newasks, id, p)]
            #![trigger side_has_at(oldasks, id, p)]
            side_has_at(newasks, id, p) <==> side_has_at(oldasks, id, p),
    ensures
        index_wf(locations, newbids, newasks),
{
    assert forall|id: int| #[trigger]
        locations.contains_key(id) implies index_entry_ok(
        locations[id],
        id,
        newbids,
        newasks,
    ) by {
        assert(index_entry_ok(locations[id], id, oldbids, oldasks));
        match locations[id].0 {
            OrderSide::Buy => {
                assert(side_has_at(oldbids, id, locations[id].1));
            }
            OrderSide::Sell => {
                assert(side_has_at(oldasks, id, locations[id].1));
            }
        }
    }
}

/// After a removal on one side plus the matching index erasure, the
/// whole-book index correspondence holds again.
pub(crate) proof fn lemma_remove_order_index_wf(
    oldb: BookM,
    newb: BookM,
    side: OrderSide,
    id: int,
    price: int,
)
    requires
        book_wf(oldb),
        oldb.locations.contains_key(id),
        oldb.locations[id] == (side, price),
        newb.locations == oldb.locations.remove(id),
        newb.bids == if side == OrderSide::Buy {
            newb.bids
        } else {
            oldb.bids
        },
        newb.asks == if side == OrderSide::Sell {
            newb.asks
        } else {
            oldb.asks
        },
        side == OrderSide::Buy ==> side_levels_wf(newb.bids, OrderSide::Buy) && (forall|
            oid: int,
            p: int,
        |
            #![trigger side_has_at(newb.bids, oid, p)]
            #![trigger side_has_at(oldb.bids, oid, p)]
            side_has_at(newb.bids, oid, p) <==> (side_has_at(oldb.bids, oid, p) && !(oid == id && p
                == price))),
        side == OrderSide::Sell ==> side_levels_wf(newb.asks, OrderSide::Sell) && (forall|
            oid: int,
            p: int,
        |
            #![trigger side_has_at(newb.asks, oid, p)]
            #![trigger side_has_at(oldb.asks, oid, p)]
            side_has_at(newb.asks, oid, p) <==> (side_has_at(oldb.asks, oid, p) && !(oid == id && p
                == price))),
    ensures
        book_wf(newb),
{
    assert forall|oid: int| #[trigger]
        newb.locations.contains_key(oid) implies index_entry_ok(
        newb.locations[oid],
        oid,
        newb.bids,
        newb.asks,
    ) by {
        assert(oid != id);
        assert(oldb.locations.contains_key(oid));
        assert(index_entry_ok(oldb.locations[oid], oid, oldb.bids, oldb.asks));
        match oldb.locations[oid].0 {
            OrderSide::Buy => {
                assert(side_has_at(oldb.bids, oid, oldb.locations[oid].1));
                assert(side_has_at(newb.bids, oid, oldb.locations[oid].1));
            }
            OrderSide::Sell => {
                assert(side_has_at(oldb.asks, oid, oldb.locations[oid].1));
                assert(side_has_at(newb.asks, oid, oldb.locations[oid].1));
            }
        }
    }
    assert forall|oid: int, p: int| #[trigger]
        side_has_at(newb.bids, oid, p) implies newb.locations.contains_key(oid)
        && newb.locations[oid] == (OrderSide::Buy, p) by {
        assert(side_has_at(oldb.bids, oid, p));
        assert(oldb.locations[oid] == (OrderSide::Buy, p));
        assert(oid != id) by {
            if oid == id {
                assert((OrderSide::Buy, p) == (side, price));
                if side == OrderSide::Buy {
                    assert(p == price);
                    assert(!side_has_at(newb.bids, oid, p));
                }
            }
        }
    }
    assert forall|oid: int, p: int| #[trigger]
        side_has_at(newb.asks, oid, p) implies newb.locations.contains_key(oid)
        && newb.locations[oid] == (OrderSide::Sell, p) by {
        assert(side_has_at(oldb.asks, oid, p));
        assert(oldb.locations[oid] == (OrderSide::Sell, p));
        assert(oid != id) by {
            if oid == id {
                assert((OrderSide::Sell, p) == (side, price));
                if side == OrderSide::Sell {
                    assert(p == price);
                    assert(!side_has_at(newb.asks, oid, p));
                }
            }
        }
    }
}

/// After an add on one side plus the matching index record, the whole-book
/// index correspondence holds again.
proof fn lemma_add_order_index_wf(oldb: BookM, newb: BookM, side: OrderSide, id: int, price: int)
    requires
        book_wf(oldb),
        !oldb.locations.contains_key(id),
        newb.locations == oldb.locations.insert(id, (side, price)),
        newb.bids == if side == OrderSide::Buy {
            newb.bids
        } else {
            oldb.bids
        },
        newb.asks == if side == OrderSide::Sell {
            newb.asks
        } else {
            oldb.asks
        },
        side == OrderSide::Buy ==> side_levels_wf(newb.bids, OrderSide::Buy) && side_add_members(
            oldb.bids,
            newb.bids,
            id,
            price,
        ),
        side == OrderSide::Sell ==> side_levels_wf(newb.asks, OrderSide::Sell) && side_add_members(
            oldb.asks,
            newb.asks,
            id,
            price,
        ),
    ensures
        book_wf(newb),
{
    assert forall|oid: int| #[trigger]
        newb.locations.contains_key(oid) implies index_entry_ok(
        newb.locations[oid],
        oid,
        newb.bids,
        newb.asks,
    ) by {
        if oid == id {
            assert(side_has_at(oldb.bids, id, price) || true);
            match side {
                OrderSide::Buy => {
                    assert(side_has_at(newb.bids, id, price));
                }
                OrderSide::Sell => {
                    assert(side_has_at(newb.asks, id, price));
                }
            }
        } else {
            assert(oldb.locations.contains_key(oid));
            assert(index_entry_ok(oldb.locations[oid], oid, oldb.bids, oldb.asks));
            match oldb.locations[oid].0 {
                OrderSide::Buy => {
                    assert(side_has_at(oldb.bids, oid, oldb.locations[oid].1));
                    if side == OrderSide::Buy {
                        assert(side_has_at(newb.bids, oid, oldb.locations[oid].1));
                    }
                }
                OrderSide::Sell => {
                    assert(side_has_at(oldb.asks, oid, oldb.locations[oid].1));
                    if side == OrderSide::Sell {
                        assert(side_has_at(newb.asks, oid, oldb.locations[oid].1));
                    }
                }
            }
        }
    }
    assert forall|oid: int, p: int| #[trigger]
        side_has_at(newb.bids, oid, p) implies newb.locations.contains_key(oid)
        && newb.locations[oid] == (OrderSide::Buy, p) by {
        if side == OrderSide::Buy {
            if side_has_at(oldb.bids, oid, p) {
                assert(oid != id);
            } else {
                assert(oid == id && p == price);
            }
        } else {
            assert(side_has_at(oldb.bids, oid, p));
            assert(oid != id);
        }
    }
    assert forall|oid: int, p: int| #[trigger]
        side_has_at(newb.asks, oid, p) implies newb.locations.contains_key(oid)
        && newb.locations[oid] == (OrderSide::Sell, p) by {
        if side == OrderSide::Sell {
            if side_has_at(oldb.asks, oid, p) {
                assert(oid != id);
            } else {
                assert(oid == id && p == price);
            }
        } else {
            assert(side_has_at(oldb.asks, oid, p));
            assert(oid != id);
        }
    }
}

impl Orderbook {
    /// Remove a resting order by identifier: the entry leaves its level, an
    /// emptied level leaves its side, and the id-index record is erased.
    /// `None` when the order is not in the book.
    pub fn remove_order(&mut self, order_id: u64) -> (r: Option<OrderEntry>)
        requires
            old(self).wf(),
        ensures
            final(self).wf(),
            book_uncrossed(old(self)@) ==> book_uncrossed(final(self)@),
            !old(self)@.locations.contains_key(order_id as int) ==> r is None && final(self)@
                == old(self)@,
            old(self)@.locations.contains_key(order_id as int) ==> ({
                let loc = old(self)@.locations[order_id as int];
                let oldside = if loc.0 == OrderSide::Buy {
                    old(self)@.bids
                } else {
                    old(self)@.asks
                };
                let i = level_index_of_price(oldside, loc.1);
                let j = entry_index_of_id(oldside[i].entries, order_id as int);
                &&& 0 <= i < oldside.len() && 0 <= j < oldside[i].entries.len()
                &&& r matches Some(e) && e@ == oldside[i].entries[j] && e@.order_id == order_id
                    as int
                &&& final(self)@ == (BookM {
                    bids: if loc.0 == OrderSide::Buy {
                        levels_take_at(old(self)@.bids, i, j)
                    } else {
                        old(self)@.bids
                    },
                    asks: if loc.0 == OrderSide::Sell {
                        levels_take_at(old(self)@.asks, i, j)
                    } else {
                        old(self)@.asks
                    },
                    locations: old(self)@.locations.remove(order_id as int),
                    ..old(self)@
                })
            }),
    {
        let ghost oldb = self@;
        let ghost id = order_id as int;
        match find_location(&self.order_locations, order_id) {
            None => {
                proof {
                    lemma_locs_map_contains(self.order_locations@, id);
                }
                None
            }
            Some(li) => {
                let loc = self.order_locations[li];
                proof {
                    lemma_locs_map_index(self.order_locations@, li as int);
                    assert(oldb.locations.contains_key(id));
                    assert(oldb.locations[id] == (loc.side, loc.price as int));
                    assert(index_entry_ok(oldb.locations[id], id, oldb.bids, oldb.asks));
                    lemma_locs_map_remove(self.order_locations@, li as int);
                }
                self.order_locations.remove(li);
                proof {
                    let s = self.order_locations@;
                    let so = old(self).order_locations@;
                    assert forall|a: int, b: int|
                        #![trigger s[a], s[b]]
                        0 <= a < b < s.len() implies s[a].order_id != s[b].order_id by {
                        let ao = if a < li { a } else { a + 1 as int };
                        let bo = if b < li { b } else { b + 1 as int };
                        assert(s[a] == so[ao] && s[b] == so[bo]);
                    }
                }
                let entry = match loc.side {
                    OrderSide::Buy => {
                        let e = side_take(&mut self.bids, OrderSide::Buy, loc.price, order_id);
                        proof {
                            lemma_levels_take_at_post(
                                oldb.bids,
                                OrderSide::Buy,
                                level_index_of_price(oldb.bids, loc.price as int),
                                entry_index_of_id(
                                    oldb.bids[level_index_of_price(oldb.bids, loc.price as int)].entries,
                                    id,
                                ),
                            );
                        }
                        e
                    }
                    OrderSide::Sell => {
                        let e = side_take(&mut self.asks, OrderSide::Sell, loc.price, order_id);
                        proof {
                            lemma_levels_take_at_post(
                                oldb.asks,
                                OrderSide::Sell,
                                level_index_of_price(oldb.asks, loc.price as int),
                                entry_index_of_id(
                                    oldb.asks[level_index_of_price(oldb.asks, loc.price as int)].entries,
                                    id,
                                ),
                            );
                        }
                        e
                    }
                };
                proof {
                    lemma_remove_order_index_wf(oldb, self@, loc.side, id, loc.price as int);
                    if book_uncrossed(oldb) {
                        lemma_take_at_keeps_best(
                            if loc.side == OrderSide::Buy {
                                oldb.bids
                            } else {
                                oldb.asks
                            },
                            loc.side,
                            level_index_of_price(
                                if loc.side == OrderSide::Buy {
                                    oldb.bids
                                } else {
                                    oldb.asks
                                },
                                loc.price as int,
                            ),
                            entry_index_of_id(
                                (if loc.side == OrderSide::Buy {
                                    oldb.bids
                                } else {
                                    oldb.asks
                                })[level_index_of_price(
                                    if loc.side == OrderSide::Buy {
                                        oldb.bids
                                    } else {
                                        oldb.asks
                                    },
                                    loc.price as int,
                                )].entries,
                                id,
                            ),
                        );
                    }
                }
                Some(entry)
            }
        }
    }

    /// Record `filled_amount` more fill against a resting order: the entry's
    /// counter grows in place, and an entry whose remaining size is exhausted
    /// leaves the book as `remove_order` would take it out. An order that is
    /// not in the book is left alone.
    pub fn update_order_fill(&mut self, order_id: u64, filled_amount: u64)
        requires
            old(self).wf(),
        ensures
            final(self).wf(),
            book_uncrossed(old(self)@) ==> book_uncrossed(final(self)@),
            !old(self)@.locations.contains_key(order_id as int) ==> final(self)@ == old(self)@,
            old(self)@.locations.contains_key(order_id as int) ==> ({
                let loc = old(self)@.locations[order_id as int];
                let oldside = if loc.0 == OrderSide::Buy {
                    old(self)@.bids
                } else {
                    old(self)@.asks
                };
                let i = level_index_of_price(oldside, loc.1);
                let j = entry_index_of_id(oldside[i].entries, order_id as int);
                if filled_amount < entry_m_remaining(oldside[i].entries[j]) {
                    final(self)@ == (BookM {
                        bids: if loc.0 == OrderSide::Buy {
                            levels_fill_at(old(self)@.bids, i, j, filled_amount as int)
                        } else {
                            old(self)@.bids
                        },
                        asks: if loc.0 == OrderSide::Sell {
                            levels_fill_at(old(self)@.asks, i, j, filled_amount as int)
                        } else {
                            old(self)@.asks
                        },
                        ..old(self)@
                    })
                } else {
                    final(self)@ == (BookM {
                        bids: if loc.0 == OrderSide::Buy {
                            levels_take_at(old(self)@.bids, i, j)
                        } else {
                            old(self)@.bids
                        },
                        asks: if loc.0 == OrderSide::Sell {
                            levels_take_at(old(self)@.asks, i, j)
                        } else {
                            old(self)@.asks
                        },
                        locations: old(self)@.locations.remove(order_id as int),
                        ..old(self)@
                    })
                }
            }),
    {
        let ghost oldb = self@;
        let ghost id = order_id as int;
        match find_location(&self.order_locations, order_id) {
            None => {
                proof {
                    lemma_locs_map_contains(self.order_locations@, id);
                }
            }
            Some(li) => {
                let loc = self.order_locations[li];
                proof {
                    lemma_locs_map_index(self.order_locations@, li as int);
                    assert(oldb.locations.contains_key(id));
                    assert(oldb.locations[id] == (loc.side, loc.price as int));
                    assert(index_entry_ok(oldb.locations[id], id, oldb.bids, oldb.asks));
                }
                let rem = match loc.side {
                    OrderSide::Buy => side_entry_remaining(
                        &self.bids,
                        OrderSide::Buy,
                        loc.price,
                        order_id,
                    ),
                    OrderSide::Sell => side_entry_remaining(
                        &self.asks,
                        OrderSide::Sell,
                        loc.price,
                        order_id,
                    ),
                };
                if filled_amount >= rem {
                    let _removed = self.remove_order(order_id);
                } else {
                    if filled_amount == 0 {
                        proof {
                            let oldside = if loc.side == OrderSide::Buy {
                                oldb.bids
                            } else {
                                oldb.asks
                            };
                            let i = level_index_of_price(oldside, loc.price as int);
                            let j = entry_index_of_id(oldside[i].entries, id);
                            assert(levels_fill_at(oldside, i, j, 0) =~~= oldside);
                        }
                    }
                    if filled_amount > 0 {
                        match loc.side {
                            OrderSide::Buy => {
                                proof {
                                    lemma_levels_fill_at_post(
                                        oldb.bids,
                                        OrderSide::Buy,
                                        level_index_of_price(oldb.bids, loc.price as int),
                                        entry_index_of_id(
                                            oldb.bids[level_index_of_price(
                                                oldb.bids,
                                                loc.price as int,
                                            )].entries,
                                            id,
                                        ),
                                        filled_amount as int,
                                    );
                                }
                                side_fill(
                                    &mut self.bids,
                                    OrderSide::Buy,
                                    loc.price,
                                    order_id,
                                    filled_amount,
                                );
                            }
                            OrderSide::Sell => {
                                proof {
                                    lemma_levels_fill_at_post(
                                        oldb.asks,
                                        OrderSide::Sell,
                                        level_index_of_price(oldb.asks, loc.price as int),
                                        entry_index_of_id(
                                            oldb.asks[level_index_of_price(
                                                oldb.asks,
                                                loc.price as int,
                                            )].entries,
                                            id,
                                        ),
                                        filled_amount as int,
                                    );
                                }
                                side_fill(
                                    &mut self.asks,
                                    OrderSide::Sell,
                                    loc.price,
                                    order_id,
                                    filled_amount,
                                );
                            }
                        }
                        proof {
                            lemma_index_wf_members(
                                oldb.locations,
                                oldb.bids,
                                oldb.asks,
                                self@.bids,
                                self@.asks,
                            );
                            assert(final(self)@ =~~= (BookM {
                                bids: if loc.side == OrderSide::Buy {
                                    levels_fill_at(
                                        oldb.bids,
                                        level_index_of_price(oldb.bids, loc.price as int),
                                        entry_index_of_id(
                                            oldb.bids[level_index_of_price(
                                                oldb.bids,
                                                loc.price as int,
                                            )].entries,
                                            id,
                                        ),
                                        filled_amount as int,
                                    )
                                } else {
                                    oldb.bids
                                },
                                asks: if loc.side == OrderSide::Sell {
                                    levels_fill_at(
                                        oldb.asks,
                                        level_index_of_price(oldb.asks, loc.price as int),
                                        entry_index_of_id(
                                            oldb.asks[level_index_of_price(
                                                oldb.asks,
                                                loc.price as int,
                                            )].entries,
                                            id,
                                        ),
                                        filled_amount as int,
                                    )
                                } else {
                                    oldb.asks
                                },
                                ..oldb
                            }));
                        }
                    }
                }
            }
        }
    }
}

/// Law: the id-index and the price levels report exactly the same orders —
/// an identifier is indexed precisely when an entry carrying it rests on
/// one of the book's sides.
pub proof fn lemma_index_matches_levels(b: BookM)
    requires
        book_wf(b),
    ensures
        forall|id: int| #[trigger]
            b.locations.contains_key(id) <==> (side_has_id(b.bids, id) || side_has_id(
                b.asks,
                id,
            )),
{
    assert forall|id: int| #[trigger]
        b.locations.contains_key(id) <==> (side_has_id(b.bids, id) || side_has_id(
        b.asks,
        id,
    )) by {
        if b.locations.contains_key(id) {
            assert(index_entry_ok(b.locations[id], id, b.bids, b.asks));
            match b.locations[id].0 {
                OrderSide::Buy => {
                    assert(side_has_at(b.bids, id, b.locations[id].1));
                    let k = choose|k: int|
                        0 <= k < b.bids.len() && (#[trigger] b.bids[k]).price == b.locations[id].1
                            && level_has_id(b.bids[k], id);
                    assert(side_has_id(b.bids, id));
                }
                OrderSide::Sell => {
                    assert(side_has_at(b.asks, id, b.locations[id].1));
                    let k = choose|k: int|
                        0 <= k < b.asks.len() && (#[trigger] b.asks[k]).price == b.locations[id].1
                            && level_has_id(b.asks[k], id);
                    assert(side_has_id(b.asks, id));
                }
            }
        }
        if side_has_id(b.bids, id) {
            let k = choose|k: int|
                0 <= k < b.bids.len() && level_has_id(#[trigger] b.bids[k], id);
            assert(side_has_at(b.bids, id, b.bids[k].price));
        }
        if side_has_id(b.asks, id) {
            let k = choose|k: int|
                0 <= k < b.asks.len() && level_has_id(#[trigger] b.asks[k], id);
            assert(side_has_at(b.asks, id, b.asks[k].price));
        }
    }
}

/// Law: adding an order and then removing it round-trips. The removal finds
/// exactly the entry the add put in, and the side is left identical to what
/// it was before the add.
pub proof fn lemma_add_remove_roundtrip(
    levels: Seq<LevelM>,
    side: OrderSide,
    price: int,
    e: EntryM,
)
    requires
        side_levels_wf(levels, side),
        entry_m_wf(e),
        forall|k: int| 0 <= k < levels.len() ==> !level_has_id(#[trigger] levels[k], e.order_id),
    ensures
        ({
            let added = levels_add(levels, side, price, e);
            let i = level_index_of_price(added, price);
            let j = entry_index_of_id(added[i].entries, e.order_id);
            &&& 0 <= i < added.len() && added[i].price == price
            &&& 0 <= j < added[i].entries.len() && added[i].entries[j] == e
            &&& levels_take_at(added, i, j) == levels
        }),
{
    let added = levels_add(levels, side, price, e);
    let ii = level_insert_index(levels, side, price);
    lemma_insert_index_bounds(levels, side, price);
    if ii < levels.len() && levels[ii].price == price {
        assert(added =~~= levels.update(ii, LevelM { price, entries: levels[ii].entries.push(e) }));
        assert forall|k: int| 0 <= k < ii implies (#[trigger] added[k]).price != price by {
            assert(added[k] == levels[k]);
            assert(price_before(side, levels[k].price, levels[ii].price));
        }
        lemma_price_index_unique(added, price, ii);
        let es = added[ii].entries;
        assert forall|k: int| 0 <= k < es.len() - 1 implies (#[trigger] es[k]).order_id
            != e.order_id by {
            assert(es[k] == levels[ii].entries[k]);
            if es[k].order_id == e.order_id {
                assert(level_has_id(levels[ii], e.order_id));
            }
        }
        assert(es.last() == e);
        lemma_entry_index_unique(es, e.order_id, es.len() - 1);
        let j = es.len() - 1;
        assert(es.len() >= 2);
        assert(levels_take_at(added, ii, j) =~~= levels) by {
            assert(es.remove(j) =~= levels[ii].entries);
        }
    } else {
        assert(added =~~= levels.insert(ii, LevelM { price, entries: seq![e] }));
        lemma_insert_index_char(levels, side, price);
        assert forall|k: int| 0 <= k < ii implies (#[trigger] added[k]).price != price by {
            assert(added[k] == levels[k]);
            assert(price_before(side, levels[k].price, price));
        }
        assert(added[ii].price == price);
        lemma_price_index_unique(added, price, ii);
        assert(added[ii].entries[0] == e);
        lemma_entry_index_unique(added[ii].entries, e.order_id, 0);
        assert(added[ii].entries.len() == 1);
        assert(levels_take_at(added, ii, 0) =~~= levels);
    }
}

/// The insert position always lies within the side.
pub proof fn lemma_insert_index_bounds(levels: Seq<LevelM>, side: OrderSide, price: int)
    ensures
        0 <= level_insert_index(levels, side, price) <= levels.len(),
    decreases levels.len(),
{
    if levels.len() > 0 && price_before(side, levels[0].price, price) {
        lemma_insert_index_bounds(levels.drop_first(), side, price);
    }
}

/// What the insert position means: everything ahead of it comes before the
/// price, and the level at the position (if any) does not.
pub proof fn lemma_insert_index_char(levels: Seq<LevelM>, side: OrderSide, price: int)
    ensures
        0 <= level_insert_index(levels, side, price) <= levels.len(),
        forall|k: int|
            0 <= k < level_insert_index(levels, side, price) ==> price_before(
                side,
                (#[trigger] levels[k]).price,
                price,
            ),
        level_insert_index(levels, side, price) < levels.len() ==> !price_before(
            side,
            levels[level_insert_index(levels, side, price)].price,
            price,
        ),
    decreases levels.len(),
{
    if levels.len() > 0 && price_before(side, levels[0].price, price) {
        lemma_insert_index_char(levels.drop_first(), side, price);
        let ii = level_insert_index(levels, side, price);
        assert forall|k: int| 0 <= k < ii implies price_before(
            side,
            (#[trigger] levels[k]).price,
            price,
        ) by {
            if k > 0 {
                assert(levels.drop_first()[k - 1] == levels[k]);
                assert(price_before(side, levels.drop_first()[k - 1].price, price));
            }
        }
        if ii < levels.len() {
            assert(levels.drop_first()[ii - 1] == levels[ii]);
        }
    }
}

/// A removal never worsens the top of a side towards the other: the
/// surviving best price is the old best, or one strictly further from the
/// middle of the book.
proof fn lemma_take_at_keeps_best(levels: Seq<LevelM>, side: OrderSide, i: int, j: int)
    requires
        side_levels_wf(levels, side),
        0 <= i < levels.len(),
        0 <= j < levels[i].entries.len(),
    ensures
        ({
            let newl = levels_take_at(levels, i, j);
            newl.len() > 0 ==> (newl[0].price == levels[0].price || price_before(
                side,
                levels[0].price,
                newl[0].price,
            ))
        }),
{
    let newl = levels_take_at(levels, i, j);
    if newl.len() > 0 {
        if levels[i].entries.len() == 1 {
            if i == 0 {
                assert(newl[0] == levels[1]);
            } else {
                assert(newl[0] == levels[0]);
            }
        } else {
            if i == 0 {
                assert(newl[0].price == levels[0].price);
            } else {
                assert(newl[0] == levels[0]);
            }
        }
    }
}

/// Whether some book for `market_id` is held.
pub open spec fn has_market(books: Seq<Orderbook>, market_id: int) -> bool {
    exists|i: int| 0 <= i < books.len() && (#[trigger] books[i]).market_id == market_id
}

/// First index holding the book for `market_id`, or the length.
pub open spec fn book_index_of(books: Seq<Orderbook>, market_id: int) -> int
    decreases books.len(),
{
    if books.len() == 0 {
        0
    } else if books[0].market_id == market_id {
        0
    } else {
        1 + book_index_of(books.drop_first(), market_id)
    }
}

/// The book position is pinned down by what a linear scan observes.
pub proof fn lemma_book_index_unique(books: Seq<Orderbook>, market_id: int, i: int)
    requires
        0 <= i <= books.len(),
        forall|k: int| 0 <= k < i ==> (#[trigger] books[k]).market_id != market_id,
        i < books.len() ==> books[i].market_id == market_id,
    ensures
        book_index_of(books, market_id) == i,
    decreases books.len(),
{
    if books.len() > 0 && books[0].market_id != market_id {
        assert(i != 0);
        assert(forall|k: int|
            0 <= k < i - 1 ==> (#[trigger] books.drop_first()[k]).market_id != market_id);
        lemma_book_index_unique(books.drop_first(), market_id, i - 1);
    }
}

/// Holds every market's book; creates a book lazily on first reference.
#[derive(Debug)]
pub struct OrderbookManager {
    pub books: Vec<Orderbook>,
}

impl OrderbookManager {
    /// Every held book keeps its invariant, and markets do not repeat.
    pub open spec fn wf(self) -> bool {
        &&& forall|i: int| 0 <= i < self.books@.len() ==> (#[trigger] self.books@[i]).wf()
        &&& forall|i: int, j: int|
            #![trigger self.books@[i], self.books@[j]]
            0 <= i < j < self.books@.len() ==> self.books@[i].market_id
                != self.books@[j].market_id
    }

    pub fn new() -> (r: OrderbookManager)
        ensures
            r.wf(),
            r.books@.len() == 0,
    {
        OrderbookManager { books: Vec::new() }
    }

    /// Read-only access to one market's book.
    pub fn get(&self, market_id: u128) -> (r: Option<&Orderbook>)
        ensures
            match r {
                Some(b) => has_market(self.books@, market_id as int) && *b == self.books@[
                    book_index_of(self.books@, market_id as int)
                ] && b.market_id == market_id,
                None => !has_market(self.books@, market_id as int),
            },
    {
        let n = self.books.len();
        let mut i: usize = 0;
        while i < n && self.books[i].market_id != market_id
            invariant
                0 <= i <= n,
                n == self.books@.len(),
                forall|k: int| 0 <= k < i ==> (#[trigger] self.books@[k]).market_id != market_id,
            decreases n - i,
        {
            i += 1;
        }
        proof {
            lemma_book_index_unique(self.books@, market_id as int, i as int);
        }
        if i < n {
            Some(&self.books[i])
        } else {
            proof {
                if has_market(self.books@, market_id as int) {
                    let k = choose|k: int|
                        0 <= k < self.books@.len() && (#[trigger] self.books@[k]).market_id
                            == market_id;
                    assert(false);
                }
            }
            None
        }
    }

    /// Exclusive access to one market's book, creating an empty book on the
    /// first reference to its market.
    pub fn get_or_create(&mut self, market_id: u128) -> (r: &mut Orderbook)
        requires
            old(self).wf(),
        ensures
            has_market(old(self).books@, market_id as int) ==> {
                let i = book_index_of(old(self).books@, market_id as int);
                &&& *r == old(self).books@[i]
                &&& final(self).books@ == old(self).books@.update(i, *final(r))
            },
            !has_market(old(self).books@, market_id as int) ==> {
                &&& r.wf()
                &&& (*r)@.market_id == market_id as int
                &&& (*r)@.bids.len() == 0
                &&& (*r)@.asks.len() == 0
                &&& (*r)@.locations == Map::<int, (OrderSide, int)>::empty()
                &&& (*r)@.last_price is None
                &&& final(self).books@ == old(self).books@.push(*final(r))
            },
            r.market_id == market_id,
    {
        let n = self.books.len();
        let mut i: usize = 0;
        while i < n && self.books[i].market_id != market_id
            invariant
                0 <= i <= n,
                self.books@ == old(self).books@,
                n == self.books@.len(),
                forall|k: int| 0 <= k < i ==> (#[trigger] self.books@[k]).market_id != market_id,
            decreases n - i,
        {
            i += 1;
        }
        proof {
            lemma_book_index_unique(self.books@, market_id as int, i as int);
            if i == n && has_market(self.books@, market_id as int) {
                let k = choose|k: int|
                    0 <= k < self.books@.len() && (#[trigger] self.books@[k]).market_id
                        == market_id;
                assert(false);
            }
        }
        if i == n {
            self.books.push(Orderbook::new(market_id));
            proof {
                assert(self.books@.update(n as int, self.books@[n as int]) =~= self.books@);
            }
        }
        vstd::std_specs::vec::vec_index_mut(&mut self.books, i)
    }
}

/// Remaining size of the resting entry for `id` at `price` on one side.
#[verifier::loop_isolation(false)]
fn side_entry_remaining(levels: &Vec<PriceLevel>, side: OrderSide, price: u64, id: u64) -> (r: u64)
    requires
        side_levels_wf(side_view(levels@), side),
        side_has_at(side_view(levels@), id as int, price as int),
    ensures
        ({
            let v = side_view(levels@);
            let i = level_index_of_price(v, price as int);
            let j = entry_index_of_id(v[i].entries, id as int);
            &&& 0 <= i < v.len() && 0 <= j < v[i].entries.len()
            &&& r == entry_m_remaining(v[i].entries[j])
            &&& r > 0
        }),
{
    let ghost v = side_view(levels@);
    let n = levels.len();
    let mut i: usize = 0;
    while i < n && levels[i].price != price
        invariant
            0 <= i <= n,
            forall|k: int| 0 <= k < i ==> (#[trigger] v[k]).price != price,
        decreases n - i,
    {
        assert(v[i as int].price == levels@[i as int]@.price);
        i += 1;
    }
    proof {
        if i == n {
            let k = choose|k: int|
                0 <= k < v.len() && (#[trigger] v[k]).price == price && level_has_id(
                    v[k],
                    id as int,
                );
            assert(false);
        }
        lemma_price_index_unique(v, price as int, i as int);
        let kk = choose|kk: int|
            0 <= kk < v.len() && (#[trigger] v[kk]).price == price && level_has_id(
                v[kk],
                id as int,
            );
        if kk != i as int {
            if kk > i as int {
                assert(price_before(side, v[i as int].price, v[kk].price));
            }
            assert(false);
        }
        assert(level_has_id(v[i as int], id as int));
    }
    let ghost lm = v[i as int];
    let en = levels[i].orders.len();
    let mut j: usize = 0;
    while j < en && levels[i].orders[j].order_id != id
        invariant
            0 <= j <= en,
            i < levels@.len(),
            en == levels@[i as int].orders@.len(),
            lm == v[i as int],
            forall|k: int| 0 <= k < j ==> (#[trigger] lm.entries[k]).order_id != id,
        decreases en - j,
    {
        assert(lm.entries[j as int] == levels@[i as int].orders@[j as int]@);
        j += 1;
    }
    proof {
        if j == en {
            let k = choose|k: int|
                0 <= k < lm.entries.len() && (#[trigger] lm.entries[k]).order_id == id;
            assert(false);
        }
        lemma_entry_index_unique(lm.entries, id as int, j as int);
        assert(lm.entries[j as int] == levels@[i as int].orders@[j as int]@);
        assert(level_m_wf(lm));
        assert(entry_m_wf(lm.entries[j as int]));
    }
    let e_size = levels[i].orders[j].size;
    let e_filled = levels[i].orders[j].filled;
    e_size - e_filled
}

} // verus!
