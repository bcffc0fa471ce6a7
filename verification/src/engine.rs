//! The match engine: a registry of markets, each with its order book, the
//! allocator of order identifiers, the table of order snapshots, the policy
//! that keeps books from crossing, and the counters of what was matched.

use crate::accounting::{
    accounted, lemma_empty_engine_accounted, lemma_limit_keeps_accounted,
    lemma_market_added_keeps_accounted, lemma_market_keeps_accounted,
};
use crate::book_model::crossing;
use crate::messages::{
    capacity_message, capacity_text, crossing_message, crossing_text, insufficient_message,
    insufficient_text, limit_accepted_message, limit_accepted_text, market_filled_message,
    market_filled_text, pair_name, qty_digits, qty_text, tick_digits, tick_text,
    unknown_market_message, unknown_market_text,
};
use crate::order::{BidOrAsk, Fill, Order, OrderId, Qty, RestingOrder};
use crate::orderbook::{
    book_after_limit, book_after_market, market_fills, market_report, FillReport, OrderBook,
};
use crate::pair::TradingPair;
use crate::snapshot::{
    all_conserved, conserved, fills_applied, has_order, lemma_fills_applied, lemma_upserted,
    orders_of, position, unique_ids, upserted, EngineStats, OrderResponse, OrderSnapshot,
    OrderStatus, OrderTable, OrderType, SnapshotView,
};
use crate::tick::{price_to_tick, tick_of, Price, Tick};
use vstd::prelude::*;

verus! {

/// The place of a market in the registry.
pub type MarketId = usize;

/// A market's name as plain text: base and quote.
pub type PairName = (Seq<char>, Seq<char>);

/// Why the engine turned an order away.
#[derive(Clone, Copy, Debug, PartialEq, Eq, Structural)]
pub enum EngineError {
    /// The order names a market that is not registered.
    UnknownMarket,
    /// The limit order would cross the best opposing price.
    CrossingLimit,
    /// The order's side cannot account for more volume.
    CapacityExceeded,
}

/// Whether `pair` is registered in `pairs`.
pub open spec fn is_registered(pairs: Seq<PairName>, pair: PairName) -> bool {
    exists|i: int| 0 <= i < pairs.len() && #[trigger] pairs[i] == pair
}

/// The place of `pair` in `pairs`.
pub open spec fn market_of(pairs: Seq<PairName>, pair: PairName) -> int {
    choose|i: int| 0 <= i < pairs.len() && #[trigger] pairs[i] == pair
}

/// Whether no market is registered twice.
pub open spec fn distinct_pairs(pairs: Seq<PairName>) -> bool {
    forall|i: int, j: int| 0 <= i < j < pairs.len() ==> #[trigger] pairs[i] != #[trigger] pairs[j]
}

/// The identifier an order goes by: its own, or the next free one where it has
/// none.
pub open spec fn assigned_id(order_id: OrderId, next: OrderId) -> OrderId {
    if order_id == 0 {
        next
    } else {
        order_id
    }
}

/// The next free identifier once an order has been given its own: one more
/// where the order took the free one, never past the largest.
pub open spec fn next_after(order_id: OrderId, next: OrderId) -> OrderId {
    if order_id == 0 && next < u64::MAX {
        (next + 1) as OrderId
    } else {
        next
    }
}

/// The user an order is booked under: `"unknown"` where it names none.
pub open spec fn user_or_unknown(user: Seq<char>) -> Seq<char> {
    if user.len() == 0 {
        "unknown"@
    } else {
        user
    }
}

/// The snapshot of a limit order that has come to rest.
pub open spec fn limit_snapshot(
    id: OrderId,
    user: Seq<char>,
    pair: PairName,
    side: BidOrAsk,
    tick: Tick,
    size: Qty,
) -> SnapshotView {
    SnapshotView {
        id,
        user_id: user,
        pair,
        side,
        order_type: OrderType::Limit,
        price: Some(tick),
        original_size: size,
        remaining_size: size,
        filled_size: 0,
        status: OrderStatus::Open,
    }
}

/// The final status of a market order: filled where nothing is left,
/// rejected where nothing was matched, partially filled otherwise.
pub open spec fn market_status(report: FillReport) -> OrderStatus {
    if report.fully_filled {
        OrderStatus::Filled
    } else if report.filled_qty == 0 {
        OrderStatus::Rejected
    } else {
        OrderStatus::PartiallyFilled
    }
}

/// The snapshot of a market order after matching.
pub open spec fn market_snapshot(
    id: OrderId,
    user: Seq<char>,
    pair: PairName,
    side: BidOrAsk,
    size: Qty,
    report: FillReport,
) -> SnapshotView {
    SnapshotView {
        id,
        user_id: user,
        pair,
        side,
        order_type: OrderType::Market,
        price: None,
        original_size: size,
        remaining_size: report.remaining_qty,
        filled_size: report.filled_qty,
        status: market_status(report),
    }
}

/// The sum of two counters, held at the largest value once it is reached.
pub open spec fn saturating_sum(a: u64, b: u64) -> u64 {
    if a + b > u64::MAX {
        u64::MAX
    } else {
        (a + b) as u64
    }
}

/// The counters after a market order with the given report.
pub open spec fn stats_after(stats: EngineStats, report: FillReport) -> EngineStats {
    EngineStats {
        fills_total: saturating_sum(stats.fills_total, report.fills_total),
        resting_orders_consumed_total: saturating_sum(
            stats.resting_orders_consumed_total,
            report.resting_orders_consumed,
        ),
        levels_crossed_total: saturating_sum(stats.levels_crossed_total, report.levels_crossed),
        total_matched_qty: saturating_sum(stats.total_matched_qty, report.total_matched_qty),
    }
}

/// Why a limit order at `tick` is turned away from `book`, if it is: a
/// crossing order first, then one that its side cannot account for.
pub open spec fn limit_verdict(book: OrderBook, side: BidOrAsk, tick: Tick, size: Qty) -> Option<
    EngineError,
> {
    if crossing(book.side(side.spec_opposite()), side, tick) {
        Some(EngineError::CrossingLimit)
    } else if book.capacity(side) + size > u64::MAX {
        Some(EngineError::CapacityExceeded)
    } else {
        None
    }
}

/// Gives an order its identifier: its own, or the next free one, which is
/// then used up. Identifiers do not go past the largest.
fn allocate_id(next: &mut OrderId, order_id: OrderId) -> (id: OrderId)
    ensures
        id == assigned_id(order_id, *old(next)),
        *final(next) == next_after(order_id, *old(next)),
{
    if order_id == 0 {
        let id = *next;
        if id < u64::MAX {
            *next = id + 1;
        }
        id
    } else {
        order_id
    }
}

/// The user an order is booked under: `"unknown"` where it names none.
fn booked_user(user: String) -> (r: String)
    ensures
        r@ == user_or_unknown(user@),
{
    if user.as_str().is_empty() {
        "unknown".to_string()
    } else {
        user
    }
}

/// `a + b`, held at the largest value.
fn add_saturating(a: u64, b: u64) -> (r: u64)
    ensures
        r == saturating_sum(a, b),
{
    if b > u64::MAX - a {
        u64::MAX
    } else {
        a + b
    }
}

/// A multi-market matching engine.
#[derive(Debug)]
pub struct MatchEngine {
    markets: Vec<TradingPair>,
    orderbooks: Vec<OrderBook>,
    orders: OrderTable,
    next_order_id: OrderId,
    stats: EngineStats,
}

impl MatchEngine {
    /// The registered markets, in registration order.
    pub closed spec fn pairs(&self) -> Seq<PairName> {
        self.markets@.map_values(|p: TradingPair| p@)
    }

    /// The order books, each at the place of its market.
    pub closed spec fn books(&self) -> Seq<OrderBook> {
        self.orderbooks@
    }

    /// The snapshots of every order seen, in the order they were first seen.
    pub closed spec fn snapshots(&self) -> Seq<SnapshotView> {
        self.orders@
    }

    /// The next free order identifier.
    pub closed spec fn next_id(&self) -> OrderId {
        self.next_order_id
    }

    /// The counters.
    pub closed spec fn spec_stats(&self) -> EngineStats {
        self.stats
    }

    /// Whether the snapshot table's index leads to every snapshot.
    pub closed spec fn index_ok(&self) -> bool {
        self.orders.index_ok()
    }

    /// The engine's invariant: every market has its book and no market is
    /// registered twice; every book keeps its own invariant; there is one
    /// snapshot per order, each of them conserved; and the next free
    /// identifier is not the one that means "unassigned".
    pub open spec fn wf(&self) -> bool {
        &&& self.index_ok()
        &&& self.pairs().len() == self.books().len()
        &&& distinct_pairs(self.pairs())
        &&& forall|i: int| 0 <= i < self.books().len() ==> (#[trigger] self.books()[i]).wf()
        &&& unique_ids(self.snapshots())
        &&& all_conserved(self.snapshots())
        &&& self.next_id() >= 1
    }

    /// An engine with no market and no order.
    pub fn new() -> (engine: MatchEngine)
        ensures
            engine.wf(),
            engine.pairs() == Seq::<PairName>::empty(),
            engine.books() == Seq::<OrderBook>::empty(),
            engine.snapshots() == Seq::<SnapshotView>::empty(),
            engine.next_id() == 1,
            engine.spec_stats() == (EngineStats {
                fills_total: 0,
                resting_orders_consumed_total: 0,
                levels_crossed_total: 0,
                total_matched_qty: 0,
            }),
            accounted(engine),
    {
        let engine = MatchEngine {
            markets: Vec::new(),
            orderbooks: Vec::new(),
            orders: OrderTable::new(),
            next_order_id: 1,
            stats: EngineStats {
                fills_total: 0,
                resting_orders_consumed_total: 0,
                levels_crossed_total: 0,
                total_matched_qty: 0,
            },
        };
        proof {
            assert(engine.pairs() =~= Seq::<PairName>::empty());
            lemma_empty_engine_accounted(engine);
        }
        engine
    }

    /// Among distinct pairs, a pair's market is where the pair is found.
    pub proof fn lemma_market_of(pairs: Seq<PairName>, i: int)
        requires
            distinct_pairs(pairs),
            0 <= i < pairs.len(),
        ensures
            is_registered(pairs, pairs[i]),
            market_of(pairs, pairs[i]) == i,
    {
        let j = market_of(pairs, pairs[i]);
        assert(0 <= j < pairs.len() && pairs[j] == pairs[i]);
        if j < i {
            assert(pairs[j] != pairs[i]);
        } else if i < j {
            assert(pairs[i] != pairs[j]);
        }
    }

    /// The market registered under `pair`, if there is one.
    pub fn find_market(&self, pair: &TradingPair) -> (r: Option<MarketId>)
        requires
            self.wf(),
        ensures
            r is Some <==> is_registered(self.pairs(), pair@),
            r is Some ==> r->0 == market_of(self.pairs(), pair@) && r->0 < self.books().len(),
    {
        let n: usize = self.markets.len();
        let mut i: usize = 0;
        while i < n
            invariant
                n == self.markets@.len(),
                i <= n,
                self.wf(),
                forall|j: int| 0 <= j < i ==> #[trigger] self.pairs()[j] != pair@,
            decreases n - i,
        {
            if self.markets[i].same_as(pair) {
                proof {
                    assert(self.pairs()[i as int] == pair@);
                    Self::lemma_market_of(self.pairs(), i as int);
                }
                return Some(i);
            }
            i = i + 1;
        }
        None
    }

    /// Registers a market with an empty book and returns its place. A pair
    /// that is registered already keeps its market, and nothing changes.
    pub fn add_new_market(&mut self, pair: TradingPair) -> (id: MarketId)
        requires
            old(self).wf(),
        ensures
            final(self).wf(),
            is_registered(final(self).pairs(), pair@),
            id == market_of(final(self).pairs(), pair@),
            is_registered(old(self).pairs(), pair@) ==> *final(self) == *old(self),
            accounted(*old(self)) ==> accounted(*final(self)),
            !is_registered(old(self).pairs(), pair@) ==> {
                &&& id == old(self).pairs().len()
                &&& final(self).pairs() == old(self).pairs().push(pair@)
                &&& final(self).books().len() == old(self).books().len() + 1
                &&& forall|j: int|
                    0 <= j < old(self).books().len() ==> (#[trigger] final(self).books()[j])
                        == old(self).books()[j]
                &&& final(self).books()[id as int].side(BidOrAsk::Ask) == Map::<
                    Tick,
                    Seq<RestingOrder>,
                >::empty()
                &&& final(self).books()[id as int].side(BidOrAsk::Bid) == Map::<
                    Tick,
                    Seq<RestingOrder>,
                >::empty()
                &&& final(self).books()[id as int].capacity(BidOrAsk::Ask) == 0
                &&& final(self).books()[id as int].capacity(BidOrAsk::Bid) == 0
                &&& final(self).snapshots() == old(self).snapshots()
                &&& final(self).next_id() == old(self).next_id()
                &&& final(self).spec_stats() == old(self).spec_stats()
            },
    {
        match self.find_market(&pair) {
            Some(id) => id,
            None => {
                let id = self.markets.len();
                let ghost name = pair@;
                self.markets.push(pair);
                self.orderbooks.push(OrderBook::new());
                proof {
                    assert(self.pairs() =~= old(self).pairs().push(name));
                    assert forall|i: int, j: int| 0 <= i < j < self.pairs().len() implies (
                    #[trigger] self.pairs()[i]) != (#[trigger] self.pairs()[j]) by {
                        assert(self.pairs()[i] == old(self).pairs()[i]);
                        if j < id {
                            assert(self.pairs()[j] == old(self).pairs()[j]);
                        }
                    }
                    assert(self.pairs()[id as int] == name);
                    Self::lemma_market_of(self.pairs(), id as int);
                    assert forall|i: int| 0 <= i < self.books().len() implies (
                    #[trigger] self.books()[i]).wf() by {
                        if i < id {
                            assert(self.books()[i] == old(self).books()[i]);
                        }
                    }
                    if accounted(*old(self)) {
                        lemma_market_added_keeps_accounted(*old(self), *self);
                    }
                }
                id
            },
        }
    }

    /// The snapshot of the order `id`, if the engine has seen it.
    pub fn get_order(&self, id: OrderId) -> (r: Option<&OrderSnapshot>)
        requires
            self.wf(),
        ensures
            r is Some <==> has_order(self.snapshots(), id),
            r is Some ==> r->0@ == self.snapshots()[position(self.snapshots(), id)] && conserved(
                r->0@,
            ),
    {
        let r = self.orders.get(id);
        proof {
            if r is Some {
                let p = position(self.snapshots(), id);
                assert(0 <= p < self.snapshots().len() && self.snapshots()[p].id == id);
            }
        }
        r
    }

    /// The snapshots of the orders that `user` placed, in the order they were
    /// first seen.
    pub fn get_orders_for_user(&self, user: &str) -> (r: Vec<OrderSnapshot>)
        requires
            self.wf(),
        ensures
            r@.map_values(|s: OrderSnapshot| s@) == orders_of(self.snapshots(), user@),
    {
        self.orders.for_user(user)
    }

    /// The book of the market registered under `pair`, if there is one.
    pub fn get_limits_for_a_pair(&self, pair: &TradingPair) -> (r: Option<&OrderBook>)
        requires
            self.wf(),
        ensures
            r is Some <==> is_registered(self.pairs(), pair@),
            r is Some ==> *r->0 == self.books()[market_of(self.pairs(), pair@)] && r->0.wf(),
    {
        match self.find_market(pair) {
            Some(id) => Some(&self.orderbooks[id]),
            None => None,
        }
    }

    /// The registered pairs, in registration order.
    pub fn get_orderbooks(&self) -> (r: Vec<TradingPair>)
        ensures
            r@.map_values(|p: TradingPair| p@) == self.pairs(),
    {
        let mut out: Vec<TradingPair> = Vec::new();
        let n: usize = self.markets.len();
        let mut i: usize = 0;
        while i < n
            invariant
                n == self.markets@.len(),
                i <= n,
                out@.map_values(|p: TradingPair| p@) == self.pairs().subrange(0, i as int),
            decreases n - i,
        {
            let ghost before = out@;
            let copy = self.markets[i].clone();
            assert(copy@ == self.pairs()[i as int]);
            out.push(copy);
            i = i + 1;
            assert(out@.map_values(|p: TradingPair| p@) =~= before.map_values(
                |p: TradingPair| p@,
            ).push(copy@));
            assert(out@.map_values(|p: TradingPair| p@) =~= self.pairs().subrange(0, i as int));
        }
        assert(self.pairs().subrange(0, n as int) =~= self.pairs());
        out
    }

    /// What placing the limit order `order` at `tick` in the market
    /// `market_id` makes of the engine `self`: the order rests in its book
    /// under its identifier, its snapshot is open, and nothing else changes.
    pub open spec fn limit_placed(
        &self,
        after: MatchEngine,
        market_id: MarketId,
        tick: Tick,
        order: Order,
    ) -> bool {
        let id = assigned_id(order.id, self.next_id());
        &&& after.pairs() == self.pairs()
        &&& after.books().len() == self.books().len()
        &&& forall|j: int|
            0 <= j < self.books().len() && j != market_id ==> (#[trigger] after.books()[j])
                == self.books()[j]
        &&& book_after_limit(
            self.books()[market_id as int],
            after.books()[market_id as int],
            order.bid_or_ask,
            tick,
            id,
            order.size,
        )
        &&& after.snapshots() == upserted(
            self.snapshots(),
            limit_snapshot(
                id,
                user_or_unknown(order.user_id@),
                self.pairs()[market_id as int],
                order.bid_or_ask,
                tick,
                order.size,
            ),
        )
        &&& after.next_id() == next_after(order.id, self.next_id())
        &&& after.spec_stats() == self.spec_stats()
    }

    /// Places a limit order at `tick` in the market `market_id`.
    ///
    /// An order that would cross the best opposing price is turned away, and
    /// so is one whose side cannot account for its size; the engine is then
    /// unchanged. Otherwise the order gets its identifier and rests, and its
    /// snapshot is open.
    pub fn place_limit_order_raw_by_id_tick(
        &mut self,
        market_id: MarketId,
        tick: Tick,
        order: Order,
    ) -> (r: Result<OrderId, EngineError>)
        requires
            old(self).wf(),
        ensures
            final(self).wf(),
            market_id >= old(self).books().len() ==> r == Err::<OrderId, EngineError>(
                EngineError::UnknownMarket,
            ),
            market_id < old(self).books().len() ==> match limit_verdict(
                old(self).books()[market_id as int],
                order.bid_or_ask,
                tick,
                order.size,
            ) {
                Some(e) => r == Err::<OrderId, EngineError>(e),
                None => r == Ok::<OrderId, EngineError>(
                    assigned_id(order.id, old(self).next_id()),
                ),
            },
            r is Err ==> *final(self) == *old(self),
            r is Ok ==> old(self).limit_placed(*final(self), market_id, tick, order),
            accounted(*old(self)) && order.id == 0 && old(self).next_id() < u64::MAX ==> accounted(
                *final(self),
            ),
    {
        if market_id >= self.orderbooks.len() {
            return Err(EngineError::UnknownMarket);
        }
        let ghost placed = order;
        let side = order.bid_or_ask;
        let size = order.size;
        let ghost book0 = self.orderbooks@[market_id as int];
        assert(book0 == self.books()[market_id as int] && book0.wf());
        if self.orderbooks[market_id].crosses(tick, side) {
            return Err(EngineError::CrossingLimit);
        }
        let capacity: Qty = match side {
            BidOrAsk::Ask => self.orderbooks[market_id].ask_capacity(),
            BidOrAsk::Bid => self.orderbooks[market_id].bid_capacity(),
        };
        if size > u64::MAX - capacity {
            return Err(EngineError::CapacityExceeded);
        }
        let id = allocate_id(&mut self.next_order_id, order.id);
        let user = booked_user(order.user_id);
        let pair = self.markets[market_id].clone();
        assert(pair@ == self.pairs()[market_id as int]);
        let resting = Order { id, user_id: String::new(), size, bid_or_ask: side };
        self.orderbooks[market_id].add_limit_order(tick, resting);
        let snapshot = OrderSnapshot {
            id,
            user_id: user,
            pair,
            side,
            order_type: OrderType::Limit,
            price: Some(tick),
            original_size: size,
            remaining_size: size,
            filled_size: 0,
            status: OrderStatus::Open,
        };
        proof {
            lemma_upserted(self.snapshots(), snapshot@);
        }
        self.orders.upsert(snapshot);
        proof {
            assert forall|i: int| 0 <= i < self.books().len() implies (
            #[trigger] self.books()[i]).wf() by {
                if i != market_id {
                    assert(self.books()[i] == old(self).books()[i]);
                }
            }
            if accounted(*old(self)) && placed.id == 0 && old(self).next_id() < u64::MAX {
                lemma_limit_keeps_accounted(*old(self), *self, market_id, tick, placed);
            }
        }
        Ok(id)
    }

    /// What matching the market order `order` in the market `market_id` makes
    /// of the engine `self`: the book is swept or left alone, every fill is
    /// recorded in the snapshot of its resting order, the market order's own
    /// snapshot is put in with its final status, and the counters take up the
    /// report.
    pub open spec fn market_filled(
        &self,
        after: MatchEngine,
        market_id: MarketId,
        order: Order,
    ) -> bool {
        let id = assigned_id(order.id, self.next_id());
        let book = self.books()[market_id as int];
        let report = market_report(book, order.bid_or_ask, order.size);
        &&& after.pairs() == self.pairs()
        &&& after.books().len() == self.books().len()
        &&& forall|j: int|
            0 <= j < self.books().len() && j != market_id ==> (#[trigger] after.books()[j])
                == self.books()[j]
        &&& book_after_market(book, after.books()[market_id as int], order.bid_or_ask, order.size)
        &&& after.snapshots() == upserted(
            fills_applied(self.snapshots(), market_fills(book, order.bid_or_ask, order.size)),
            market_snapshot(
                id,
                user_or_unknown(order.user_id@),
                self.pairs()[market_id as int],
                order.bid_or_ask,
                order.size,
                report,
            ),
        )
        &&& after.next_id() == next_after(order.id, self.next_id())
        &&& after.spec_stats() == stats_after(self.spec_stats(), report)
    }

    /// Matches a market order in the registered market `market_id`.
    fn fill_in_market(&mut self, market_id: MarketId, order: &mut Order) -> (report: FillReport)
        requires
            old(self).wf(),
            market_id < old(self).books().len(),
        ensures
            final(self).wf(),
            report == market_report(
                old(self).books()[market_id as int],
                old(order).bid_or_ask,
                old(order).size,
            ),
            old(self).market_filled(*final(self), market_id, *old(order)),
            accounted(*old(self)) && old(order).id == 0 && old(self).next_id() < u64::MAX && old(
                self,
            ).spec_stats().total_matched_qty + old(order).size <= u64::MAX ==> accounted(
                *final(self),
            ),
            final(order).id == assigned_id(old(order).id, old(self).next_id()),
            final(order).user_id@ == user_or_unknown(old(order).user_id@),
            final(order).bid_or_ask == old(order).bid_or_ask,
            final(order).size == report.remaining_qty,
    {
        let ghost book0 = self.orderbooks@[market_id as int];
        let ghost table0 = self.snapshots();
        assert(book0 == self.books()[market_id as int] && book0.wf());
        let id = allocate_id(&mut self.next_order_id, order.id);
        order.id = id;
        if order.user_id.as_str().is_empty() {
            order.user_id = "unknown".to_string();
        }
        let size = order.size;
        let side = order.bid_or_ask;
        let mut fills: Vec<Fill> = Vec::new();
        let report = self.orderbooks[market_id].match_market(order, &mut fills);
        proof {
            assert(fills@ =~= market_fills(book0, side, size));
            lemma_fills_applied(table0, fills@);
        }
        self.orders.apply_fills(&fills);
        self.stats = EngineStats {
            fills_total: add_saturating(self.stats.fills_total, report.fills_total),
            resting_orders_consumed_total: add_saturating(
                self.stats.resting_orders_consumed_total,
                report.resting_orders_consumed,
            ),
            levels_crossed_total: add_saturating(
                self.stats.levels_crossed_total,
                report.levels_crossed,
            ),
            total_matched_qty: add_saturating(
                self.stats.total_matched_qty,
                report.total_matched_qty,
            ),
        };
        let pair = self.markets[market_id].clone();
        assert(pair@ == self.pairs()[market_id as int]);
        let status = if report.fully_filled {
            OrderStatus::Filled
        } else if report.filled_qty == 0 {
            OrderStatus::Rejected
        } else {
            OrderStatus::PartiallyFilled
        };
        let snapshot = OrderSnapshot {
            id,
            user_id: order.user_id.clone(),
            pair,
            side,
            order_type: OrderType::Market,
            price: None,
            original_size: size,
            remaining_size: report.remaining_qty,
            filled_size: report.filled_qty,
            status,
        };
        proof {
            lemma_upserted(self.snapshots(), snapshot@);
        }
        self.orders.upsert(snapshot);
        proof {
            assert forall|i: int| 0 <= i < self.books().len() implies (
            #[trigger] self.books()[i]).wf() by {
                if i != market_id {
                    assert(self.books()[i] == old(self).books()[i]);
                }
            }
            if accounted(*old(self)) && old(order).id == 0 && old(self).next_id() < u64::MAX
                && old(self).spec_stats().total_matched_qty + old(order).size <= u64::MAX {
                lemma_market_keeps_accounted(*old(self), *self, market_id, *old(order));
            }
        }
        report
    }

    /// Matches a market order in the market `market_id`.
    ///
    /// The order gets its identifier and its user, and what is left of it
    /// stays in `order.size`. An order that the opposing side cannot fill
    /// whole is reported as such and takes nothing.
    pub fn fill_market_order_raw_by_id(&mut self, market_id: MarketId, order: &mut Order) -> (r:
        Result<FillReport, EngineError>)
        requires
            old(self).wf(),
        ensures
            final(self).wf(),
            accounted(*old(self)) && old(order).id == 0 && old(self).next_id() < u64::MAX && old(
                self,
            ).spec_stats().total_matched_qty + old(order).size <= u64::MAX ==> accounted(
                *final(self),
            ),
            market_id >= old(self).books().len() ==> {
                &&& r == Err::<FillReport, EngineError>(EngineError::UnknownMarket)
                &&& *final(self) == *old(self)
                &&& *final(order) == *old(order)
            },
            market_id < old(self).books().len() ==> {
                &&& r == Ok::<FillReport, EngineError>(
                    market_report(
                        old(self).books()[market_id as int],
                        old(order).bid_or_ask,
                        old(order).size,
                    ),
                )
                &&& old(self).market_filled(*final(self), market_id, *old(order))
                &&& final(order).id == assigned_id(old(order).id, old(self).next_id())
                &&& final(order).user_id@ == user_or_unknown(old(order).user_id@)
                &&& final(order).bid_or_ask == old(order).bid_or_ask
                &&& final(order).size == r->Ok_0.remaining_qty
            },
    {
        if market_id >= self.orderbooks.len() {
            return Err(EngineError::UnknownMarket);
        }
        Ok(self.fill_in_market(market_id, order))
    }

    /// Places a limit order at the decimal `price` in the market `pair`.
    ///
    /// The price is brought to its tick. The order is turned away, with the
    /// engine unchanged, where the market is not registered, where the order
    /// would cross the best opposing price, and where its side cannot account
    /// for its size. Otherwise it rests, and the response carries its open
    /// snapshot.
    pub fn place_limit_order(&mut self, pair: &TradingPair, price: Price, order: Order) -> (r:
        Result<OrderResponse, String>)
        requires
            old(self).wf(),
        ensures
            final(self).wf(),
            accounted(*old(self)) && order.id == 0 && old(self).next_id() < u64::MAX ==> accounted(
                *final(self),
            ),
            r is Err ==> *final(self) == *old(self),
            !is_registered(old(self).pairs(), pair@) ==> r is Err && r->Err_0@
                == unknown_market_message(pair_name(pair@.0, pair@.1)),
            is_registered(old(self).pairs(), pair@) ==> ({
                let market = market_of(old(self).pairs(), pair@);
                let tick = tick_of(price.spec_mantissa(), price.spec_scale()) as Tick;
                let side = order.bid_or_ask;
                let name = pair_name(pair@.0, pair@.1);
                match limit_verdict(old(self).books()[market], side, tick, order.size) {
                    Some(EngineError::CapacityExceeded) => r is Err && r->Err_0@
                        == capacity_message(side, qty_digits(order.size), name),
                    Some(_) => r is Err && r->Err_0@ == crossing_message(side, tick_digits(tick)),
                    None => {
                        &&& r is Ok
                        &&& r->Ok_0.order@ == limit_snapshot(
                            assigned_id(order.id, old(self).next_id()),
                            user_or_unknown(order.user_id@),
                            pair@,
                            side,
                            tick,
                            order.size,
                        )
                        &&& r->Ok_0.message@ == limit_accepted_message(
                            side,
                            qty_digits(order.size),
                            name,
                            tick_digits(tick),
                        )
                        &&& old(self).limit_placed(*final(self), market as MarketId, tick, order)
                    },
                }
            }),
    {
        let name = pair.to_string();
        let market = match self.find_market(pair) {
            Some(m) => m,
            None => {
                return Err(unknown_market_text(name.as_str()));
            },
        };
        let tick = price_to_tick(price);
        let side = order.bid_or_ask;
        let size = order.size;
        proof {
            let v = limit_snapshot(
                assigned_id(order.id, self.next_id()),
                user_or_unknown(order.user_id@),
                self.pairs()[market as int],
                side,
                tick,
                size,
            );
            lemma_upserted(self.snapshots(), v);
        }
        match self.place_limit_order_raw_by_id_tick(market, tick, order) {
            Ok(id) => {
                let snapshot = self.orders.get(id).unwrap().clone();
                let message = limit_accepted_text(
                    side,
                    qty_text(size).as_str(),
                    name.as_str(),
                    tick_text(tick).as_str(),
                );
                Ok(OrderResponse { order: snapshot, message })
            },
            Err(EngineError::CapacityExceeded) => Err(
                capacity_text(side, qty_text(size).as_str(), name.as_str()),
            ),
            Err(_) => Err(crossing_text(side, tick_text(tick).as_str())),
        }
    }

    /// Matches a market order in the market `pair`.
    ///
    /// Where the market is not registered the order is turned away and
    /// nothing changes. Otherwise the response carries the order's snapshot:
    /// filled, or rejected where the opposing side cannot fill it whole.
    pub fn fill_market_order(&mut self, pair: &TradingPair, order: &mut Order) -> (r: Result<
        OrderResponse,
        String,
    >)
        requires
            old(self).wf(),
        ensures
            final(self).wf(),
            accounted(*old(self)) && old(order).id == 0 && old(self).next_id() < u64::MAX && old(
                self,
            ).spec_stats().total_matched_qty + old(order).size <= u64::MAX ==> accounted(
                *final(self),
            ),
            !is_registered(old(self).pairs(), pair@) ==> {
                &&& r is Err
                &&& r->Err_0@ == unknown_market_message(pair_name(pair@.0, pair@.1))
                &&& *final(self) == *old(self)
                &&& *final(order) == *old(order)
            },
            is_registered(old(self).pairs(), pair@) ==> ({
                let market = market_of(old(self).pairs(), pair@);
                let side = old(order).bid_or_ask;
                let report = market_report(old(self).books()[market], side, old(order).size);
                &&& r is Ok
                &&& r->Ok_0.order@ == market_snapshot(
                    assigned_id(old(order).id, old(self).next_id()),
                    user_or_unknown(old(order).user_id@),
                    pair@,
                    side,
                    old(order).size,
                    report,
                )
                &&& r->Ok_0.message@ == if report.insufficient_liquidity {
                    insufficient_message(side)
                } else {
                    market_filled_message(qty_digits(report.filled_qty), side)
                }
                &&& old(self).market_filled(*final(self), market as MarketId, *old(order))
                &&& final(order).id == assigned_id(old(order).id, old(self).next_id())
                &&& final(order).user_id@ == user_or_unknown(old(order).user_id@)
                &&& final(order).bid_or_ask == side
                &&& final(order).size == report.remaining_qty
            }),
    {
        let name = pair.to_string();
        let market = match self.find_market(pair) {
            Some(m) => m,
            None => {
                return Err(unknown_market_text(name.as_str()));
            },
        };
        let side = order.bid_or_ask;
        proof {
            let book = self.books()[market as int];
            let v = market_snapshot(
                assigned_id(order.id, self.next_id()),
                user_or_unknown(order.user_id@),
                self.pairs()[market as int],
                side,
                order.size,
                market_report(book, side, order.size),
            );
            let table = fills_applied(self.snapshots(), market_fills(book, side, order.size));
            lemma_fills_applied(self.snapshots(), market_fills(book, side, order.size));
            lemma_upserted(table, v);
        }
        let report = self.fill_in_market(market, order);
        let snapshot = self.orders.get(order.id).unwrap().clone();
        let message = if report.insufficient_liquidity {
            insufficient_text(side)
        } else {
            market_filled_text(qty_text(report.filled_qty).as_str(), side)
        };
        Ok(OrderResponse { order: snapshot, message })
    }

    /// The counters accumulated since the engine was made or last reset.
    pub fn stats(&self) -> (r: EngineStats)
        ensures
            r == self.spec_stats(),
    {
        self.stats
    }

    /// Sets every counter back to zero. Nothing else changes.
    pub fn reset_stats(&mut self)
        requires
            old(self).wf(),
        ensures
            final(self).wf(),
            final(self).spec_stats() == (EngineStats {
                fills_total: 0,
                resting_orders_consumed_total: 0,
                levels_crossed_total: 0,
                total_matched_qty: 0,
            }),
            final(self).pairs() == old(self).pairs(),
            final(self).books() == old(self).books(),
            final(self).snapshots() == old(self).snapshots(),
            final(self).next_id() == old(self).next_id(),
    {
        self.stats = EngineStats {
            fills_total: 0,
            resting_orders_consumed_total: 0,
            levels_crossed_total: 0,
            total_matched_qty: 0,
        };
    }
}

/// Conservation: for every order a well-formed engine has seen, the original
/// size is what remains plus what was filled.
pub proof fn lemma_conservation(engine: MatchEngine, i: int)
    requires
        engine.wf(),
        0 <= i < engine.snapshots().len(),
    ensures
        engine.snapshots()[i].original_size == engine.snapshots()[i].remaining_size
            + engine.snapshots()[i].filled_size,
{
}

} // verus!
