//! Accounting by order identifier: what rests in the books under an
//! identifier, what a sweep takes from it, and how the snapshots keep up.
//!
//! The end of it is snapshot consistency: in an engine whose orders all took
//! the engine's own identifiers, and whose counters were neither reset nor
//! held at their largest value, the filled sizes of all snapshots add up to
//! twice the matched quantity, since every match is recorded on both of its
//! sides.

use crate::book_model::{
    ahead, has_level, lemma_rank_bounds, lemma_rank_price, price_at, queue_at, rank, rank_high,
    rank_low, reach, side_after, side_ok, side_with, sweep_before, volume_before, Levels,
};
use crate::engine::{limit_snapshot, market_snapshot, user_or_unknown, MarketId, MatchEngine};
use crate::limit::{fill_total, fills_of, lemma_match_properties, rest_after};
use crate::order::{BidOrAsk, Fill, Order, OrderId, RestingOrder};
use crate::orderbook::{market_fills, market_report, OrderBook};
use crate::snapshot::{
    after_fill, all_conserved, conserved, fill_applied, fills_applied, has_order,
    lemma_fill_applied, lemma_fills_applied, lemma_position, position, unique_ids, upserted,
    SnapshotView,
};
use crate::tick::Tick;
use vstd::prelude::*;

verus! {

/// The quantity in `q` that rests under the identifier `id`.
pub open spec fn volume_of(q: Seq<RestingOrder>, id: OrderId) -> nat
    decreases q.len(),
{
    if q.len() == 0 {
        0
    } else {
        (if q[0].id == id {
            q[0].qty as nat
        } else {
            0
        }) + volume_of(q.drop_first(), id)
    }
}

/// The quantity that the fills in `f` take from the identifier `id`.
pub open spec fn fill_total_of(f: Seq<Fill>, id: OrderId) -> nat
    decreases f.len(),
{
    if f.len() == 0 {
        0
    } else {
        (if f[0].order_id == id {
            f[0].qty as nat
        } else {
            0
        }) + fill_total_of(f.drop_first(), id)
    }
}

/// The quantity that rests under `id` at prices of rank below `r`.
pub open spec fn volume_before_of(m: Levels, side: BidOrAsk, r: int, id: OrderId) -> nat
    decreases r - rank_low(),
{
    if r <= rank_low() {
        0
    } else {
        volume_before_of(m, side, r - 1, id) + volume_of(queue_at(m, price_at(side, r - 1)), id)
    }
}

/// The quantity that rests under `id` on a whole side.
pub open spec fn side_volume_of(m: Levels, side: BidOrAsk, id: OrderId) -> nat {
    volume_before_of(m, side, rank_high(), id)
}

/// Fills of two runs add up, in all and by identifier.
pub proof fn lemma_fill_total_concat(a: Seq<Fill>, b: Seq<Fill>, id: OrderId)
    ensures
        fill_total(a + b) == fill_total(a) + fill_total(b),
        fill_total_of(a + b, id) == fill_total_of(a, id) + fill_total_of(b, id),
    decreases a.len(),
{
    if a.len() == 0 {
        assert(a + b =~= b);
    } else {
        lemma_fill_total_concat(a.drop_first(), b, id);
        assert((a + b).drop_first() =~= a.drop_first() + b);
        assert((a + b)[0] == a[0]);
    }
}

/// Appending an order adds its quantity under its own identifier.
pub proof fn lemma_volume_of_push(q: Seq<RestingOrder>, r: RestingOrder, id: OrderId)
    ensures
        volume_of(q.push(r), id) == volume_of(q, id) + if r.id == id {
            r.qty as nat
        } else {
            0
        },
    decreases q.len(),
{
    if q.len() == 0 {
        assert(q.push(r).drop_first() =~= Seq::<RestingOrder>::empty());
        assert(volume_of(q.push(r).drop_first(), id) == 0);
    } else {
        lemma_volume_of_push(q.drop_first(), r, id);
        assert(q.push(r).drop_first() =~= q.drop_first().push(r));
    }
}

/// What a match takes from an identifier and what it leaves of it make up
/// what rested under it.
pub proof fn lemma_match_by_id(q: Seq<RestingOrder>, amount: nat, id: OrderId)
    ensures
        fill_total_of(fills_of(q, amount), id) + volume_of(rest_after(q, amount), id) == volume_of(
            q,
            id,
        ),
    decreases q.len(),
{
    let f = fills_of(q, amount);
    let rest = rest_after(q, amount);
    if amount == 0 || q.len() == 0 {
    } else if amount >= q[0].qty {
        let t = q.drop_first();
        let a = (amount - q[0].qty) as nat;
        lemma_match_by_id(t, a, id);
        assert(f[0] == Fill { order_id: q[0].id, qty: q[0].qty });
        assert(f.drop_first() =~= fills_of(t, a));
    } else {
        assert(f[0] == Fill { order_id: q[0].id, qty: amount as u64 });
        assert(f.drop_first() =~= Seq::<Fill>::empty());
        assert(fill_total_of(f.drop_first(), id) == 0);
        assert(rest[0] == RestingOrder { id: q[0].id, qty: (q[0].qty - amount) as u64 });
        assert(rest.drop_first() =~= q.drop_first());
    }
}

/// Two sides that differ at most at the price `k` rest the same under an
/// identifier before any rank, up to the difference at `k`.
pub proof fn lemma_volume_before_of_update(
    m1: Levels,
    m2: Levels,
    side: BidOrAsk,
    k: Tick,
    r: int,
    id: OrderId,
)
    requires
        forall|p: int| p != k ==> queue_at(m1, p) == queue_at(m2, p),
    ensures
        rank(side, k as int) < r ==> volume_before_of(m2, side, r, id) + volume_of(
            queue_at(m1, k as int),
            id,
        ) == volume_before_of(m1, side, r, id) + volume_of(queue_at(m2, k as int), id),
        rank(side, k as int) >= r ==> volume_before_of(m2, side, r, id) == volume_before_of(
            m1,
            side,
            r,
            id,
        ),
    decreases r - rank_low(),
{
    if r <= rank_low() {
        lemma_rank_bounds(side, k);
    } else {
        lemma_volume_before_of_update(m1, m2, side, k, r - 1, id);
        lemma_rank_price(side, r - 1);
        lemma_rank_price(side, k as int);
        let p = price_at(side, r - 1);
        if p != k {
            assert(queue_at(m1, p) == queue_at(m2, p));
        }
    }
}

/// A side without levels rests nothing.
pub proof fn lemma_empty_side_of(side: BidOrAsk, r: int, id: OrderId)
    ensures
        volume_before_of(Map::<Tick, Seq<RestingOrder>>::empty(), side, r, id) == 0,
    decreases r - rank_low(),
{
    if r > rank_low() {
        lemma_empty_side_of(side, r - 1, id);
    }
}

/// Resting a new order adds its quantity under its own identifier.
pub proof fn lemma_side_with_by_id(
    m: Levels,
    side: BidOrAsk,
    price: Tick,
    order_id: OrderId,
    qty: u64,
    id: OrderId,
)
    ensures
        side_volume_of(side_with(m, price, order_id, qty), side, id) == side_volume_of(m, side, id)
            + if order_id == id {
            qty as nat
        } else {
            0
        },
{
    let r = RestingOrder { id: order_id, qty };
    let q = queue_at(m, price as int);
    let m2 = side_with(m, price, order_id, qty);
    lemma_volume_of_push(q, r, id);
    assert forall|p: int| p != price implies queue_at(m, p) == queue_at(m2, p) by {}
    assert(queue_at(m2, price as int) == q.push(r));
    lemma_volume_before_of_update(m, m2, side, price, rank_high(), id);
    lemma_rank_bounds(side, price);
}

/// What a sweep takes from an identifier and what it leaves of it make up
/// what rested under it, before any rank.
pub proof fn lemma_sweep_by_id(m: Levels, side: BidOrAsk, amount: nat, r: int, id: OrderId)
    requires
        side_ok(m),
    ensures
        fill_total_of(sweep_before(m, side, r, amount).fills, id) + volume_before_of(
            side_after(m, side, amount),
            side,
            r,
            id,
        ) == volume_before_of(m, side, r, id),
    decreases r - rank_low(),
{
    if r > rank_low() {
        lemma_sweep_by_id(m, side, amount, r - 1, id);
        let s = side_after(m, side, amount);
        let p = price_at(side, r - 1);
        lemma_rank_price(side, r - 1);
        let prev = sweep_before(m, side, r - 1, amount);
        let q = queue_at(m, p);
        let a = reach(amount, volume_before(m, side, r - 1));
        lemma_fill_total_concat(prev.fills, fills_of(q, a), id);
        lemma_match_by_id(q, a, id);
        if has_level(m, p) {
            let t = p as Tick;
            assert(ahead(m, side, t) == volume_before(m, side, r - 1));
            lemma_match_properties(q, a);
            if s.contains_key(t) {
                assert(queue_at(s, p) == rest_after(q, a));
            } else {
                assert(queue_at(s, p).len() == 0);
                assert(rest_after(q, a).len() == 0);
                assert(queue_at(s, p) =~= rest_after(q, a));
            }
        } else {
            assert(!has_level(s, p));
            assert(queue_at(s, p) =~= rest_after(q, a));
        }
    }
}

/// The fills of a sweep add up to what the order can take: its size, or all
/// the volume before the rank, whichever is less.
pub proof fn lemma_sweep_total(m: Levels, side: BidOrAsk, amount: nat, r: int)
    requires
        side_ok(m),
    ensures
        fill_total(sweep_before(m, side, r, amount).fills) == if amount <= volume_before(
            m,
            side,
            r,
        ) {
            amount
        } else {
            volume_before(m, side, r)
        },
    decreases r - rank_low(),
{
    if r > rank_low() {
        lemma_sweep_total(m, side, amount, r - 1);
        let p = price_at(side, r - 1);
        let prev = sweep_before(m, side, r - 1, amount);
        let q = queue_at(m, p);
        let a = reach(amount, volume_before(m, side, r - 1));
        lemma_fill_total_concat(prev.fills, fills_of(q, a), 0);
        if has_level(m, p) {
            assert(m.contains_key(p as Tick));
            lemma_match_properties(q, a);
        } else {
            assert(fills_of(q, a) =~= Seq::<Fill>::empty());
        }
    } else {
        assert(sweep_before(m, side, r, amount).fills =~= Seq::<Fill>::empty());
    }
}

/// The filled sizes of all snapshots, added up.
pub open spec fn total_filled(orders: Seq<SnapshotView>) -> nat
    decreases orders.len(),
{
    if orders.len() == 0 {
        0
    } else {
        total_filled(orders.drop_last()) + orders.last().filled_size as nat
    }
}

/// What the snapshot of the order `id` says is left of it; nothing where
/// there is no such snapshot.
pub open spec fn remaining_of(orders: Seq<SnapshotView>, id: OrderId) -> nat {
    if has_order(orders, id) {
        orders[position(orders, id)].remaining_size as nat
    } else {
        0
    }
}

/// The quantity that rests under `id` in a book, on both of its sides.
pub open spec fn book_resting(book: OrderBook, id: OrderId) -> nat {
    side_volume_of(book.side(BidOrAsk::Ask), BidOrAsk::Ask, id) + side_volume_of(
        book.side(BidOrAsk::Bid),
        BidOrAsk::Bid,
        id,
    )
}

/// The quantity that rests under `id` in all of `books`.
pub open spec fn resting(books: Seq<OrderBook>, id: OrderId) -> nat
    decreases books.len(),
{
    if books.len() == 0 {
        0
    } else {
        resting(books.drop_last(), id) + book_resting(books.last(), id)
    }
}

/// Whether the snapshots of an engine keep up with its books and counters:
/// no more rests under an identifier than its snapshot says is left; every
/// identifier seen is below the next free one; and the filled sizes of all
/// snapshots add up to twice the matched quantity.
pub open spec fn accounted(engine: MatchEngine) -> bool {
    &&& forall|id: OrderId| #[trigger]
        resting(engine.books(), id) <= remaining_of(engine.snapshots(), id)
    &&& forall|i: int|
        0 <= i < engine.snapshots().len() ==> (#[trigger] engine.snapshots()[i]).id
            < engine.next_id()
    &&& total_filled(engine.snapshots()) == 2 * engine.spec_stats().total_matched_qty
}

/// Replacing one snapshot changes the sum of filled sizes by the difference.
pub proof fn lemma_total_filled_update(orders: Seq<SnapshotView>, i: int, v: SnapshotView)
    requires
        0 <= i < orders.len(),
    ensures
        total_filled(orders.update(i, v)) + orders[i].filled_size == total_filled(orders)
            + v.filled_size,
    decreases orders.len(),
{
    let next = orders.update(i, v);
    if i == orders.len() - 1 {
        assert(next.drop_last() =~= orders.drop_last());
    } else {
        lemma_total_filled_update(orders.drop_last(), i, v);
        assert(next.drop_last() =~= orders.drop_last().update(i, v));
    }
}

/// Snapshots with the same identifiers in the same places are found in the
/// same places.
pub proof fn lemma_same_ids(a: Seq<SnapshotView>, b: Seq<SnapshotView>)
    requires
        unique_ids(a),
        a.len() == b.len(),
        forall|i: int| 0 <= i < a.len() ==> (#[trigger] b[i]).id == a[i].id,
    ensures
        unique_ids(b),
        forall|id: OrderId| has_order(b, id) == has_order(a, id),
        forall|id: OrderId| has_order(a, id) ==> position(b, id) == position(a, id),
{
    assert forall|i: int, j: int| 0 <= i < j < b.len() implies (#[trigger] b[i]).id != (
    #[trigger] b[j]).id by {
        assert(a[i].id != a[j].id);
    }
    assert forall|id: OrderId| has_order(b, id) == has_order(a, id) by {
        if has_order(a, id) {
            let p = position(a, id);
            assert(0 <= p < a.len() && a[p].id == id);
            assert(b[p].id == id);
        }
        if has_order(b, id) {
            let p = position(b, id);
            assert(0 <= p < b.len() && b[p].id == id);
            assert(a[p].id == id);
        }
    }
    assert forall|id: OrderId| has_order(a, id) implies position(b, id) == position(a, id) by {
        let p = position(a, id);
        assert(0 <= p < a.len() && a[p].id == id);
        assert(b[p].id == id);
        lemma_position(b, p);
    }
}

/// Where no fill asks more of a snapshot than it has left, recording the
/// fills takes from every snapshot exactly what its fills add up to, and adds
/// all of it to the filled sizes.
pub proof fn lemma_fill_accounting(orders: Seq<SnapshotView>, fills: Seq<Fill>)
    requires
        unique_ids(orders),
        all_conserved(orders),
        forall|id: OrderId| #[trigger] fill_total_of(fills, id) <= remaining_of(orders, id),
    ensures
        forall|id: OrderId|
            remaining_of(fills_applied(orders, fills), id) == remaining_of(orders, id)
                - #[trigger] fill_total_of(fills, id),
        total_filled(fills_applied(orders, fills)) == total_filled(orders) + fill_total(fills),
    decreases fills.len(),
{
    if fills.len() > 0 {
        let f = fills[0];
        let rest = fills.drop_first();
        let next = fill_applied(orders, f);
        lemma_fill_applied(orders, f);
        lemma_same_ids(orders, next);
        assert(fill_total_of(fills, f.order_id) <= remaining_of(orders, f.order_id));
        if has_order(orders, f.order_id) {
            let p = position(orders, f.order_id);
            assert(0 <= p < orders.len() && orders[p].id == f.order_id);
            assert(conserved(orders[p]));
            assert(next[p] == after_fill(orders[p], f.qty));
            lemma_total_filled_update(orders, p, after_fill(orders[p], f.qty));
            assert forall|id: OrderId| #[trigger]
                fill_total_of(rest, id) <= remaining_of(next, id) && remaining_of(next, id)
                    == remaining_of(orders, id) - (if f.order_id == id {
                    f.qty as nat
                } else {
                    0
                }) by {
                assert(fill_total_of(fills, id) <= remaining_of(orders, id));
                if has_order(orders, id) {
                    let i = position(orders, id);
                    assert(0 <= i < orders.len() && orders[i].id == id);
                    if id != f.order_id {
                        assert(next[i] == orders[i]);
                    }
                }
            }
        } else {
            assert(next == orders);
            assert forall|id: OrderId| #[trigger]
                fill_total_of(rest, id) <= remaining_of(next, id) && remaining_of(next, id)
                    == remaining_of(orders, id) - (if f.order_id == id {
                    f.qty as nat
                } else {
                    0
                }) by {
                assert(fill_total_of(fills, id) <= remaining_of(orders, id));
            }
        }
        lemma_fill_accounting(next, rest);
        assert forall|id: OrderId|
            remaining_of(fills_applied(orders, fills), id) == remaining_of(orders, id)
                - #[trigger] fill_total_of(fills, id) by {
            assert(fill_total_of(rest, id) <= remaining_of(next, id));
            assert(remaining_of(fills_applied(next, rest), id) == remaining_of(next, id)
                - fill_total_of(rest, id));
        }
    }
}

/// Putting in the snapshot of an order not seen before adds it at the end:
/// every other snapshot stays where it is, and the filled sizes grow by
/// its own.
pub proof fn lemma_push_fresh(orders: Seq<SnapshotView>, v: SnapshotView)
    requires
        unique_ids(orders),
        !has_order(orders, v.id),
    ensures
        upserted(orders, v) == orders.push(v),
        unique_ids(orders.push(v)),
        remaining_of(orders.push(v), v.id) == v.remaining_size,
        forall|id: OrderId|
            id != v.id ==> #[trigger] remaining_of(orders.push(v), id) == remaining_of(orders, id),
        total_filled(orders.push(v)) == total_filled(orders) + v.filled_size,
{
    let next = orders.push(v);
    let n = orders.len() as int;
    assert(next.drop_last() =~= orders);
    assert forall|i: int, j: int| 0 <= i < j < next.len() implies (#[trigger] next[i]).id != (
    #[trigger] next[j]).id by {
        assert(next[i] == orders[i]);
        if j == n {
            assert(orders[i].id != v.id);
        } else {
            assert(next[j] == orders[j]);
        }
    }
    assert(next[n] == v);
    lemma_position(next, n);
    assert forall|id: OrderId| id != v.id implies #[trigger] remaining_of(next, id)
        == remaining_of(orders, id) by {
        if has_order(orders, id) {
            let i = position(orders, id);
            assert(0 <= i < orders.len() && orders[i].id == id);
            assert(next[i] == orders[i]);
            lemma_position(next, i);
        }
        if has_order(next, id) {
            let i = position(next, id);
            assert(0 <= i < next.len() && next[i].id == id);
            assert(i != n);
            assert(orders[i].id == id);
        }
    }
}

/// Replacing one book changes what rests under an identifier by the
/// difference between the two books.
pub proof fn lemma_resting_update(books: Seq<OrderBook>, j: int, book: OrderBook, id: OrderId)
    requires
        0 <= j < books.len(),
    ensures
        resting(books.update(j, book), id) + book_resting(books[j], id) == resting(books, id)
            + book_resting(book, id),
        book_resting(books[j], id) <= resting(books, id),
    decreases books.len(),
{
    let next = books.update(j, book);
    if j == books.len() - 1 {
        assert(next.drop_last() =~= books.drop_last());
    } else {
        lemma_resting_update(books.drop_last(), j, book, id);
        assert(next.drop_last() =~= books.drop_last().update(j, book));
    }
}

/// An engine without markets and orders, and with nothing matched, is accounted.
pub proof fn lemma_empty_engine_accounted(engine: MatchEngine)
    requires
        engine.books() == Seq::<OrderBook>::empty(),
        engine.snapshots() == Seq::<SnapshotView>::empty(),
        engine.spec_stats().total_matched_qty == 0,
    ensures
        accounted(engine),
{
}

/// Registering a market with an empty book keeps an engine accounted.
pub proof fn lemma_market_added_keeps_accounted(before: MatchEngine, after: MatchEngine)
    requires
        accounted(before),
        after.books().len() == before.books().len() + 1,
        forall|j: int|
            0 <= j < before.books().len() ==> (#[trigger] after.books()[j]) == before.books()[j],
        after.books().last().side(BidOrAsk::Ask) == Map::<Tick, Seq<RestingOrder>>::empty(),
        after.books().last().side(BidOrAsk::Bid) == Map::<Tick, Seq<RestingOrder>>::empty(),
        after.snapshots() == before.snapshots(),
        after.next_id() == before.next_id(),
        after.spec_stats() == before.spec_stats(),
    ensures
        accounted(after),
{
    assert(after.books().drop_last() =~= before.books());
    assert forall|id: OrderId| #[trigger]
        resting(after.books(), id) <= remaining_of(after.snapshots(), id) by {
        lemma_empty_side_of(BidOrAsk::Ask, rank_high(), id);
        lemma_empty_side_of(BidOrAsk::Bid, rank_high(), id);
        assert(resting(before.books(), id) <= remaining_of(before.snapshots(), id));
    }
}

/// Placing a limit order that takes the engine's next identifier keeps the
/// engine accounted.
pub proof fn lemma_limit_keeps_accounted(
    before: MatchEngine,
    after: MatchEngine,
    market_id: MarketId,
    tick: Tick,
    order: Order,
)
    requires
        before.wf(),
        accounted(before),
        market_id < before.books().len(),
        order.id == 0,
        before.next_id() < u64::MAX,
        before.limit_placed(after, market_id, tick, order),
    ensures
        accounted(after),
{
    let id0 = before.next_id();
    let side = order.bid_or_ask;
    let orders = before.snapshots();
    let v = limit_snapshot(
        id0,
        user_or_unknown(order.user_id@),
        before.pairs()[market_id as int],
        side,
        tick,
        order.size,
    );
    let b0 = before.books()[market_id as int];
    let b1 = after.books()[market_id as int];
    assert(!has_order(orders, id0)) by {
        if has_order(orders, id0) {
            let p = position(orders, id0);
            assert(0 <= p < orders.len() && orders[p].id == id0);
        }
    }
    lemma_push_fresh(orders, v);
    assert(after.books() =~= before.books().update(market_id as int, b1));
    assert forall|id: OrderId| #[trigger]
        resting(after.books(), id) <= remaining_of(after.snapshots(), id) by {
        lemma_resting_update(before.books(), market_id as int, b1, id);
        assert(resting(before.books(), id) <= remaining_of(orders, id));
        if order.size > 0 {
            lemma_side_with_by_id(b0.side(side), side, tick, id0, order.size, id);
        }
        if id != id0 {
            assert(remaining_of(orders.push(v), id) == remaining_of(orders, id));
        }
    }
    assert forall|i: int| 0 <= i < after.snapshots().len() implies (
    #[trigger] after.snapshots()[i]).id < after.next_id() by {
        if i < orders.len() {
            assert(after.snapshots()[i] == orders[i]);
        }
    }
}

/// Matching a market order that takes the engine's next identifier keeps the
/// engine accounted, as long as the matched quantity still fits its counter.
pub proof fn lemma_market_keeps_accounted(
    before: MatchEngine,
    after: MatchEngine,
    market_id: MarketId,
    order: Order,
)
    requires
        before.wf(),
        accounted(before),
        market_id < before.books().len(),
        order.id == 0,
        before.next_id() < u64::MAX,
        before.spec_stats().total_matched_qty + order.size <= u64::MAX,
        before.market_filled(after, market_id, order),
    ensures
        accounted(after),
{
    let id0 = before.next_id();
    let side = order.bid_or_ask;
    let resting_side = side.spec_opposite();
    let size = order.size;
    let orders = before.snapshots();
    let b0 = before.books()[market_id as int];
    let b1 = after.books()[market_id as int];
    let report = market_report(b0, side, size);
    let fills = market_fills(b0, side, size);
    let v = market_snapshot(
        id0,
        user_or_unknown(order.user_id@),
        before.pairs()[market_id as int],
        side,
        size,
        report,
    );
    let m0 = b0.side(resting_side);
    assert(b0.wf());
    assert(after.books() =~= before.books().update(market_id as int, b1));
    assert(!has_order(orders, id0)) by {
        if has_order(orders, id0) {
            let p = position(orders, id0);
            assert(0 <= p < orders.len() && orders[p].id == id0);
        }
    }
    // what the fills take from each identifier is what leaves the book
    assert forall|id: OrderId| #[trigger]
        fill_total_of(fills, id) + book_resting(b1, id) == book_resting(b0, id) by {
        if b0.capacity(resting_side) >= size {
            lemma_sweep_by_id(m0, resting_side, size as nat, rank_high(), id);
        }
    }
    assert forall|id: OrderId| #[trigger] fill_total_of(fills, id) <= remaining_of(orders, id) by {
        lemma_resting_update(before.books(), market_id as int, b1, id);
        assert(fill_total_of(fills, id) + book_resting(b1, id) == book_resting(b0, id));
        assert(resting(before.books(), id) <= remaining_of(orders, id));
    }
    lemma_fill_accounting(orders, fills);
    let recorded = fills_applied(orders, fills);
    lemma_fills_applied(orders, fills);
    lemma_same_ids(orders, recorded);
    lemma_push_fresh(recorded, v);
    assert(fill_total(fills) == report.filled_qty) by {
        if b0.capacity(resting_side) >= size {
            lemma_sweep_total(m0, resting_side, size as nat, rank_high());
        }
    }
    assert forall|id: OrderId| #[trigger]
        resting(after.books(), id) <= remaining_of(after.snapshots(), id) by {
        lemma_resting_update(before.books(), market_id as int, b1, id);
        assert(fill_total_of(fills, id) + book_resting(b1, id) == book_resting(b0, id));
        assert(resting(before.books(), id) <= remaining_of(orders, id));
        assert(remaining_of(recorded, id) == remaining_of(orders, id) - fill_total_of(fills, id));
        if id != id0 {
            assert(remaining_of(recorded.push(v), id) == remaining_of(recorded, id));
        }
    }
    assert forall|i: int| 0 <= i < after.snapshots().len() implies (
    #[trigger] after.snapshots()[i]).id < after.next_id() by {
        if i < orders.len() {
            assert(after.snapshots()[i] == recorded[i]);
            assert(recorded[i].id == orders[i].id);
        }
    }
}

/// Snapshot consistency: in a accounted engine the filled sizes of all
/// snapshots add up to twice the matched quantity.
pub proof fn lemma_snapshot_consistency(engine: MatchEngine)
    requires
        accounted(engine),
    ensures
        total_filled(engine.snapshots()) == 2 * engine.spec_stats().total_matched_qty,
{
}

} // verus!
