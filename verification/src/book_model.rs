//! The mathematical model of one side of an order book, and what a market
//! order does to it.
//!
//! A side is a map from price to the queue of orders resting there. Prices
//! are ranked so that a better price has a lower rank: asks by price, bids by
//! negated price. Everything a sweep does is stated per level, in terms of the
//! volume that rests at strictly better prices.

use crate::limit::{
    all_positive, fills_of, lemma_match_properties, lemma_volume_push, lemma_volume_zero, matched,
    rest_after, volume,
};
use crate::order::{BidOrAsk, Fill, RestingOrder};
use crate::tick::Tick;
use vstd::prelude::*;

verus! {

/// One side of a book: the queue resting at each price.
pub type Levels = Map<Tick, Seq<RestingOrder>>;

/// The lowest rank a price can have.
pub open spec fn rank_low() -> int {
    i64::MIN as int
}

/// One more than the highest rank a price can have.
pub open spec fn rank_high() -> int {
    i64::MAX as int + 2
}

/// The rank of price `p` on `side`: the better the price, the lower the rank.
/// The lowest ask and the highest bid are best.
pub open spec fn rank(side: BidOrAsk, p: int) -> int {
    match side {
        BidOrAsk::Ask => p,
        BidOrAsk::Bid => -p,
    }
}

/// The price that has rank `r` on `side`.
pub open spec fn price_at(side: BidOrAsk, r: int) -> int {
    match side {
        BidOrAsk::Ask => r,
        BidOrAsk::Bid => -r,
    }
}

/// Whether price `a` is strictly better than price `b` on `side`.
pub open spec fn better(side: BidOrAsk, a: Tick, b: Tick) -> bool {
    rank(side, a as int) < rank(side, b as int)
}

/// Whether `m` has a level at the price `p`.
pub open spec fn has_level(m: Levels, p: int) -> bool {
    i64::MIN <= p <= i64::MAX && m.contains_key(p as Tick)
}

/// The queue resting at price `p`, empty where there is no level.
pub open spec fn queue_at(m: Levels, p: int) -> Seq<RestingOrder> {
    if has_level(m, p) {
        m[p as Tick]
    } else {
        Seq::empty()
    }
}

/// The volume resting on `side` at prices of rank below `r`.
pub open spec fn volume_before(m: Levels, side: BidOrAsk, r: int) -> nat
    decreases r - rank_low(),
{
    if r <= rank_low() {
        0
    } else {
        volume_before(m, side, r - 1) + volume(queue_at(m, price_at(side, r - 1)))
    }
}

/// The whole volume resting on a side.
pub open spec fn side_volume(m: Levels, side: BidOrAsk) -> nat {
    volume_before(m, side, rank_high())
}

/// The volume resting at prices strictly better than `p`.
pub open spec fn ahead(m: Levels, side: BidOrAsk, p: Tick) -> nat {
    volume_before(m, side, rank(side, p as int))
}

/// What is left of an order of size `amount` once `ahead` has been taken
/// from it.
pub open spec fn reach(amount: nat, ahead: nat) -> nat {
    if amount > ahead {
        (amount - ahead) as nat
    } else {
        0
    }
}

/// The side's invariant: no level is empty, and every resting order has
/// something left.
pub open spec fn side_ok(m: Levels) -> bool {
    forall|p: Tick| #[trigger]
        m.contains_key(p) ==> m[p].len() > 0 && all_positive(m[p])
}

/// Whether every bid is strictly below every ask.
pub open spec fn non_crossing(asks: Levels, bids: Levels) -> bool {
    forall|a: Tick, b: Tick| #[trigger]
        asks.contains_key(a) && #[trigger] bids.contains_key(b) ==> b < a
}

/// Whether `p` is the best price of the side `m`.
pub open spec fn is_best(m: Levels, side: BidOrAsk, p: Tick) -> bool {
    &&& m.contains_key(p)
    &&& forall|j: Tick| #[trigger] m.contains_key(j) ==> !better(side, j, p)
}

/// Whether a limit order at `price` on `side` would cross the opposing side
/// `opposing`: some opposing level is at `price` or better for the order.
pub open spec fn crossing(opposing: Levels, side: BidOrAsk, price: Tick) -> bool {
    exists|p: Tick| #[trigger]
        opposing.contains_key(p) && match side {
            BidOrAsk::Ask => p >= price,
            BidOrAsk::Bid => p <= price,
        }
}

/// The trace of a sweep: its fills in the order they happen, the number of
/// resting orders taken whole, and the number of levels that gave a fill.
pub struct Sweep {
    pub fills: Seq<Fill>,
    pub consumed: nat,
    pub crossed: nat,
}

/// What an order of size `amount` does at the levels of rank below `r`, the
/// best level first. Each level receives what the order has left after all
/// strictly better levels.
pub open spec fn sweep_before(m: Levels, side: BidOrAsk, r: int, amount: nat) -> Sweep
    decreases r - rank_low(),
{
    if r <= rank_low() {
        Sweep { fills: Seq::empty(), consumed: 0, crossed: 0 }
    } else {
        let prev = sweep_before(m, side, r - 1, amount);
        let q = queue_at(m, price_at(side, r - 1));
        let a = reach(amount, volume_before(m, side, r - 1));
        let f = fills_of(q, a);
        Sweep {
            fills: prev.fills + f,
            consumed: prev.consumed + (q.len() - rest_after(q, a).len()) as nat,
            crossed: prev.crossed + if f.len() > 0 {
                1nat
            } else {
                0nat
            },
        }
    }
}

/// What an order of size `amount` does to a whole side.
pub open spec fn sweep(m: Levels, side: BidOrAsk, amount: nat) -> Sweep {
    sweep_before(m, side, rank_high(), amount)
}

/// The side after an order of size `amount` has swept it: a level that the
/// order exhausts is gone, and every other level keeps what the order leaves
/// of it.
pub open spec fn side_after(m: Levels, side: BidOrAsk, amount: nat) -> Levels {
    Map::new(
        |p: Tick| m.contains_key(p) && amount < ahead(m, side, p) + volume(m[p]),
        |p: Tick| rest_after(m[p], reach(amount, ahead(m, side, p))),
    )
}

/// The side after an order of quantity `qty > 0` with identifier `id` has
/// come to rest at `price`: it joins the tail of the level there, or opens
/// the level.
pub open spec fn side_with(m: Levels, price: Tick, id: u64, qty: u64) -> Levels {
    m.insert(price, queue_at(m, price as int).push(RestingOrder { id, qty }))
}

/// `price_at` and `rank` undo each other.
pub proof fn lemma_rank_price(side: BidOrAsk, x: int)
    ensures
        rank(side, price_at(side, x)) == x,
        price_at(side, rank(side, x)) == x,
{
}

/// Every price has a rank between `rank_low()` and `rank_high()`.
pub proof fn lemma_rank_bounds(side: BidOrAsk, p: Tick)
    ensures
        rank_low() <= rank(side, p as int) < rank_high(),
{
}

/// The volume before a rank does not shrink as the rank grows.
pub proof fn lemma_volume_before_monotonic(m: Levels, side: BidOrAsk, r1: int, r2: int)
    requires
        r1 <= r2,
    ensures
        volume_before(m, side, r1) <= volume_before(m, side, r2),
    decreases r2 - r1,
{
    if r1 < r2 {
        lemma_volume_before_monotonic(m, side, r1, r2 - 1);
        if r2 <= rank_low() {
            assert(volume_before(m, side, r2) == 0);
            assert(volume_before(m, side, r2 - 1) == 0);
        }
    }
}

/// A level's own volume comes right after the volume ahead of it.
pub proof fn lemma_ahead_next(m: Levels, side: BidOrAsk, p: Tick)
    ensures
        volume_before(m, side, rank(side, p as int) + 1) == ahead(m, side, p) + volume(
            queue_at(m, p as int),
        ),
{
    lemma_rank_price(side, p as int);
    lemma_rank_bounds(side, p);
}

/// Two sides that differ at most at the price `k` have the same volume
/// before any rank, up to the difference at `k`.
pub proof fn lemma_volume_before_update(m1: Levels, m2: Levels, side: BidOrAsk, k: Tick, r: int)
    requires
        forall|p: int| p != k ==> queue_at(m1, p) == queue_at(m2, p),
    ensures
        rank(side, k as int) < r ==> volume_before(m2, side, r) + volume(queue_at(m1, k as int))
            == volume_before(m1, side, r) + volume(queue_at(m2, k as int)),
        rank(side, k as int) >= r ==> volume_before(m2, side, r) == volume_before(m1, side, r),
    decreases r - rank_low(),
{
    if r <= rank_low() {
        lemma_rank_bounds(side, k);
    } else {
        lemma_volume_before_update(m1, m2, side, k, r - 1);
        lemma_rank_price(side, r - 1);
        lemma_rank_price(side, k as int);
        let p = price_at(side, r - 1);
        if p != k {
            assert(queue_at(m1, p) == queue_at(m2, p));
        }
    }
}

/// Where no level has a rank from `r1` up to `r2`, nothing changes between
/// the two ranks.
pub proof fn lemma_gap(m: Levels, side: BidOrAsk, r1: int, r2: int, amount: nat)
    requires
        r1 <= r2,
        forall|p: int| r1 <= rank(side, p) < r2 ==> !has_level(m, p),
    ensures
        volume_before(m, side, r2) == volume_before(m, side, r1),
        sweep_before(m, side, r2, amount) == sweep_before(m, side, r1, amount),
    decreases r2 - r1,
{
    if r1 < r2 {
        lemma_gap(m, side, r1, r2 - 1, amount);
        if r2 > rank_low() {
            let p = price_at(side, r2 - 1);
            lemma_rank_price(side, r2 - 1);
            assert(!has_level(m, p));
            let q = queue_at(m, p);
            assert(q.len() == 0);
            let a = reach(amount, volume_before(m, side, r2 - 1));
            assert(fills_of(q, a) =~= Seq::<Fill>::empty());
            assert(rest_after(q, a) == q);
            let prev = sweep_before(m, side, r2 - 1, amount);
            assert(prev.fills + fills_of(q, a) =~= prev.fills);
        } else {
            assert(r1 < rank_low());
        }
    }
}

/// Levels that the order does not reach add nothing to its trace.
pub proof fn lemma_beyond_reach(m: Levels, side: BidOrAsk, r1: int, r2: int, amount: nat)
    requires
        r1 <= r2,
        amount <= volume_before(m, side, r1),
    ensures
        sweep_before(m, side, r2, amount) == sweep_before(m, side, r1, amount),
    decreases r2 - r1,
{
    if r1 < r2 {
        lemma_beyond_reach(m, side, r1, r2 - 1, amount);
        lemma_volume_before_monotonic(m, side, r1, r2 - 1);
        if r2 > rank_low() {
            let q = queue_at(m, price_at(side, r2 - 1));
            let a = reach(amount, volume_before(m, side, r2 - 1));
            assert(a == 0);
            assert(fills_of(q, a) =~= Seq::<Fill>::empty());
            assert(rest_after(q, a) == q);
            let prev = sweep_before(m, side, r2 - 1, amount);
            assert(prev.fills + fills_of(q, a) =~= prev.fills);
        } else {
            assert(r1 < rank_low());
        }
    }
}

/// A swept side keeps the side's invariant.
pub proof fn lemma_side_after_ok(m: Levels, side: BidOrAsk, amount: nat)
    requires
        side_ok(m),
    ensures
        side_ok(side_after(m, side, amount)),
        forall|p: Tick| #[trigger]
            side_after(m, side, amount).contains_key(p) ==> m.contains_key(p),
{
    let s = side_after(m, side, amount);
    assert forall|p: Tick| #[trigger] s.contains_key(p) implies s[p].len() > 0 && all_positive(
        s[p],
    ) by {
        assert(m.contains_key(p));
        let a = reach(amount, ahead(m, side, p));
        lemma_match_properties(m[p], a);
    }
}

/// A sweep takes from the volume before any rank exactly what the order can
/// take there.
pub proof fn lemma_side_after_volume(m: Levels, side: BidOrAsk, amount: nat, r: int)
    requires
        side_ok(m),
    ensures
        volume_before(side_after(m, side, amount), side, r) == volume_before(m, side, r) - (
        if amount <= volume_before(m, side, r) {
            amount
        } else {
            volume_before(m, side, r)
        }),
    decreases r - rank_low(),
{
    if r > rank_low() {
        lemma_side_after_volume(m, side, amount, r - 1);
        let s = side_after(m, side, amount);
        let p = price_at(side, r - 1);
        lemma_rank_price(side, r - 1);
        if has_level(m, p) {
            let t = p as Tick;
            let q = m[t];
            assert(ahead(m, side, t) == volume_before(m, side, r - 1));
            let a = reach(amount, ahead(m, side, t));
            lemma_match_properties(q, a);
            if s.contains_key(t) {
                assert(queue_at(s, p) == rest_after(q, a));
            } else {
                assert(queue_at(s, p).len() == 0);
                assert(matched(q, a) == volume(q));
            }
        } else {
            assert(!has_level(s, p));
        }
    }
}

/// A level's own volume is part of the side's volume.
pub proof fn lemma_level_within_side(m: Levels, side: BidOrAsk, p: Tick)
    ensures
        ahead(m, side, p) + volume(queue_at(m, p as int)) <= side_volume(m, side),
{
    lemma_ahead_next(m, side, p);
    lemma_rank_bounds(side, p);
    lemma_volume_before_monotonic(m, side, rank(side, p as int) + 1, rank_high());
}

/// Resting a new order at `price` adds its quantity to the side's volume, and
/// keeps the side's invariant.
pub proof fn lemma_side_with(m: Levels, side: BidOrAsk, price: Tick, id: u64, qty: u64)
    requires
        side_ok(m),
        qty > 0,
    ensures
        side_ok(side_with(m, price, id, qty)),
        side_volume(side_with(m, price, id, qty), side) == side_volume(m, side) + qty,
{
    let r = RestingOrder { id, qty };
    let q = queue_at(m, price as int);
    let m2 = side_with(m, price, id, qty);
    lemma_volume_push(q, r);
    assert forall|p: int| p != price implies queue_at(m, p) == queue_at(m2, p) by {}
    assert(queue_at(m2, price as int) == q.push(r));
    lemma_volume_before_update(m, m2, side, price, rank_high());
    lemma_rank_bounds(side, price);
    assert forall|p: Tick| #[trigger] m2.contains_key(p) implies m2[p].len() > 0 && all_positive(
        m2[p],
    ) by {
        if p == price {
            assert forall|i: int| 0 <= i < q.push(r).len() implies (#[trigger] q.push(r)[i]).qty
                > 0 by {
                if i < q.len() {
                    assert(q.push(r)[i] == q[i]);
                    if has_level(m, price as int) {
                        assert(m.contains_key(price));
                    }
                }
            }
        } else {
            assert(m.contains_key(p));
        }
    }
}

/// The state of a sweep that stops between two levels: the order has taken
/// exactly the volume of rank below `f`, every level of lower rank is gone, and
/// the others are untouched.
pub proof fn lemma_swept_exact(m0: Levels, cur: Levels, side: BidOrAsk, amount: nat, f: int)
    requires
        side_ok(m0),
        rank_low() <= f <= rank_high(),
        volume_before(m0, side, f) == amount,
        forall|p: Tick|
            cur.contains_key(p) <==> (m0.contains_key(p) && rank(side, p as int) >= f),
        forall|p: Tick| cur.contains_key(p) ==> cur[p] == m0[p],
    ensures
        cur == side_after(m0, side, amount),
        sweep(m0, side, amount) == sweep_before(m0, side, f, amount),
{
    lemma_beyond_reach(m0, side, f, rank_high(), amount);
    let s = side_after(m0, side, amount);
    assert forall|p: Tick| cur.contains_key(p) == s.contains_key(p) by {
        if m0.contains_key(p) {
            lemma_ahead_next(m0, side, p);
            lemma_volume_zero(m0[p]);
            if rank(side, p as int) < f {
                lemma_volume_before_monotonic(m0, side, rank(side, p as int) + 1, f);
            } else {
                lemma_volume_before_monotonic(m0, side, f, rank(side, p as int));
            }
        }
    }
    assert forall|p: Tick| cur.contains_key(p) implies cur[p] == s[p] by {
        lemma_volume_before_monotonic(m0, side, f, rank(side, p as int));
        assert(reach(amount, ahead(m0, side, p)) == 0);
    }
    assert(cur =~= s);
}

/// The state of a sweep that stops inside the level at `k`: every better level
/// is gone, the level at `k` keeps what the order leaves of it, and the worse
/// levels are untouched.
pub proof fn lemma_swept_partial(m0: Levels, cur: Levels, side: BidOrAsk, amount: nat, k: Tick)
    requires
        side_ok(m0),
        m0.contains_key(k),
        ahead(m0, side, k) < amount < ahead(m0, side, k) + volume(m0[k]),
        forall|p: Tick|
            cur.contains_key(p) <==> (m0.contains_key(p) && rank(side, p as int) >= rank(
                side,
                k as int,
            )),
        forall|p: Tick| cur.contains_key(p) && p != k ==> cur[p] == m0[p],
        cur[k] == rest_after(m0[k], (amount - ahead(m0, side, k)) as nat),
    ensures
        cur == side_after(m0, side, amount),
        sweep(m0, side, amount) == sweep_before(m0, side, rank(side, k as int) + 1, amount),
{
    let rk = rank(side, k as int);
    lemma_ahead_next(m0, side, k);
    lemma_rank_bounds(side, k);
    lemma_beyond_reach(m0, side, rk + 1, rank_high(), amount);
    let s = side_after(m0, side, amount);
    assert forall|p: Tick| cur.contains_key(p) == s.contains_key(p) by {
        if m0.contains_key(p) {
            lemma_ahead_next(m0, side, p);
            lemma_volume_zero(m0[p]);
            if rank(side, p as int) < rk {
                lemma_volume_before_monotonic(m0, side, rank(side, p as int) + 1, rk);
            } else if p != k {
                lemma_volume_before_monotonic(m0, side, rk + 1, rank(side, p as int));
            }
        }
    }
    assert forall|p: Tick| cur.contains_key(p) implies cur[p] == s[p] by {
        if p != k {
            lemma_volume_before_monotonic(m0, side, rk + 1, rank(side, p as int));
            assert(reach(amount, ahead(m0, side, p)) == 0);
        }
    }
    assert(cur =~= s);
}

/// One step of a sweep. Where `k` is the best level of rank `f` or more, and
/// the order has taken exactly the volume of rank below `f`, the level at `k`
/// receives what the order has left, and gives at least one fill.
pub proof fn lemma_sweep_step(m0: Levels, side: BidOrAsk, amount: nat, f: int, k: Tick)
    requires
        side_ok(m0),
        m0.contains_key(k),
        f <= rank(side, k as int),
        forall|p: Tick| #[trigger]
            m0.contains_key(p) && rank(side, p as int) >= f ==> rank(side, k as int) <= rank(
                side,
                p as int,
            ),
        volume_before(m0, side, f) < amount,
    ensures
        ahead(m0, side, k) == volume_before(m0, side, f),
        volume_before(m0, side, rank(side, k as int) + 1) == volume_before(m0, side, f) + volume(
            m0[k],
        ),
        ({
            let a = (amount - volume_before(m0, side, f)) as nat;
            let prev = sweep_before(m0, side, f, amount);
            let next = sweep_before(m0, side, rank(side, k as int) + 1, amount);
            &&& next.fills == prev.fills + fills_of(m0[k], a)
            &&& next.consumed == prev.consumed + (m0[k].len() - rest_after(m0[k], a).len())
            &&& next.crossed == prev.crossed + 1
            &&& fills_of(m0[k], a).len() > 0
            &&& m0[k].len() - rest_after(m0[k], a).len() <= fills_of(m0[k], a).len()
            &&& rest_after(m0[k], a).len() == 0 <==> a >= volume(m0[k])
        }),
{
    let rk = rank(side, k as int);
    let q = m0[k];
    let a = (amount - volume_before(m0, side, f)) as nat;
    lemma_rank_bounds(side, k);
    lemma_rank_price(side, rk);
    assert forall|p: int| f <= rank(side, p) < rk implies !has_level(m0, p) by {
        if has_level(m0, p) {
            assert(m0.contains_key(p as Tick));
        }
    }
    lemma_gap(m0, side, f, rk, amount);
    lemma_ahead_next(m0, side, k);
    assert(queue_at(m0, k as int) == q);
    assert(queue_at(m0, price_at(side, rk)) == q);
    lemma_match_properties(q, a);
    lemma_volume_zero(q);
    assert(reach(amount, volume_before(m0, side, rk)) == a);
    assert(q[0].qty > 0);
    assert(fills_of(q, a).len() > 0);
}

/// Price priority: a level gives a fill only once every strictly better
/// level is exhausted.
pub proof fn lemma_best_price_first(m: Levels, side: BidOrAsk, amount: nat, p: Tick, q: Tick)
    requires
        side_ok(m),
        m.contains_key(p),
        m.contains_key(q),
        better(side, q, p),
        fills_of(m[p], reach(amount, ahead(m, side, p))).len() > 0,
    ensures
        !side_after(m, side, amount).contains_key(q),
{
    lemma_ahead_next(m, side, q);
    lemma_volume_before_monotonic(m, side, rank(side, q as int) + 1, rank(side, p as int));
}

/// An order of exactly the volume of a side empties the side.
pub proof fn lemma_exact_sweep_empties(m: Levels, side: BidOrAsk)
    ensures
        side_after(m, side, side_volume(m, side)) == Map::<Tick, Seq<RestingOrder>>::empty(),
{
    let swept = side_after(m, side, side_volume(m, side));
    assert forall|p: Tick| !swept.contains_key(p) by {
        lemma_level_within_side(m, side, p);
    }
    assert(swept =~= Map::<Tick, Seq<RestingOrder>>::empty());
}

} // verus!
