//! The order book of one market: two sides of price levels with their cached
//! capacities, resting of limit orders and matching of market orders.

use crate::book_model::{
    ahead, better, crossing, has_level, is_best, lemma_gap, lemma_level_within_side, lemma_rank_bounds,
    lemma_side_after_ok, lemma_side_after_volume, lemma_side_with, lemma_sweep_step,
    lemma_swept_exact, lemma_swept_partial, non_crossing, queue_at, rank, rank_high, rank_low,
    side_after, side_ok, side_volume, side_with, sweep, sweep_before, volume_before, Levels,
};
use crate::limit::{
    fills_of, lemma_match_properties, lemma_volume_zero, rest_after, volume, Limit,
};
use crate::order::{BidOrAsk, Fill, Order, Qty, RestingOrder};
use crate::tick::Tick;
use std::collections::BTreeMap;
use vstd::prelude::*;

verus! {

/// What a market order did to a book.
#[derive(Clone, Copy, Debug, PartialEq, Eq, Structural)]
pub struct FillReport {
    /// The opposing side held less than the order asked for; nothing was done.
    pub insufficient_liquidity: bool,
    /// Nothing of the order is left.
    pub fully_filled: bool,
    /// Quantity of the order that was matched.
    pub filled_qty: Qty,
    /// Quantity of the order that is left.
    pub remaining_qty: Qty,
    /// Number of matches made.
    pub fills_total: u64,
    /// Number of resting orders taken whole and removed.
    pub resting_orders_consumed: u64,
    /// Number of price levels that gave at least one fill.
    pub levels_crossed: u64,
    /// Quantity matched, as it enters the engine's statistics.
    pub total_matched_qty: Qty,
}

/// The queues of the levels held in a map of price levels.
pub open spec fn levels_of(m: Map<Tick, Limit>) -> Levels {
    m.map_values(|l: Limit| l.queue())
}

/// Whether every level in `m` is well formed and filed under its own price.
pub open spec fn levels_repr(m: Map<Tick, Limit>) -> bool {
    forall|p: Tick| #[trigger] m.contains_key(p) ==> m[p].wf() && m[p].spec_price() == p
}

/// `BTreeMap::pop_first`: removes the entry with the lowest key and returns
/// it; on an empty map returns `None` and changes nothing.
#[verifier::external_body]
fn pop_lowest(map: &mut BTreeMap<Tick, Limit>) -> (r: Option<(Tick, Limit)>)
    ensures
        match r {
            Some((k, l)) => {
                &&& old(map)@.contains_key(k)
                &&& old(map)@[k] == l
                &&& final(map)@ == old(map)@.remove(k)
                &&& forall|j: Tick| old(map)@.contains_key(j) ==> k <= j
            },
            None => {
                &&& final(map)@ == old(map)@
                &&& forall|j: Tick| !old(map)@.contains_key(j)
            },
        },
{
    map.pop_first()
}

/// `BTreeMap::pop_last`: removes the entry with the highest key and returns
/// it; on an empty map returns `None` and changes nothing.
#[verifier::external_body]
fn pop_highest(map: &mut BTreeMap<Tick, Limit>) -> (r: Option<(Tick, Limit)>)
    ensures
        match r {
            Some((k, l)) => {
                &&& old(map)@.contains_key(k)
                &&& old(map)@[k] == l
                &&& final(map)@ == old(map)@.remove(k)
                &&& forall|j: Tick| old(map)@.contains_key(j) ==> j <= k
            },
            None => {
                &&& final(map)@ == old(map)@
                &&& forall|j: Tick| !old(map)@.contains_key(j)
            },
        },
{
    map.pop_last()
}

/// `BTreeMap::first_key_value`: the lowest key of the map, `None` on an empty
/// map.
#[verifier::external_body]
fn lowest_key(map: &BTreeMap<Tick, Limit>) -> (r: Option<Tick>)
    ensures
        match r {
            Some(k) => map@.contains_key(k) && forall|j: Tick| map@.contains_key(j) ==> k <= j,
            None => forall|j: Tick| !map@.contains_key(j),
        },
{
    match map.first_key_value() {
        Some((k, _)) => Some(*k),
        None => None,
    }
}

/// `BTreeMap::last_key_value`: the highest key of the map, `None` on an empty
/// map.
#[verifier::external_body]
fn highest_key(map: &BTreeMap<Tick, Limit>) -> (r: Option<Tick>)
    ensures
        match r {
            Some(k) => map@.contains_key(k) && forall|j: Tick| map@.contains_key(j) ==> j <= k,
            None => forall|j: Tick| !map@.contains_key(j),
        },
{
    match map.last_key_value() {
        Some((k, _)) => Some(*k),
        None => None,
    }
}

/// The best price of a side, if it has any level.
fn best_key(map: &BTreeMap<Tick, Limit>, side: BidOrAsk) -> (r: Option<Tick>)
    ensures
        match r {
            Some(k) => is_best(levels_of(map@), side, k),
            None => forall|j: Tick| !levels_of(map@).contains_key(j),
        },
{
    match side {
        BidOrAsk::Ask => lowest_key(map),
        BidOrAsk::Bid => highest_key(map),
    }
}

/// Removes and returns the best level of a side.
fn pop_best(map: &mut BTreeMap<Tick, Limit>, side: BidOrAsk) -> (r: Option<(Tick, Limit)>)
    ensures
        match r {
            Some((k, l)) => {
                &&& old(map)@.contains_key(k)
                &&& old(map)@[k] == l
                &&& final(map)@ == old(map)@.remove(k)
                &&& forall|j: Tick|
                    old(map)@.contains_key(j) ==> rank(side, k as int) <= rank(side, j as int)
            },
            None => {
                &&& final(map)@ == old(map)@
                &&& forall|j: Tick| !old(map)@.contains_key(j)
            },
        },
{
    match side {
        BidOrAsk::Ask => pop_lowest(map),
        BidOrAsk::Bid => pop_highest(map),
    }
}

/// Rests `r` at `price`: at the tail of the level there, or in a new level.
fn rest_order(map: &mut BTreeMap<Tick, Limit>, side: BidOrAsk, price: Tick, r: RestingOrder)
    requires
        levels_repr(old(map)@),
        side_ok(levels_of(old(map)@)),
        r.qty > 0,
        side_volume(levels_of(old(map)@), side) + r.qty <= u64::MAX,
    ensures
        levels_repr(final(map)@),
        levels_of(final(map)@) == side_with(levels_of(old(map)@), price, r.id, r.qty),
{
    let ghost m0 = levels_of(map@);
    let existing = map.remove(&price);
    let mut level = match existing {
        Some(l) => l,
        None => Limit::new(price),
    };
    proof {
        lemma_level_within_side(m0, side, price);
        assert(level.queue() == queue_at(m0, price as int));
    }
    level.add_order(r);
    map.insert(price, level);
    assert(levels_of(map@) =~= side_with(m0, price, r.id, r.qty));
}

/// The state of a sweep between two levels: every level of rank below
/// `frontier` is gone and the others are untouched; the order has taken the
/// volume of rank below `frontier` and has `left` to go; and the fills and
/// counters are those of the levels of rank below `frontier`.
#[verifier::opaque]
spec fn sweeping(
    l0: Map<Tick, Limit>,
    cur: Map<Tick, Limit>,
    side: BidOrAsk,
    frontier: int,
    amount: nat,
    left: nat,
    fills: Seq<Fill>,
    consumed: nat,
    crossed: nat,
) -> bool {
    let m0 = levels_of(l0);
    &&& rank_low() <= frontier <= rank_high()
    &&& forall|p: Tick| #[trigger]
        cur.contains_key(p) <==> (l0.contains_key(p) && rank(side, p as int) >= frontier)
    &&& forall|p: Tick| #[trigger] cur.contains_key(p) ==> cur[p] == l0[p]
    &&& volume_before(m0, side, frontier) + left == amount
    &&& fills == sweep_before(m0, side, frontier, amount).fills
    &&& consumed == sweep_before(m0, side, frontier, amount).consumed
    &&& crossed == sweep_before(m0, side, frontier, amount).crossed
}

/// The state of a finished sweep: the levels are those that the sweep leaves,
/// and the fills and counters are those of the whole sweep.
#[verifier::opaque]
spec fn swept(
    l0: Map<Tick, Limit>,
    cur: Map<Tick, Limit>,
    side: BidOrAsk,
    amount: nat,
    fills: Seq<Fill>,
    consumed: nat,
    crossed: nat,
) -> bool {
    let m0 = levels_of(l0);
    &&& levels_repr(cur)
    &&& levels_of(cur) == side_after(m0, side, amount)
    &&& fills == sweep(m0, side, amount).fills
    &&& consumed == sweep(m0, side, amount).consumed
    &&& crossed == sweep(m0, side, amount).crossed
}

/// A sweep starts before the first level, with nothing taken.
proof fn lemma_sweep_start(l0: Map<Tick, Limit>, side: BidOrAsk, amount: nat)
    ensures
        sweeping(l0, l0, side, rank_low(), amount, amount, Seq::empty(), 0, 0),
{
    reveal(sweeping);
    assert forall|p: Tick| #[trigger] l0.contains_key(p) implies rank(side, p as int)
        >= rank_low() by {
        lemma_rank_bounds(side, p);
    }
}

/// A sweep that has nothing left to take is finished.
proof fn lemma_sweep_done(
    l0: Map<Tick, Limit>,
    cur: Map<Tick, Limit>,
    side: BidOrAsk,
    frontier: int,
    amount: nat,
    fills: Seq<Fill>,
    consumed: nat,
    crossed: nat,
)
    requires
        levels_repr(l0),
        side_ok(levels_of(l0)),
        sweeping(l0, cur, side, frontier, amount, 0, fills, consumed, crossed),
    ensures
        swept(l0, cur, side, amount, fills, consumed, crossed),
{
    reveal(sweeping);
    reveal(swept);
    assert forall|p: Tick| #[trigger] cur.contains_key(p) implies cur[p].wf()
        && cur[p].spec_price() == p by {
        assert(l0.contains_key(p));
    }
    assert forall|p: Tick|
        levels_of(cur).contains_key(p) <==> (levels_of(l0).contains_key(p) && rank(
            side,
            p as int,
        ) >= frontier) by {
        assert(levels_of(cur).contains_key(p) == cur.contains_key(p));
        assert(levels_of(l0).contains_key(p) == l0.contains_key(p));
    }
    assert forall|p: Tick| levels_of(cur).contains_key(p) implies levels_of(cur)[p] == levels_of(
        l0,
    )[p] by {
        assert(cur.contains_key(p));
    }
    lemma_swept_exact(levels_of(l0), levels_of(cur), side, amount, frontier);
}

/// While the order has something left, the side still has a level, because
/// it held at least the order's size.
proof fn lemma_sweep_goes_on(
    l0: Map<Tick, Limit>,
    cur: Map<Tick, Limit>,
    side: BidOrAsk,
    frontier: int,
    amount: nat,
    left: nat,
    fills: Seq<Fill>,
    consumed: nat,
    crossed: nat,
)
    requires
        sweeping(l0, cur, side, frontier, amount, left, fills, consumed, crossed),
        left > 0,
        amount <= side_volume(levels_of(l0), side),
    ensures
        exists|p: Tick| cur.contains_key(p),
{
    reveal(sweeping);
    let m0 = levels_of(l0);
    if forall|p: Tick| !cur.contains_key(p) {
        assert forall|p: int| frontier <= rank(side, p) < rank_high() implies !has_level(
            m0,
            p,
        ) by {
            if has_level(m0, p) {
                assert(l0.contains_key(p as Tick));
                assert(cur.contains_key(p as Tick));
            }
        }
        lemma_gap(m0, side, frontier, rank_high(), amount);
    }
}

/// What the best of the levels that are left is to a sweep: the level as it
/// was at the start, which now receives all that the order has left.
proof fn lemma_sweep_level(
    l0: Map<Tick, Limit>,
    cur: Map<Tick, Limit>,
    side: BidOrAsk,
    frontier: int,
    amount: nat,
    left: nat,
    fills: Seq<Fill>,
    consumed: nat,
    crossed: nat,
    k: Tick,
)
    requires
        levels_repr(l0),
        side_ok(levels_of(l0)),
        sweeping(l0, cur, side, frontier, amount, left, fills, consumed, crossed),
        left > 0,
        cur.contains_key(k),
        forall|j: Tick| cur.contains_key(j) ==> rank(side, k as int) <= rank(side, j as int),
    ensures
        frontier <= rank(side, k as int) < rank_high(),
        cur[k].wf(),
        cur[k].spec_price() == k,
        fills_of(cur[k].queue(), left).len() > 0,
        cur[k].queue().len() - rest_after(cur[k].queue(), left).len() <= fills_of(
            cur[k].queue(),
            left,
        ).len(),
        rest_after(cur[k].queue(), left).len() == 0 <==> left >= volume(cur[k].queue()),
{
    reveal(sweeping);
    let m0 = levels_of(l0);
    assert(l0.contains_key(k));
    assert(m0.contains_key(k) && m0[k] == cur[k].queue());
    assert forall|p: Tick| #[trigger]
        m0.contains_key(p) && rank(side, p as int) >= frontier implies rank(side, k as int)
        <= rank(side, p as int) by {
        assert(l0.contains_key(p));
        assert(cur.contains_key(p));
    }
    lemma_sweep_step(m0, side, amount, frontier, k);
    lemma_rank_bounds(side, k);
}

/// A level that the order exhausts moves the sweep past it.
proof fn lemma_sweep_exhausts(
    l0: Map<Tick, Limit>,
    cur: Map<Tick, Limit>,
    side: BidOrAsk,
    frontier: int,
    amount: nat,
    left: nat,
    fills: Seq<Fill>,
    consumed: nat,
    crossed: nat,
    k: Tick,
)
    requires
        levels_repr(l0),
        side_ok(levels_of(l0)),
        sweeping(l0, cur, side, frontier, amount, left, fills, consumed, crossed),
        left > 0,
        cur.contains_key(k),
        forall|j: Tick| cur.contains_key(j) ==> rank(side, k as int) <= rank(side, j as int),
        left >= volume(cur[k].queue()),
    ensures
        sweeping(
            l0,
            cur.remove(k),
            side,
            rank(side, k as int) + 1,
            amount,
            (left - volume(cur[k].queue())) as nat,
            fills + fills_of(cur[k].queue(), left),
            consumed + cur[k].queue().len(),
            crossed + 1,
        ),
{
    reveal(sweeping);
    let m0 = levels_of(l0);
    let now = cur.remove(k);
    assert(l0.contains_key(k));
    assert(m0.contains_key(k) && m0[k] == cur[k].queue());
    assert forall|p: Tick| #[trigger]
        m0.contains_key(p) && rank(side, p as int) >= frontier implies rank(side, k as int)
        <= rank(side, p as int) by {
        assert(l0.contains_key(p));
        assert(cur.contains_key(p));
    }
    lemma_sweep_step(m0, side, amount, frontier, k);
    lemma_rank_bounds(side, k);
    assert forall|p: Tick| #[trigger]
        now.contains_key(p) <==> (l0.contains_key(p) && rank(side, p as int) >= rank(
            side,
            k as int,
        ) + 1) by {
        assert(now.contains_key(p) == (cur.contains_key(p) && p != k));
    }
    assert forall|p: Tick| #[trigger] now.contains_key(p) implies now[p] == l0[p] by {
        assert(cur.contains_key(p));
    }
}

/// A level that the order does not exhaust ends the sweep: the level keeps
/// what the order leaves of it.
proof fn lemma_sweep_stops(
    l0: Map<Tick, Limit>,
    cur: Map<Tick, Limit>,
    side: BidOrAsk,
    frontier: int,
    amount: nat,
    left: nat,
    fills: Seq<Fill>,
    consumed: nat,
    crossed: nat,
    k: Tick,
    level: Limit,
)
    requires
        levels_repr(l0),
        side_ok(levels_of(l0)),
        sweeping(l0, cur, side, frontier, amount, left, fills, consumed, crossed),
        left > 0,
        cur.contains_key(k),
        forall|j: Tick| cur.contains_key(j) ==> rank(side, k as int) <= rank(side, j as int),
        left < volume(cur[k].queue()),
        level.wf(),
        level.spec_price() == k,
        level.queue() == rest_after(cur[k].queue(), left),
    ensures
        swept(
            l0,
            cur.remove(k).insert(k, level),
            side,
            amount,
            fills + fills_of(cur[k].queue(), left),
            consumed + (cur[k].queue().len() - level.queue().len()) as nat,
            crossed + 1,
        ),
{
    reveal(sweeping);
    reveal(swept);
    let m0 = levels_of(l0);
    let now = cur.remove(k).insert(k, level);
    assert(l0.contains_key(k));
    assert(m0.contains_key(k) && m0[k] == cur[k].queue());
    assert forall|p: Tick| #[trigger]
        m0.contains_key(p) && rank(side, p as int) >= frontier implies rank(side, k as int)
        <= rank(side, p as int) by {
        assert(l0.contains_key(p));
        assert(cur.contains_key(p));
    }
    lemma_sweep_step(m0, side, amount, frontier, k);
    assert forall|p: Tick| #[trigger] now.contains_key(p) implies now[p].wf()
        && now[p].spec_price() == p by {
        if p != k {
            assert(cur.contains_key(p));
            assert(l0.contains_key(p));
        }
    }
    assert forall|p: Tick|
        levels_of(now).contains_key(p) <==> (m0.contains_key(p) && rank(side, p as int) >= rank(
            side,
            k as int,
        )) by {
        assert(levels_of(now).contains_key(p) == now.contains_key(p));
        assert(m0.contains_key(p) == l0.contains_key(p));
        assert(now.contains_key(p) == (cur.contains_key(p) || p == k));
    }
    assert forall|p: Tick| levels_of(now).contains_key(p) && p != k implies levels_of(now)[p]
        == m0[p] by {
        assert(cur.contains_key(p));
    }
    assert(levels_of(now)[k] == level.queue());
    assert(ahead(m0, side, k) + left == amount);
    lemma_swept_partial(m0, levels_of(now), side, amount, k);
    lemma_match_properties(m0[k], left);
}

/// Matches `incoming` against a side that holds at least its size, the best
/// level first. Returns the number of resting orders taken whole and the
/// number of levels that gave a fill.
fn sweep_side(
    map: &mut BTreeMap<Tick, Limit>,
    side: BidOrAsk,
    incoming: &mut Order,
    fills: &mut Vec<Fill>,
) -> (r: (u64, u64))
    requires
        levels_repr(old(map)@),
        side_ok(levels_of(old(map)@)),
        old(incoming).size <= side_volume(levels_of(old(map)@), side),
    ensures
        levels_repr(final(map)@),
        levels_of(final(map)@) == side_after(
            levels_of(old(map)@),
            side,
            old(incoming).size as nat,
        ),
        final(incoming).size == 0,
        final(incoming).id == old(incoming).id,
        final(incoming).user_id == old(incoming).user_id,
        final(incoming).bid_or_ask == old(incoming).bid_or_ask,
        final(fills)@ == old(fills)@ + sweep(
            levels_of(old(map)@),
            side,
            old(incoming).size as nat,
        ).fills,
        r.0 == sweep(levels_of(old(map)@), side, old(incoming).size as nat).consumed,
        r.1 == sweep(levels_of(old(map)@), side, old(incoming).size as nat).crossed,
{
    let ghost l0 = map@;
    let ghost a0 = incoming.size as nat;
    let ghost f0 = fills@;
    let ghost mut frontier: int = rank_low();
    let ghost mut taken: Seq<Fill> = Seq::empty();
    let mut consumed: u64 = 0;
    let mut crossed: u64 = 0;
    proof {
        lemma_sweep_start(l0, side, a0);
        assert(f0 + taken =~= f0);
    }
    loop
        invariant_except_break
            sweeping(
                l0,
                map@,
                side,
                frontier,
                a0,
                incoming.size as nat,
                taken,
                consumed as nat,
                crossed as nat,
            ),
        invariant
            l0 == old(map)@,
            f0 == old(fills)@,
            a0 == old(incoming).size,
            levels_repr(l0),
            side_ok(levels_of(l0)),
            a0 <= side_volume(levels_of(l0), side),
            fills@ == f0 + taken,
            consumed <= taken.len(),
            crossed <= taken.len(),
            incoming.id == old(incoming).id,
            incoming.user_id == old(incoming).user_id,
            incoming.bid_or_ask == old(incoming).bid_or_ask,
        ensures
            swept(l0, map@, side, a0, taken, consumed as nat, crossed as nat),
            incoming.size == 0,
        decreases rank_high() - frontier,
    {
        if incoming.size == 0 {
            proof {
                lemma_sweep_done(
                    l0,
                    map@,
                    side,
                    frontier,
                    a0,
                    taken,
                    consumed as nat,
                    crossed as nat,
                );
            }
            break ;
        }
        let ghost cur = map@;
        let ghost left = incoming.size as nat;
        let ghost before = fills@;
        proof {
            lemma_sweep_goes_on(
                l0,
                cur,
                side,
                frontier,
                a0,
                left,
                taken,
                consumed as nat,
                crossed as nat,
            );
        }
        let popped = pop_best(map, side);
        let (k, mut level) = popped.unwrap();
        let ghost q = cur[k].queue();
        assert(level == cur[k]);
        proof {
            lemma_sweep_level(
                l0,
                cur,
                side,
                frontier,
                a0,
                left,
                taken,
                consumed as nat,
                crossed as nat,
                k,
            );
        }
        let stats = level.fill_order(incoming, fills);
        assert(fills.len() <= usize::MAX);
        proof {
            assert(fills@ == before + fills_of(q, left));
            assert(f0 + (taken + fills_of(q, left)) =~= (f0 + taken) + fills_of(q, left));
            lemma_volume_zero(level.queue());
        }
        if level.total_volume() > 0 {
            map.insert(k, level);
            proof {
                lemma_sweep_stops(
                    l0,
                    cur,
                    side,
                    frontier,
                    a0,
                    left,
                    taken,
                    consumed as nat,
                    crossed as nat,
                    k,
                    level,
                );
                taken = taken + fills_of(q, left);
            }
            consumed = consumed + stats.resting_orders_consumed;
            crossed = crossed + 1;
            break ;
        }
        proof {
            lemma_sweep_exhausts(
                l0,
                cur,
                side,
                frontier,
                a0,
                left,
                taken,
                consumed as nat,
                crossed as nat,
                k,
            );
            taken = taken + fills_of(q, left);
            frontier = rank(side, k as int) + 1;
        }
        consumed = consumed + stats.resting_orders_consumed;
        crossed = crossed + 1;
    }
    proof {
        reveal(swept);
    }
    (consumed, crossed)
}

/// Copies of the levels of a side, the best price first.
fn listed(map: &BTreeMap<Tick, Limit>, side: BidOrAsk) -> (out: Vec<Limit>)
    requires
        levels_repr(map@),
    ensures
        out@.len() == map@.dom().len(),
        forall|i: int| 0 <= i < out@.len() ==> #[trigger] map@.contains_key(out@[i].spec_price()),
        forall|i: int| 0 <= i < out@.len() ==> (#[trigger] out@[i]) == map@[out@[i].spec_price()],
        forall|i: int, j: int|
            0 <= i < j < out@.len() ==> rank(side, (#[trigger] out@[i]).spec_price() as int) < rank(
                side,
                (#[trigger] out@[j]).spec_price() as int,
            ),
        forall|p: Tick| #[trigger]
            map@.contains_key(p) ==> exists|i: int|
                0 <= i < out@.len() && (#[trigger] out@[i]).spec_price() == p,
{
    let mut rest = map.clone();
    let mut out: Vec<Limit> = Vec::new();
    loop
        invariant
            levels_repr(map@),
            rest@.dom().finite(),
            map@.dom().finite(),
            out@.len() + rest@.dom().len() == map@.dom().len(),
            forall|p: Tick| #[trigger] rest@.contains_key(p) ==> map@.contains_key(p) && rest@[p]
                == map@[p],
            forall|i: int|
                0 <= i < out@.len() ==> #[trigger] map@.contains_key(out@[i].spec_price()),
            forall|i: int|
                0 <= i < out@.len() ==> (#[trigger] out@[i]) == map@[out@[i].spec_price()],
            forall|i: int, j: int|
                0 <= i < j < out@.len() ==> rank(side, (#[trigger] out@[i]).spec_price() as int)
                    < rank(side, (#[trigger] out@[j]).spec_price() as int),
            forall|i: int, p: Tick|
                0 <= i < out@.len() && #[trigger] rest@.contains_key(p) ==> rank(
                    side,
                    (#[trigger] out@[i]).spec_price() as int,
                ) < rank(side, p as int),
            forall|p: Tick| #[trigger]
                map@.contains_key(p) ==> rest@.contains_key(p) || exists|i: int|
                    0 <= i < out@.len() && (#[trigger] out@[i]).spec_price() == p,
        ensures
            out@.len() == map@.dom().len(),
            forall|p: Tick| #[trigger]
                map@.contains_key(p) ==> exists|i: int|
                    0 <= i < out@.len() && (#[trigger] out@[i]).spec_price() == p,
        decreases rest@.dom().len(),
    {
        let ghost before = rest@;
        let ghost listed_before = out@;
        match pop_best(&mut rest, side) {
            None => {
                assert(before.dom() =~= Set::<Tick>::empty());
                break ;
            },
            Some((k, level)) => {
                out.push(level);
                proof {
                    assert(before.contains_key(k));
                    assert(map@.contains_key(k) && level == map@[k]);
                    assert(level.spec_price() == k);
                    assert(rest@.dom() =~= before.dom().remove(k));
                    assert forall|p: Tick| #[trigger]
                        map@.contains_key(p) implies rest@.contains_key(p) || exists|i: int|
                        0 <= i < out@.len() && (#[trigger] out@[i]).spec_price() == p by {
                        if p == k {
                            assert(out@[out@.len() - 1].spec_price() == p);
                        } else if !before.contains_key(p) {
                            let i = choose|i: int|
                                0 <= i < listed_before.len() && (
                                #[trigger] listed_before[i]).spec_price() == p;
                            assert(out@[i] == listed_before[i]);
                        }
                    }
                    assert forall|i: int, j: int| 0 <= i < j < out@.len() implies rank(
                        side,
                        (#[trigger] out@[i]).spec_price() as int,
                    ) < rank(side, (#[trigger] out@[j]).spec_price() as int) by {
                        assert(out@[i] == listed_before[i]);
                        if j < listed_before.len() {
                            assert(out@[j] == listed_before[j]);
                        }
                    }
                    assert forall|i: int, p: Tick|
                        0 <= i < out@.len() && #[trigger] rest@.contains_key(p) implies rank(
                        side,
                        (#[trigger] out@[i]).spec_price() as int,
                    ) < rank(side, p as int) by {
                        assert(before.contains_key(p));
                        if i < listed_before.len() {
                            assert(out@[i] == listed_before[i]);
                        }
                    }
                }
            },
        }
    }
    out
}

/// The order book of one market.
#[derive(Debug)]
pub struct OrderBook {
    asks: BTreeMap<Tick, Limit>,
    bids: BTreeMap<Tick, Limit>,
    ask_capacity: Qty,
    bid_capacity: Qty,
}

impl OrderBook {
    /// The queues resting on `side`, by price.
    pub closed spec fn side(&self, side: BidOrAsk) -> Levels {
        match side {
            BidOrAsk::Ask => levels_of(self.asks@),
            BidOrAsk::Bid => levels_of(self.bids@),
        }
    }

    /// The cached capacity of `side`.
    pub closed spec fn capacity(&self, side: BidOrAsk) -> Qty {
        match side {
            BidOrAsk::Ask => self.ask_capacity,
            BidOrAsk::Bid => self.bid_capacity,
        }
    }

    /// Whether every level is well formed, records the volume of its queue and
    /// is filed under its own price.
    pub closed spec fn levels_ok(&self) -> bool {
        levels_repr(self.asks@) && levels_repr(self.bids@)
    }

    /// The book's invariant: no level is empty, every resting order has
    /// something left, each cached capacity is the volume of its side, and
    /// every bid is strictly below every ask.
    pub open spec fn wf(&self) -> bool {
        &&& self.levels_ok()
        &&& side_ok(self.side(BidOrAsk::Ask))
        &&& side_ok(self.side(BidOrAsk::Bid))
        &&& self.capacity(BidOrAsk::Ask) == side_volume(self.side(BidOrAsk::Ask), BidOrAsk::Ask)
        &&& self.capacity(BidOrAsk::Bid) == side_volume(self.side(BidOrAsk::Bid), BidOrAsk::Bid)
        &&& non_crossing(self.side(BidOrAsk::Ask), self.side(BidOrAsk::Bid))
    }

    /// An empty book.
    pub fn new() -> (book: OrderBook)
        ensures
            book.wf(),
            book.side(BidOrAsk::Ask) == Map::<Tick, Seq<RestingOrder>>::empty(),
            book.side(BidOrAsk::Bid) == Map::<Tick, Seq<RestingOrder>>::empty(),
            book.capacity(BidOrAsk::Ask) == 0,
            book.capacity(BidOrAsk::Bid) == 0,
    {
        let book = OrderBook {
            asks: BTreeMap::new(),
            bids: BTreeMap::new(),
            ask_capacity: 0,
            bid_capacity: 0,
        };
        proof {
            let e = Map::<Tick, Seq<RestingOrder>>::empty();
            assert(book.side(BidOrAsk::Ask) =~= e);
            assert(book.side(BidOrAsk::Bid) =~= e);
            lemma_gap(e, BidOrAsk::Ask, rank_low(), rank_high(), 0);
            lemma_gap(e, BidOrAsk::Bid, rank_low(), rank_high(), 0);
        }
        book
    }

    /// The total volume resting on the bid side.
    pub fn bid_capacity(&self) -> (r: Qty)
        ensures
            r == self.capacity(BidOrAsk::Bid),
    {
        self.bid_capacity
    }

    /// The total volume resting on the ask side.
    pub fn ask_capacity(&self) -> (r: Qty)
        ensures
            r == self.capacity(BidOrAsk::Ask),
    {
        self.ask_capacity
    }

    /// The lowest ask price, if there is any ask.
    pub fn best_ask(&self) -> (r: Option<Tick>)
        ensures
            match r {
                Some(k) => is_best(self.side(BidOrAsk::Ask), BidOrAsk::Ask, k),
                None => forall|j: Tick| !self.side(BidOrAsk::Ask).contains_key(j),
            },
    {
        best_key(&self.asks, BidOrAsk::Ask)
    }

    /// The highest bid price, if there is any bid.
    pub fn best_bid(&self) -> (r: Option<Tick>)
        ensures
            match r {
                Some(k) => is_best(self.side(BidOrAsk::Bid), BidOrAsk::Bid, k),
                None => forall|j: Tick| !self.side(BidOrAsk::Bid).contains_key(j),
            },
    {
        best_key(&self.bids, BidOrAsk::Bid)
    }

    /// The lowest ask price of a book that has asks.
    pub fn first_price_ask(&self) -> (r: Tick)
        requires
            exists|j: Tick| self.side(BidOrAsk::Ask).contains_key(j),
        ensures
            is_best(self.side(BidOrAsk::Ask), BidOrAsk::Ask, r),
    {
        self.best_ask().unwrap()
    }

    /// The highest bid price of a book that has bids.
    pub fn first_price_bid(&self) -> (r: Tick)
        requires
            exists|j: Tick| self.side(BidOrAsk::Bid).contains_key(j),
        ensures
            is_best(self.side(BidOrAsk::Bid), BidOrAsk::Bid, r),
    {
        self.best_bid().unwrap()
    }

    /// Whether a limit order at `price` on `side` would cross the opposing
    /// side: an ask at or below the best bid, a bid at or above the best ask.
    pub fn crosses(&self, price: Tick, side: BidOrAsk) -> (r: bool)
        ensures
            r == crossing(self.side(side.spec_opposite()), side, price),
    {
        match side {
            BidOrAsk::Ask => {
                match self.best_bid() {
                    Some(b) => {
                        proof {
                            if b >= price {
                                assert(self.side(BidOrAsk::Bid).contains_key(b));
                            }
                        }
                        b >= price
                    },
                    None => false,
                }
            },
            BidOrAsk::Bid => {
                match self.best_ask() {
                    Some(a) => {
                        proof {
                            if a <= price {
                                assert(self.side(BidOrAsk::Ask).contains_key(a));
                            }
                        }
                        a <= price
                    },
                    None => false,
                }
            },
        }
    }
    /// Rests a limit order at `price` on the order's own side: at the tail of
    /// the level there, or in a new level. An order of size zero rests nothing.
    ///
    /// The caller keeps the book from crossing; the engine does so by rejecting
    /// an order for which `crosses` holds.
    pub fn add_limit_order(&mut self, price: Tick, order: Order)
        requires
            old(self).wf(),
            order.size > 0 ==> !crossing(
                old(self).side(order.bid_or_ask.spec_opposite()),
                order.bid_or_ask,
                price,
            ),
            old(self).capacity(order.bid_or_ask) + order.size <= u64::MAX,
        ensures
            final(self).wf(),
            book_after_limit(
                *old(self),
                *final(self),
                order.bid_or_ask,
                price,
                order.id,
                order.size,
            ),
    {
        if order.size == 0 {
            return ;
        }
        let r = RestingOrder { id: order.id, qty: order.size };
        let ghost own = self.side(order.bid_or_ask);
        let ghost other = self.side(order.bid_or_ask.spec_opposite());
        proof {
            lemma_side_with(own, order.bid_or_ask, price, r.id, r.qty);
        }
        match order.bid_or_ask {
            BidOrAsk::Ask => {
                rest_order(&mut self.asks, BidOrAsk::Ask, price, r);
                self.ask_capacity = self.ask_capacity + order.size;
                proof {
                    assert forall|a: Tick, b: Tick| #[trigger]
                        self.side(BidOrAsk::Ask).contains_key(a) && #[trigger] self.side(
                            BidOrAsk::Bid,
                        ).contains_key(b) implies b < a by {
                        if a == price {
                            assert(other.contains_key(b));
                        } else {
                            assert(own.contains_key(a));
                        }
                    }
                }
            },
            BidOrAsk::Bid => {
                rest_order(&mut self.bids, BidOrAsk::Bid, price, r);
                self.bid_capacity = self.bid_capacity + order.size;
                proof {
                    assert forall|a: Tick, b: Tick| #[trigger]
                        self.side(BidOrAsk::Ask).contains_key(a) && #[trigger] self.side(
                            BidOrAsk::Bid,
                        ).contains_key(b) implies b < a by {
                        if b == price {
                            assert(other.contains_key(a));
                        } else {
                            assert(own.contains_key(b));
                        }
                    }
                }
            },
        }
    }

    /// Executes a market order against the opposing side, the best price
    /// first and the earliest order first within a price. Each match is
    /// appended to `fills` as it happens.
    ///
    /// The order is all or nothing: where the opposing side holds less than
    /// the order's size, nothing is changed and the report says so.
    pub fn match_market(&mut self, order: &mut Order, fills: &mut Vec<Fill>) -> (report:
        FillReport)
        requires
            old(self).wf(),
        ensures
            final(self).wf(),
            report == market_report(*old(self), old(order).bid_or_ask, old(order).size),
            book_after_market(*old(self), *final(self), old(order).bid_or_ask, old(order).size),
            final(fills)@ == old(fills)@ + market_fills(
                *old(self),
                old(order).bid_or_ask,
                old(order).size,
            ),
            final(order).size == report.remaining_qty,
            final(order).id == old(order).id,
            final(order).user_id == old(order).user_id,
            final(order).bid_or_ask == old(order).bid_or_ask,
    {
        let amount: Qty = order.size;
        let resting = order.bid_or_ask.opposite();
        let capacity: Qty = match resting {
            BidOrAsk::Ask => self.ask_capacity,
            BidOrAsk::Bid => self.bid_capacity,
        };
        if capacity < amount {
            assert(fills@ + Seq::<Fill>::empty() =~= fills@);
            return FillReport {
                insufficient_liquidity: true,
                fully_filled: false,
                filled_qty: 0,
                remaining_qty: amount,
                fills_total: 0,
                resting_orders_consumed: 0,
                levels_crossed: 0,
                total_matched_qty: 0,
            };
        }
        let ghost before = self.side(resting);
        let ghost other = self.side(order.bid_or_ask);
        let count_before: usize = fills.len();
        proof {
            lemma_side_after_ok(before, resting, amount as nat);
            lemma_side_after_volume(before, resting, amount as nat, rank_high());
        }
        let (consumed, crossed) = match resting {
            BidOrAsk::Ask => {
                let r = sweep_side(&mut self.asks, BidOrAsk::Ask, order, fills);
                self.ask_capacity = self.ask_capacity - amount;
                r
            },
            BidOrAsk::Bid => {
                let r = sweep_side(&mut self.bids, BidOrAsk::Bid, order, fills);
                self.bid_capacity = self.bid_capacity - amount;
                r
            },
        };
        proof {
            assert(self.side(resting) == side_after(before, resting, amount as nat));
            assert(self.side(old(order).bid_or_ask) == other);
            assert forall|a: Tick, b: Tick| #[trigger]
                self.side(BidOrAsk::Ask).contains_key(a) && #[trigger] self.side(
                    BidOrAsk::Bid,
                ).contains_key(b) implies b < a by {
                assert(old(self).side(BidOrAsk::Ask).contains_key(a));
                assert(old(self).side(BidOrAsk::Bid).contains_key(b));
            }
        }
        let fills_total: usize = fills.len() - count_before;
        FillReport {
            insufficient_liquidity: false,
            fully_filled: true,
            filled_qty: amount,
            remaining_qty: 0,
            fills_total: fills_total as u64,
            resting_orders_consumed: consumed,
            levels_crossed: crossed,
            total_matched_qty: amount,
        }
    }

    /// Whether `levels` lists the levels of `side`, each once, the best price
    /// first.
    pub open spec fn lists(&self, side: BidOrAsk, levels: Seq<Limit>) -> bool {
        &&& levels.len() == self.side(side).dom().len()
        &&& forall|i: int|
            0 <= i < levels.len() ==> {
                &&& (#[trigger] levels[i]).wf()
                &&& self.side(side).contains_key(levels[i].spec_price())
                &&& self.side(side)[levels[i].spec_price()] == levels[i].queue()
            }
        &&& forall|i: int, j: int|
            0 <= i < j < levels.len() ==> better(
                side,
                (#[trigger] levels[i]).spec_price(),
                (#[trigger] levels[j]).spec_price(),
            )
        &&& forall|p: Tick| #[trigger]
            self.side(side).contains_key(p) ==> exists|i: int|
                0 <= i < levels.len() && (#[trigger] levels[i]).spec_price() == p
    }

    /// Copies of the ask levels, the lowest price first.
    pub fn ask_limits(&self) -> (levels: Vec<Limit>)
        requires
            self.wf(),
        ensures
            self.lists(BidOrAsk::Ask, levels@),
    {
        let levels = listed(&self.asks, BidOrAsk::Ask);
        proof {
            let side = self.side(BidOrAsk::Ask);
            assert(side.dom() =~= self.asks@.dom());
            assert forall|i: int| 0 <= i < levels@.len() implies {
                &&& (#[trigger] levels@[i]).wf()
                &&& side.contains_key(levels@[i].spec_price())
                &&& side[levels@[i].spec_price()] == levels@[i].queue()
            } by {
                assert(self.asks@.contains_key(levels@[i].spec_price()));
            }
            assert forall|p: Tick| #[trigger] side.contains_key(p) implies exists|i: int|
                0 <= i < levels@.len() && (#[trigger] levels@[i]).spec_price() == p by {
                assert(self.asks@.contains_key(p));
            }
        }
        levels
    }

    /// Copies of the bid levels, the highest price first.
    pub fn bid_limits(&self) -> (levels: Vec<Limit>)
        requires
            self.wf(),
        ensures
            self.lists(BidOrAsk::Bid, levels@),
    {
        let levels = listed(&self.bids, BidOrAsk::Bid);
        proof {
            let side = self.side(BidOrAsk::Bid);
            assert(side.dom() =~= self.bids@.dom());
            assert forall|i: int| 0 <= i < levels@.len() implies {
                &&& (#[trigger] levels@[i]).wf()
                &&& side.contains_key(levels@[i].spec_price())
                &&& side[levels@[i].spec_price()] == levels@[i].queue()
            } by {
                assert(self.bids@.contains_key(levels@[i].spec_price()));
            }
            assert forall|p: Tick| #[trigger] side.contains_key(p) implies exists|i: int|
                0 <= i < levels@.len() && (#[trigger] levels@[i]).spec_price() == p by {
                assert(self.bids@.contains_key(p));
            }
        }
        levels
    }

    /// Executes a market order as `match_market` does, without handing out the
    /// single fills.
    pub fn fill_order_book(&mut self, market_order: &mut Order) -> (report: FillReport)
        requires
            old(self).wf(),
        ensures
            final(self).wf(),
            report == market_report(
                *old(self),
                old(market_order).bid_or_ask,
                old(market_order).size,
            ),
            book_after_market(
                *old(self),
                *final(self),
                old(market_order).bid_or_ask,
                old(market_order).size,
            ),
            final(market_order).size == report.remaining_qty,
            final(market_order).id == old(market_order).id,
            final(market_order).user_id == old(market_order).user_id,
            final(market_order).bid_or_ask == old(market_order).bid_or_ask,
    {
        let mut fills: Vec<Fill> = Vec::new();
        self.match_market(market_order, &mut fills)
    }
}

/// What a market order of `side` and `size` reports when it meets `book`. The
/// order is all or nothing: it is filled whole where the opposing side holds
/// its size, and not at all otherwise.
pub open spec fn market_report(book: OrderBook, side: BidOrAsk, size: Qty) -> FillReport {
    let resting = side.spec_opposite();
    let trace = sweep(book.side(resting), resting, size as nat);
    if book.capacity(resting) < size {
        FillReport {
            insufficient_liquidity: true,
            fully_filled: false,
            filled_qty: 0,
            remaining_qty: size,
            fills_total: 0,
            resting_orders_consumed: 0,
            levels_crossed: 0,
            total_matched_qty: 0,
        }
    } else {
        FillReport {
            insufficient_liquidity: false,
            fully_filled: true,
            filled_qty: size,
            remaining_qty: 0,
            fills_total: trace.fills.len() as u64,
            resting_orders_consumed: trace.consumed as u64,
            levels_crossed: trace.crossed as u64,
            total_matched_qty: size,
        }
    }
}

/// The fills that a market order of `side` and `size` makes in `book`: those
/// of the sweep where the opposing side holds the size, none otherwise.
pub open spec fn market_fills(book: OrderBook, side: BidOrAsk, size: Qty) -> Seq<Fill> {
    let resting = side.spec_opposite();
    if book.capacity(resting) < size {
        Seq::empty()
    } else {
        sweep(book.side(resting), resting, size as nat).fills
    }
}

/// What a market order of `side` and `size` makes of a book: nothing where
/// the opposing side holds less than the size; otherwise the opposing side is
/// swept, its capacity goes down by the size, and the order's own side stays.
pub open spec fn book_after_market(
    before: OrderBook,
    after: OrderBook,
    side: BidOrAsk,
    size: Qty,
) -> bool {
    let resting = side.spec_opposite();
    if before.capacity(resting) < size {
        after == before
    } else {
        &&& after.side(resting) == side_after(before.side(resting), resting, size as nat)
        &&& after.capacity(resting) == before.capacity(resting) - size
        &&& after.side(side) == before.side(side)
        &&& after.capacity(side) == before.capacity(side)
    }
}

/// What resting a limit order does to its book: the order joins its side at
/// its price, the side's capacity goes up by the size, and the opposing side
/// stays. An order of size zero rests nothing.
pub open spec fn book_after_limit(
    before: OrderBook,
    after: OrderBook,
    side: BidOrAsk,
    tick: Tick,
    id: u64,
    size: Qty,
) -> bool {
    &&& after.side(side.spec_opposite()) == before.side(side.spec_opposite())
    &&& after.capacity(side.spec_opposite()) == before.capacity(side.spec_opposite())
    &&& after.capacity(side) == before.capacity(side) + size
    &&& after.side(side) == if size == 0 {
        before.side(side)
    } else {
        side_with(before.side(side), tick, id, size)
    }
}

/// Capacity consistency: the cached capacity of each side of a well-formed
/// book is the volume that rests on it.
pub proof fn lemma_capacity_consistent(book: OrderBook, side: BidOrAsk)
    requires
        book.wf(),
    ensures
        book.capacity(side) == side_volume(book.side(side), side),
{
}

/// No empty levels: every level of a well-formed book holds an order, and
/// volume.
pub proof fn lemma_no_empty_level(book: OrderBook, side: BidOrAsk, price: Tick)
    requires
        book.wf(),
        book.side(side).contains_key(price),
    ensures
        book.side(side)[price].len() > 0,
        volume(book.side(side)[price]) > 0,
{
    lemma_volume_zero(book.side(side)[price]);
}

/// Non-crossing: where a well-formed book has both asks and bids, its best
/// ask is above its best bid.
pub proof fn lemma_non_crossing(book: OrderBook, best_ask: Tick, best_bid: Tick)
    requires
        book.wf(),
        is_best(book.side(BidOrAsk::Ask), BidOrAsk::Ask, best_ask),
        is_best(book.side(BidOrAsk::Bid), BidOrAsk::Bid, best_bid),
    ensures
        best_ask > best_bid,
{
}

/// All or nothing: a market order either takes exactly its size from the
/// opposing capacity and is left with nothing, or leaves the book as it was
/// and keeps its size.
pub proof fn lemma_all_or_nothing(before: OrderBook, after: OrderBook, side: BidOrAsk, size: Qty)
    requires
        book_after_market(before, after, side, size),
    ensures
        ({
            let resting = side.spec_opposite();
            let report = market_report(before, side, size);
            ||| (after.capacity(resting) == before.capacity(resting) - size
                && report.remaining_qty == 0)
            ||| (after == before && report.remaining_qty == size)
        }),
{
}

} // verus!
