//! Order snapshots: the lifecycle record that the engine keeps of every order
//! it has seen, and the table that holds them by identifier.

use crate::order::{BidOrAsk, Fill, OrderId, Qty};
use crate::pair::TradingPair;
use crate::tick::Tick;
use std::collections::HashMap;
use vstd::prelude::*;

verus! {

/// How an order takes liquidity or gives it.
#[derive(Clone, Copy, Debug, PartialEq, Eq, Structural)]
pub enum OrderType {
    Market,
    Limit,
}

/// Where an order stands in its life.
#[derive(Clone, Copy, Debug, PartialEq, Eq, Structural)]
pub enum OrderStatus {
    New,
    Open,
    PartiallyFilled,
    Filled,
    Rejected,
}

/// The record of one order.
#[derive(Debug, PartialEq, Eq)]
pub struct OrderSnapshot {
    pub id: OrderId,
    pub user_id: String,
    pub pair: TradingPair,
    pub side: BidOrAsk,
    pub order_type: OrderType,
    pub price: Option<Tick>,
    pub original_size: Qty,
    pub remaining_size: Qty,
    pub filled_size: Qty,
    pub status: OrderStatus,
}

/// What a snapshot says, with its texts as sequences of characters.
pub struct SnapshotView {
    pub id: OrderId,
    pub user_id: Seq<char>,
    pub pair: (Seq<char>, Seq<char>),
    pub side: BidOrAsk,
    pub order_type: OrderType,
    pub price: Option<Tick>,
    pub original_size: Qty,
    pub remaining_size: Qty,
    pub filled_size: Qty,
    pub status: OrderStatus,
}

impl View for OrderSnapshot {
    type V = SnapshotView;

    open spec fn view(&self) -> SnapshotView {
        SnapshotView {
            id: self.id,
            user_id: self.user_id@,
            pair: self.pair@,
            side: self.side,
            order_type: self.order_type,
            price: self.price,
            original_size: self.original_size,
            remaining_size: self.remaining_size,
            filled_size: self.filled_size,
            status: self.status,
        }
    }
}

impl Clone for OrderSnapshot {
    fn clone(&self) -> (r: Self)
        ensures
            r@ == self@,
    {
        OrderSnapshot {
            id: self.id,
            user_id: self.user_id.clone(),
            pair: self.pair.clone(),
            side: self.side,
            order_type: self.order_type,
            price: self.price,
            original_size: self.original_size,
            remaining_size: self.remaining_size,
            filled_size: self.filled_size,
            status: self.status,
        }
    }
}

/// What the host gets back for an order: its snapshot and a message.
#[derive(Debug, PartialEq, Eq)]
pub struct OrderResponse {
    pub order: OrderSnapshot,
    pub message: String,
}

/// Conservation: what an order asked for is what is left of it plus what was
/// filled.
pub open spec fn conserved(v: SnapshotView) -> bool {
    v.original_size == v.remaining_size + v.filled_size
}

/// Whether every snapshot in `orders` is conserved.
pub open spec fn all_conserved(orders: Seq<SnapshotView>) -> bool {
    forall|i: int| 0 <= i < orders.len() ==> conserved(#[trigger] orders[i])
}

/// Whether `orders` holds a snapshot of the order `id`.
pub open spec fn has_order(orders: Seq<SnapshotView>, id: OrderId) -> bool {
    exists|i: int| 0 <= i < orders.len() && (#[trigger] orders[i]).id == id
}

/// Where the snapshot of the order `id` stands in `orders`.
pub open spec fn position(orders: Seq<SnapshotView>, id: OrderId) -> int {
    choose|i: int| 0 <= i < orders.len() && (#[trigger] orders[i]).id == id
}

/// Whether no two snapshots in `orders` are of the same order.
pub open spec fn unique_ids(orders: Seq<SnapshotView>) -> bool {
    forall|i: int, j: int|
        0 <= i < j < orders.len() ==> (#[trigger] orders[i]).id != (#[trigger] orders[j]).id
}

/// `orders` with the snapshot `v` put in: in the place of the snapshot of the
/// same order if there is one, else at the end.
pub open spec fn upserted(orders: Seq<SnapshotView>, v: SnapshotView) -> Seq<SnapshotView> {
    if has_order(orders, v.id) {
        orders.update(position(orders, v.id), v)
    } else {
        orders.push(v)
    }
}

/// A snapshot after `qty` of its order has been matched: the quantity leaves
/// what remains (never below zero), the filled size is the rest of the
/// original, and the order is filled once nothing remains.
pub open spec fn after_fill(v: SnapshotView, qty: Qty) -> SnapshotView {
    let remaining: Qty = if v.remaining_size >= qty {
        (v.remaining_size - qty) as Qty
    } else {
        0
    };
    let filled: Qty = if v.original_size >= remaining {
        (v.original_size - remaining) as Qty
    } else {
        0
    };
    SnapshotView {
        remaining_size: remaining,
        filled_size: filled,
        status: if remaining == 0 {
            OrderStatus::Filled
        } else {
            OrderStatus::PartiallyFilled
        },
        ..v
    }
}

/// `orders` after one fill: the snapshot of the resting order, if the table
/// has one, records the match.
pub open spec fn fill_applied(orders: Seq<SnapshotView>, fill: Fill) -> Seq<SnapshotView> {
    if has_order(orders, fill.order_id) {
        let i = position(orders, fill.order_id);
        orders.update(i, after_fill(orders[i], fill.qty))
    } else {
        orders
    }
}

/// `orders` after the fills of `fills`, applied in their order.
pub open spec fn fills_applied(orders: Seq<SnapshotView>, fills: Seq<Fill>) -> Seq<SnapshotView>
    decreases fills.len(),
{
    if fills.len() == 0 {
        orders
    } else {
        fills_applied(fill_applied(orders, fills[0]), fills.drop_first())
    }
}

/// The snapshots in `orders` that belong to `user`, in their order.
pub open spec fn orders_of(orders: Seq<SnapshotView>, user: Seq<char>) -> Seq<SnapshotView> {
    orders.filter(|v: SnapshotView| v.user_id == user)
}

/// Among snapshots of distinct orders, an order's snapshot stands where it is
/// found.
pub proof fn lemma_position(orders: Seq<SnapshotView>, i: int)
    requires
        unique_ids(orders),
        0 <= i < orders.len(),
    ensures
        has_order(orders, orders[i].id),
        position(orders, orders[i].id) == i,
{
    let id = orders[i].id;
    let j = position(orders, id);
    assert(0 <= j < orders.len() && orders[j].id == id);
    if j < i {
        assert(orders[j].id != orders[i].id);
    } else if i < j {
        assert(orders[i].id != orders[j].id);
    }
}

/// Recording a fill keeps the identifiers, their uniqueness and conservation.
pub proof fn lemma_fill_applied(orders: Seq<SnapshotView>, fill: Fill)
    requires
        unique_ids(orders),
        all_conserved(orders),
    ensures
        unique_ids(fill_applied(orders, fill)),
        all_conserved(fill_applied(orders, fill)),
        fill_applied(orders, fill).len() == orders.len(),
        forall|i: int|
            0 <= i < orders.len() ==> (#[trigger] fill_applied(orders, fill)[i]).id
                == orders[i].id,
{
    let next = fill_applied(orders, fill);
    if has_order(orders, fill.order_id) {
        let p = position(orders, fill.order_id);
        assert(0 <= p < orders.len() && orders[p].id == fill.order_id);
        assert(conserved(orders[p]));
        assert forall|i: int| 0 <= i < next.len() implies conserved(#[trigger] next[i]) by {
            if i != p {
                assert(next[i] == orders[i]);
            }
        }
        assert forall|i: int, j: int| 0 <= i < j < next.len() implies (#[trigger] next[i]).id != (
        #[trigger] next[j]).id by {
            assert(next[i].id == orders[i].id);
            assert(next[j].id == orders[j].id);
        }
    }
}

/// Recording fills keeps the identifiers, their uniqueness and conservation.
pub proof fn lemma_fills_applied(orders: Seq<SnapshotView>, fills: Seq<Fill>)
    requires
        unique_ids(orders),
        all_conserved(orders),
    ensures
        unique_ids(fills_applied(orders, fills)),
        all_conserved(fills_applied(orders, fills)),
        fills_applied(orders, fills).len() == orders.len(),
        forall|i: int|
            0 <= i < orders.len() ==> (#[trigger] fills_applied(orders, fills)[i]).id
                == orders[i].id,
    decreases fills.len(),
{
    if fills.len() > 0 {
        lemma_fill_applied(orders, fills[0]);
        lemma_fills_applied(fill_applied(orders, fills[0]), fills.drop_first());
    }
}

/// Putting a conserved snapshot in keeps uniqueness and conservation.
pub proof fn lemma_upserted(orders: Seq<SnapshotView>, v: SnapshotView)
    requires
        unique_ids(orders),
        all_conserved(orders),
        conserved(v),
    ensures
        unique_ids(upserted(orders, v)),
        all_conserved(upserted(orders, v)),
        has_order(upserted(orders, v), v.id),
        upserted(orders, v)[position(upserted(orders, v), v.id)] == v,
{
    let next = upserted(orders, v);
    if has_order(orders, v.id) {
        let p = position(orders, v.id);
        assert(0 <= p < orders.len() && orders[p].id == v.id);
        assert forall|i: int| 0 <= i < next.len() implies conserved(#[trigger] next[i]) by {
            if i != p {
                assert(next[i] == orders[i]);
            }
        }
        assert forall|i: int, j: int| 0 <= i < j < next.len() implies (#[trigger] next[i]).id != (
        #[trigger] next[j]).id by {
            assert(next[i].id == orders[i].id);
            assert(next[j].id == orders[j].id);
        }
        assert(next[p] == v);
        lemma_position(next, p);
    } else {
        let p = orders.len() as int;
        assert forall|i: int| 0 <= i < next.len() implies conserved(#[trigger] next[i]) by {
            if i != p {
                assert(next[i] == orders[i]);
            }
        }
        assert forall|i: int, j: int| 0 <= i < j < next.len() implies (#[trigger] next[i]).id != (
        #[trigger] next[j]).id by {
            assert(next[i] == orders[i]);
            if j == p {
                assert(orders[i].id != v.id);
            } else {
                assert(next[j] == orders[j]);
            }
        }
        assert(next[p] == v);
        lemma_position(next, p);
    }
}

/// The snapshots of every order seen, in the order they were first seen, with
/// an index by identifier.
#[derive(Debug)]
pub struct OrderTable {
    snapshots: Vec<OrderSnapshot>,
    index: HashMap<OrderId, usize>,
}

impl View for OrderTable {
    type V = Seq<SnapshotView>;

    closed spec fn view(&self) -> Seq<SnapshotView> {
        self.snapshots@.map_values(|s: OrderSnapshot| s@)
    }
}

impl OrderTable {
    /// Whether the index leads to every snapshot, and to nothing else.
    pub closed spec fn index_ok(&self) -> bool {
        &&& forall|id: OrderId| #[trigger]
            self.index@.contains_key(id) ==> self.index@[id] < self.snapshots@.len()
                && self.snapshots@[self.index@[id] as int].id == id
        &&& forall|i: int|
            0 <= i < self.snapshots@.len() ==> self.index@.contains_key(
                (#[trigger] self.snapshots@[i]).id,
            ) && self.index@[self.snapshots@[i].id] == i
    }

    /// The table's invariant: one snapshot per order, each of them conserved.
    pub open spec fn wf(&self) -> bool {
        &&& self.index_ok()
        &&& unique_ids(self@)
        &&& all_conserved(self@)
    }

    /// An empty table.
    pub fn new() -> (t: OrderTable)
        ensures
            t.wf(),
            t@ == Seq::<SnapshotView>::empty(),
    {
        let t = OrderTable { snapshots: Vec::new(), index: HashMap::new() };
        assert(t@ =~= Seq::<SnapshotView>::empty());
        t
    }

    /// The number of orders seen.
    pub fn len(&self) -> (n: usize)
        ensures
            n == self@.len(),
    {
        self.snapshots.len()
    }

    proof fn lemma_index(&self, id: OrderId)
        requires
            self.index_ok(),
            unique_ids(self@),
        ensures
            self.index@.contains_key(id) <==> has_order(self@, id),
            self.index@.contains_key(id) ==> position(self@, id) == self.index@[id],
    {
        if self.index@.contains_key(id) {
            let i = self.index@[id] as int;
            assert(self@[i].id == id);
            lemma_position(self@, i);
        }
        if has_order(self@, id) {
            let i = position(self@, id);
            assert(0 <= i < self@.len() && self@[i].id == id);
            assert(self.snapshots@[i].id == id);
        }
    }

    /// The snapshot of the order `id`, if the table has one.
    pub fn get(&self, id: OrderId) -> (r: Option<&OrderSnapshot>)
        requires
            self.wf(),
        ensures
            r is Some <==> has_order(self@, id),
            r is Some ==> r->0@ == self@[position(self@, id)] && r->0.id == id,
    {
        proof {
            self.lemma_index(id);
        }
        match self.index.get(&id) {
            Some(i) => {
                let s = &self.snapshots[*i];
                Some(s)
            },
            None => None,
        }
    }

    /// Puts `snapshot` in: in the place of the snapshot of the same order if
    /// there is one, else at the end.
    pub fn upsert(&mut self, snapshot: OrderSnapshot)
        requires
            old(self).wf(),
            conserved(snapshot@),
        ensures
            final(self).wf(),
            final(self)@ == upserted(old(self)@, snapshot@),
    {
        let id = snapshot.id;
        proof {
            self.lemma_index(id);
            lemma_upserted(self@, snapshot@);
        }
        let found: Option<usize> = match self.index.get(&id) {
            Some(i) => Some(*i),
            None => None,
        };
        match found {
            Some(i) => {
                self.snapshots.set(i, snapshot);
                assert(self@ =~= upserted(old(self)@, snapshot@));
            },
            None => {
                let i = self.snapshots.len();
                self.snapshots.push(snapshot);
                self.index.insert(id, i);
                assert(self@ =~= upserted(old(self)@, snapshot@));
            },
        }
    }

    /// Records one fill in the snapshot of the resting order, if the table has
    /// one.
    pub fn apply_fill(&mut self, fill: Fill)
        requires
            old(self).wf(),
        ensures
            final(self).wf(),
            final(self)@ == fill_applied(old(self)@, fill),
    {
        proof {
            self.lemma_index(fill.order_id);
            lemma_fill_applied(self@, fill);
        }
        let found: Option<usize> = match self.index.get(&fill.order_id) {
            Some(i) => Some(*i),
            None => None,
        };
        match found {
            Some(i) => {
                let s = &self.snapshots[i];
                let remaining: Qty = if s.remaining_size >= fill.qty {
                    s.remaining_size - fill.qty
                } else {
                    0
                };
                let filled: Qty = if s.original_size >= remaining {
                    s.original_size - remaining
                } else {
                    0
                };
                let updated = OrderSnapshot {
                    id: s.id,
                    user_id: s.user_id.clone(),
                    pair: s.pair.clone(),
                    side: s.side,
                    order_type: s.order_type,
                    price: s.price,
                    original_size: s.original_size,
                    remaining_size: remaining,
                    filled_size: filled,
                    status: if remaining == 0 {
                        OrderStatus::Filled
                    } else {
                        OrderStatus::PartiallyFilled
                    },
                };
                assert(updated@ == after_fill(old(self)@[i as int], fill.qty));
                self.snapshots.set(i, updated);
                assert(self@ =~= fill_applied(old(self)@, fill));
            },
            None => {},
        }
    }

    /// Records the fills of `fills`, in their order.
    pub fn apply_fills(&mut self, fills: &Vec<Fill>)
        requires
            old(self).wf(),
        ensures
            final(self).wf(),
            final(self)@ == fills_applied(old(self)@, fills@),
    {
        let n: usize = fills.len();
        let mut i: usize = 0;
        assert(fills@.subrange(0, n as int) =~= fills@);
        while i < n
            invariant
                n == fills@.len(),
                i <= n,
                self.wf(),
                fills_applied(self@, fills@.subrange(i as int, n as int)) == fills_applied(
                    old(self)@,
                    fills@,
                ),
            decreases n - i,
        {
            let ghost rest = fills@.subrange(i as int, n as int);
            assert(rest[0] == fills@[i as int]);
            assert(rest.drop_first() =~= fills@.subrange(i + 1, n as int));
            self.apply_fill(fills[i]);
            i = i + 1;
        }
        assert(fills@.subrange(n as int, n as int).len() == 0);
    }

    /// The snapshots of the orders that `user` placed, in the order they were
    /// first seen.
    pub fn for_user(&self, user: &str) -> (r: Vec<OrderSnapshot>)
        requires
            self.wf(),
        ensures
            r@.map_values(|s: OrderSnapshot| s@) == orders_of(self@, user@),
    {
        let wanted = user.to_string();
        let mut out: Vec<OrderSnapshot> = Vec::new();
        let n: usize = self.snapshots.len();
        let mut i: usize = 0;
        let ghost pred = |v: SnapshotView| v.user_id == user@;
        assert(self@.subrange(0, 0) =~= Seq::<SnapshotView>::empty());
        assert(out@.map_values(|s: OrderSnapshot| s@) =~= self@.subrange(0, 0).filter(pred));
        while i < n
            invariant
                n == self.snapshots@.len(),
                i <= n,
                wanted@ == user@,
                pred == (|v: SnapshotView| v.user_id == user@),
                out@.map_values(|s: OrderSnapshot| s@) == self@.subrange(0, i as int).filter(pred),
            decreases n - i,
        {
            let s = &self.snapshots[i];
            let ghost before = self@.subrange(0, i as int);
            let ghost after = self@.subrange(0, i + 1);
            proof {
                assert(after.drop_last() =~= before);
                assert(after.last() == s@);
                reveal_with_fuel(Seq::filter, 2);
            }
            if s.user_id == wanted {
                let ghost old_out = out@;
                out.push(s.clone());
                assert(out@.map_values(|s: OrderSnapshot| s@) =~= old_out.map_values(
                    |s: OrderSnapshot| s@,
                ).push(s@));
            }
            i = i + 1;
        }
        assert(self@.subrange(0, n as int) =~= self@);
        out
    }
}

/// The counters that an engine accumulates over its market orders.
#[derive(Clone, Copy, Debug, PartialEq, Eq, Structural)]
pub struct EngineStats {
    pub fills_total: u64,
    pub resting_orders_consumed_total: u64,
    pub levels_crossed_total: u64,
    pub total_matched_qty: Qty,
}

} // verus!
