//! A price level: the first-in first-out queue of the orders resting at one
//! price, with their total volume.

use crate::order::{Fill, Order, Qty, RestingOrder};
use crate::tick::Tick;
use std::collections::VecDeque;
use vstd::prelude::*;

verus! {

/// The total quantity of the orders in `q`.
pub open spec fn volume(q: Seq<RestingOrder>) -> nat
    decreases q.len(),
{
    if q.len() == 0 {
        0
    } else {
        q[0].qty as nat + volume(q.drop_first())
    }
}

/// Whether every order in `q` has something left.
pub open spec fn all_positive(q: Seq<RestingOrder>) -> bool {
    forall|i: int| 0 <= i < q.len() ==> (#[trigger] q[i]).qty > 0
}

/// The quantity that an incoming order of size `amount` takes from `q`: all
/// of the order, or all of the queue, whichever is less.
pub open spec fn matched(q: Seq<RestingOrder>, amount: nat) -> nat {
    if amount <= volume(q) {
        amount
    } else {
        volume(q)
    }
}

/// The fills, in the order they happen, when an incoming order of size
/// `amount` is matched against the queue `q` from its head.
pub open spec fn fills_of(q: Seq<RestingOrder>, amount: nat) -> Seq<Fill>
    decreases q.len(),
{
    if amount == 0 || q.len() == 0 {
        Seq::empty()
    } else if amount >= q[0].qty {
        seq![Fill { order_id: q[0].id, qty: q[0].qty }] + fills_of(
            q.drop_first(),
            (amount - q[0].qty) as nat,
        )
    } else {
        seq![Fill { order_id: q[0].id, qty: amount as Qty }]
    }
}

/// The queue that is left when an incoming order of size `amount` has been
/// matched against `q` from its head: orders taken whole are gone, and an
/// order taken in part keeps its place with what is left of it.
pub open spec fn rest_after(q: Seq<RestingOrder>, amount: nat) -> Seq<RestingOrder>
    decreases q.len(),
{
    if amount == 0 || q.len() == 0 {
        q
    } else if amount >= q[0].qty {
        rest_after(q.drop_first(), (amount - q[0].qty) as nat)
    } else {
        seq![RestingOrder { id: q[0].id, qty: (q[0].qty - amount) as Qty }] + q.drop_first()
    }
}

/// Appending an order adds its quantity to the volume.
pub proof fn lemma_volume_push(q: Seq<RestingOrder>, r: RestingOrder)
    ensures
        volume(q.push(r)) == volume(q) + r.qty,
    decreases q.len(),
{
    if q.len() == 0 {
        assert(q.push(r).drop_first() =~= Seq::<RestingOrder>::empty());
        assert(volume(q.push(r).drop_first()) == 0);
    } else {
        lemma_volume_push(q.drop_first(), r);
        assert(q.push(r).drop_first() =~= q.drop_first().push(r));
    }
}

/// A queue of orders that all have something left is empty exactly when its
/// volume is zero.
pub proof fn lemma_volume_zero(q: Seq<RestingOrder>)
    requires
        all_positive(q),
    ensures
        volume(q) == 0 <==> q.len() == 0,
{
    if q.len() > 0 {
        assert(q[0].qty > 0);
    }
}

/// What matching produces, stated without recursion: the fills name the
/// orders of the queue from its head on, one fill per order and in arrival
/// order; every fill but the last takes its order whole; the fills add up to
/// the matched quantity; and what is left of the queue holds the rest of the
/// volume, each order with something left.
pub proof fn lemma_match_properties(q: Seq<RestingOrder>, amount: nat)
    requires
        all_positive(q),
    ensures
        fills_of(q, amount).len() <= q.len(),
        forall|i: int|
            0 <= i < fills_of(q, amount).len() ==> (#[trigger] fills_of(q, amount)[i]).order_id
                == q[i].id && 0 < fills_of(q, amount)[i].qty <= q[i].qty,
        forall|i: int|
            0 <= i < fills_of(q, amount).len() - 1 ==> (#[trigger] fills_of(q, amount)[i]).qty
                == q[i].qty,
        fill_total(fills_of(q, amount)) == matched(q, amount),
        volume(rest_after(q, amount)) == volume(q) - matched(q, amount),
        all_positive(rest_after(q, amount)),
        rest_after(q, amount).len() <= q.len(),
        q.len() - rest_after(q, amount).len() <= fills_of(q, amount).len(),
        amount >= volume(q) ==> rest_after(q, amount).len() == 0,
        amount < volume(q) ==> rest_after(q, amount).len() > 0,
    decreases q.len(),
{
    let f = fills_of(q, amount);
    if amount == 0 || q.len() == 0 {
        lemma_volume_zero(q);
    } else if amount >= q[0].qty {
        let t = q.drop_first();
        let a = (amount - q[0].qty) as nat;
        assert(all_positive(t)) by {
            assert forall|i: int| 0 <= i < t.len() implies (#[trigger] t[i]).qty > 0 by {
                assert(t[i] == q[i + 1]);
            }
        }
        lemma_match_properties(t, a);
        let ft = fills_of(t, a);
        let head = seq![Fill { order_id: q[0].id, qty: q[0].qty }];
        assert(f == head + ft);
        assert forall|i: int| 0 <= i < f.len() implies (#[trigger] f[i]).order_id == q[i].id && 0
            < f[i].qty <= q[i].qty by {
            if i > 0 {
                assert(f[i] == ft[i - 1]);
                assert(t[i - 1] == q[i]);
            }
        }
        assert forall|i: int| 0 <= i < f.len() - 1 implies (#[trigger] f[i]).qty == q[i].qty by {
            if i > 0 {
                assert(f[i] == ft[i - 1]);
                assert(t[i - 1] == q[i]);
            }
        }
        assert(f.drop_first() =~= ft);
        assert(f[0].qty == q[0].qty);
        assert(fill_total(f) == q[0].qty + fill_total(ft));
    } else {
        let rest = rest_after(q, amount);
        let t = q.drop_first();
        let head = RestingOrder { id: q[0].id, qty: (q[0].qty - amount) as Qty };
        assert(rest.drop_first() =~= t);
        assert(all_positive(rest)) by {
            assert forall|i: int| 0 <= i < rest.len() implies (#[trigger] rest[i]).qty > 0 by {
                if i > 0 {
                    assert(rest[i] == q[i]);
                }
            }
        }
        assert(f.drop_first() =~= Seq::<Fill>::empty());
        assert(f[0].qty == amount);
        assert(fill_total(f) == amount + fill_total(f.drop_first()));
        assert(volume(rest) == head.qty + volume(t));
    }
}

/// The total quantity of the fills in `f`.
pub open spec fn fill_total(f: Seq<Fill>) -> nat
    decreases f.len(),
{
    if f.len() == 0 {
        0
    } else {
        f[0].qty as nat + fill_total(f.drop_first())
    }
}

/// What one price level did to an incoming order.
#[derive(Clone, Copy, Debug, PartialEq, Eq, Structural)]
pub struct FillStats {
    /// Number of matches made.
    pub fills_total: u64,
    /// Number of resting orders taken whole and removed.
    pub resting_orders_consumed: u64,
    /// Quantity matched.
    pub total_matched_qty: Qty,
}

/// The orders resting at one price, in arrival order, and their total volume.
#[derive(Clone, Debug)]
pub struct Limit {
    price: Tick,
    orders: VecDeque<RestingOrder>,
    total_volume: Qty,
}

impl Limit {
    /// The price of the level.
    pub closed spec fn spec_price(&self) -> Tick {
        self.price
    }

    /// The resting orders, the earliest first.
    pub closed spec fn queue(&self) -> Seq<RestingOrder> {
        self.orders@
    }

    /// The recorded total volume.
    pub closed spec fn spec_total_volume(&self) -> Qty {
        self.total_volume
    }

    /// The level's invariant: the recorded volume is the sum of the queue, and
    /// every resting order has something left.
    pub open spec fn wf(&self) -> bool {
        &&& self.spec_total_volume() == volume(self.queue())
        &&& all_positive(self.queue())
    }

    /// An empty level at `price`.
    pub fn new(price: Tick) -> (l: Limit)
        ensures
            l.wf(),
            l.spec_price() == price,
            l.queue() == Seq::<RestingOrder>::empty(),
            l.spec_total_volume() == 0,
    {
        Limit { price, orders: VecDeque::new(), total_volume: 0 }
    }

    /// The price of the level.
    #[verifier::when_used_as_spec(spec_price)]
    pub fn price(&self) -> (r: Tick)
        ensures
            r == self.spec_price(),
    {
        self.price
    }

    /// The total volume resting at the level.
    #[verifier::when_used_as_spec(spec_total_volume)]
    pub fn total_volume(&self) -> (r: Qty)
        ensures
            r == self.spec_total_volume(),
    {
        self.total_volume
    }

    /// The number of orders resting at the level.
    pub fn order_count(&self) -> (r: usize)
        ensures
            r == self.queue().len(),
    {
        self.orders.len()
    }

    /// The resting orders, the earliest first.
    pub fn orders(&self) -> (r: Vec<RestingOrder>)
        ensures
            r@ == self.queue(),
    {
        let mut out: Vec<RestingOrder> = Vec::new();
        let n: usize = self.orders.len();
        let mut i: usize = 0;
        while i < n
            invariant
                n == self.orders@.len(),
                i <= n,
                out@ == self.orders@.subrange(0, i as int),
            decreases n - i,
        {
            out.push(self.orders[i]);
            i = i + 1;
            assert(out@ =~= self.orders@.subrange(0, i as int));
        }
        assert(out@ =~= self.orders@);
        out
    }

    /// Puts `r` at the tail of the queue and adds its quantity to the volume.
    pub fn add_order(&mut self, r: RestingOrder)
        requires
            old(self).wf(),
            r.qty > 0,
            old(self).spec_total_volume() + r.qty <= u64::MAX,
        ensures
            final(self).wf(),
            final(self).spec_price() == old(self).spec_price(),
            final(self).queue() == old(self).queue().push(r),
            final(self).spec_total_volume() == old(self).spec_total_volume() + r.qty,
    {
        proof {
            lemma_volume_push(self.orders@, r);
        }
        self.orders.push_back(r);
        self.total_volume = self.total_volume + r.qty;
    }

    /// Matches `incoming` against the queue from its head, until the incoming
    /// order is filled or the queue is empty. Each match is appended to
    /// `fills` as it happens.
    pub fn fill_order(&mut self, incoming: &mut Order, fills: &mut Vec<Fill>) -> (stats: FillStats)
        requires
            old(self).wf(),
        ensures
            final(self).wf(),
            final(self).spec_price() == old(self).spec_price(),
            final(self).queue() == rest_after(old(self).queue(), old(incoming).size as nat),
            final(fills)@ == old(fills)@ + fills_of(old(self).queue(), old(incoming).size as nat),
            final(incoming).size == old(incoming).size - matched(
                old(self).queue(),
                old(incoming).size as nat,
            ),
            final(incoming).id == old(incoming).id,
            final(incoming).user_id == old(incoming).user_id,
            final(incoming).bid_or_ask == old(incoming).bid_or_ask,
            final(self).spec_total_volume() == old(self).spec_total_volume() - matched(
                old(self).queue(),
                old(incoming).size as nat,
            ),
            stats.fills_total == fills_of(old(self).queue(), old(incoming).size as nat).len(),
            stats.resting_orders_consumed == old(self).queue().len() - final(self).queue().len(),
            stats.total_matched_qty == matched(old(self).queue(), old(incoming).size as nat),
    {
        let ghost q0 = self.orders@;
        let ghost a0 = incoming.size as nat;
        let ghost f0 = fills@;
        let mut stats =
            FillStats { fills_total: 0, resting_orders_consumed: 0, total_matched_qty: 0 };
        proof {
            assert(f0 + fills_of(q0, a0) =~= fills@ + fills_of(self.orders@, incoming.size as nat));
        }
        while incoming.size > 0 && self.orders.len() > 0
            invariant
                self.wf(),
                self.price == old(self).price,
                incoming.id == old(incoming).id,
                incoming.user_id == old(incoming).user_id,
                incoming.bid_or_ask == old(incoming).bid_or_ask,
                q0 == old(self).queue(),
                a0 == old(incoming).size,
                f0 == old(fills)@,
                rest_after(self.orders@, incoming.size as nat) == rest_after(q0, a0),
                f0 + fills_of(q0, a0) == fills@ + fills_of(self.orders@, incoming.size as nat),
                incoming.size <= a0,
                (a0 - incoming.size) + matched(self.orders@, incoming.size as nat) == matched(
                    q0,
                    a0,
                ),
                volume(q0) - volume(self.orders@) == a0 - incoming.size,
                stats.total_matched_qty == a0 - incoming.size,
                stats.fills_total == fills@.len() - f0.len(),
                stats.resting_orders_consumed == q0.len() - self.orders@.len(),
                stats.resting_orders_consumed <= stats.fills_total,
                self.orders@.len() <= q0.len(),
            decreases self.orders@.len(), incoming.size,
        {
            let ghost q = self.orders@;
            let ghost a = incoming.size as nat;
            let ghost f = fills@;
            let head_opt = self.orders.pop_front();
            let head = head_opt.unwrap();
            assert(head == q[0]);
            assert(self.orders@ =~= q.drop_first());
            assert(head.qty > 0);
            if incoming.size >= head.qty {
                let m: Qty = head.qty;
                incoming.size = incoming.size - m;
                self.total_volume = self.total_volume - m;
                fills.push(Fill { order_id: head.id, qty: m });
                assert(fills.len() <= usize::MAX);
                stats.fills_total = stats.fills_total + 1;
                stats.resting_orders_consumed = stats.resting_orders_consumed + 1;
                stats.total_matched_qty = stats.total_matched_qty + m;
                proof {
                    let step = seq![Fill { order_id: head.id, qty: m }];
                    assert(fills@ =~= f + step);
                    assert(fills_of(q, a) == step + fills_of(q.drop_first(), (a - m) as nat));
                    assert(f + (step + fills_of(q.drop_first(), (a - m) as nat)) =~= (f + step)
                        + fills_of(q.drop_first(), (a - m) as nat));
                    assert(all_positive(self.orders@)) by {
                        assert forall|i: int| 0 <= i < self.orders@.len() implies (
                        #[trigger] self.orders@[i]).qty > 0 by {
                            assert(self.orders@[i] == q[i + 1]);
                        }
                    }
                }
            } else {
                let m: Qty = incoming.size;
                let left = RestingOrder { id: head.id, qty: head.qty - m };
                self.orders.push_front(left);
                self.total_volume = self.total_volume - m;
                incoming.size = 0;
                fills.push(Fill { order_id: head.id, qty: m });
                assert(fills.len() <= usize::MAX);
                stats.fills_total = stats.fills_total + 1;
                stats.total_matched_qty = stats.total_matched_qty + m;
                proof {
                    let step = seq![Fill { order_id: head.id, qty: m }];
                    assert(fills@ =~= f + step);
                    assert(fills_of(q, a) == step);
                    assert(fills_of(self.orders@, 0) =~= Seq::<Fill>::empty());
                    assert(fills@ + fills_of(self.orders@, 0) =~= f + step);
                    assert(self.orders@ =~= seq![left] + q.drop_first());
                    assert(self.orders@.drop_first() =~= q.drop_first());
                    assert(all_positive(self.orders@)) by {
                        assert forall|i: int| 0 <= i < self.orders@.len() implies (
                        #[trigger] self.orders@[i]).qty > 0 by {
                            if i > 0 {
                                assert(self.orders@[i] == q[i]);
                            }
                        }
                    }
                }
            }
        }
        proof {
            lemma_volume_zero(self.orders@);
            assert(fills_of(self.orders@, incoming.size as nat) =~= Seq::<Fill>::empty());
            assert(fills@ + fills_of(self.orders@, incoming.size as nat) =~= fills@);
            assert(fills@ == f0 + fills_of(q0, a0));
            assert(fills@.len() == f0.len() + fills_of(q0, a0).len());
        }
        stats
    }
}

} // verus!
