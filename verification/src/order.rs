//! Orders as they arrive, as they rest in a price level, and the fills that
//! matching produces.

use vstd::prelude::*;

verus! {

/// Identifies an order. `0` means that no identifier has been assigned yet.
pub type OrderId = u64;

/// A quantity in units of `1 / QTY_SCALE`.
pub type Qty = u64;

/// Number of quantity units in one whole unit of the traded asset.
pub const QTY_SCALE: u64 = 100_000_000;

/// Number of fractional decimal digits that a quantity keeps.
pub const QTY_DECIMALS: u32 = 8;

/// The identifier that stands for "not assigned".
pub const UNASSIGNED: OrderId = 0;

/// The side of the book an order belongs to.
#[derive(Clone, Copy, Debug, PartialEq, Eq, Structural, Hash)]
pub enum BidOrAsk {
    /// A buy order.
    Bid,
    /// A sell order.
    Ask,
}

impl BidOrAsk {
    /// The side that an order of this side trades against.
    pub open spec fn spec_opposite(self) -> BidOrAsk {
        match self {
            BidOrAsk::Bid => BidOrAsk::Ask,
            BidOrAsk::Ask => BidOrAsk::Bid,
        }
    }

    /// The side that an order of this side trades against.
    #[verifier::when_used_as_spec(spec_opposite)]
    pub fn opposite(self) -> (r: BidOrAsk)
        ensures
            r == self.spec_opposite(),
    {
        match self {
            BidOrAsk::Bid => BidOrAsk::Ask,
            BidOrAsk::Ask => BidOrAsk::Bid,
        }
    }
}

/// An incoming order. Matching decrements `size` towards zero.
#[derive(Debug, PartialEq, Eq)]
pub struct Order {
    pub id: OrderId,
    pub user_id: String,
    pub size: Qty,
    pub bid_or_ask: BidOrAsk,
}

impl Order {
    /// An order of `size` on side `bid_or_ask`, with no identifier and no user.
    pub fn new(size: Qty, bid_or_ask: BidOrAsk) -> (o: Order)
        ensures
            o.id == UNASSIGNED,
            o.user_id@ == Seq::<char>::empty(),
            o.size == size,
            o.bid_or_ask == bid_or_ask,
    {
        Order { id: 0, user_id: String::new(), size, bid_or_ask }
    }

    /// An order of `size` on side `bid_or_ask` placed by `user_id`.
    pub fn with_user(size: Qty, bid_or_ask: BidOrAsk, user_id: String) -> (o: Order)
        ensures
            o.id == UNASSIGNED,
            o.user_id == user_id,
            o.size == size,
            o.bid_or_ask == bid_or_ask,
    {
        Order { id: 0, user_id, size, bid_or_ask }
    }

    /// Whether nothing of the order is left to match.
    pub fn is_filled(&self) -> (r: bool)
        ensures
            r == (self.size == 0),
    {
        self.size == 0
    }

    /// The quantity still to match.
    pub fn size(&self) -> (r: Qty)
        ensures
            r == self.size,
    {
        self.size
    }

    /// The side of the order.
    pub fn bid_or_ask(&self) -> (r: BidOrAsk)
        ensures
            r == self.bid_or_ask,
    {
        self.bid_or_ask
    }

    /// The identifier of the order, `UNASSIGNED` before first contact with an
    /// engine.
    pub fn id(&self) -> (r: OrderId)
        ensures
            r == self.id,
    {
        self.id
    }

    /// The name of the order's side: `"Bid"` or `"Ask"`.
    pub fn get_bid_or_ask(&self) -> (r: String)
        ensures
            r@ == side_name(self.bid_or_ask),
    {
        side_text(self.bid_or_ask)
    }
}

/// The name of a side as it appears in messages.
pub open spec fn side_name(side: BidOrAsk) -> Seq<char> {
    match side {
        BidOrAsk::Bid => "Bid"@,
        BidOrAsk::Ask => "Ask"@,
    }
}

/// The name of a side as it appears in messages.
pub fn side_text(side: BidOrAsk) -> (r: String)
    ensures
        r@ == side_name(side),
{
    match side {
        BidOrAsk::Bid => "Bid".to_string(),
        BidOrAsk::Ask => "Ask".to_string(),
    }
}

/// An order at rest inside a price level: who it is and how much is left.
#[derive(Clone, Copy, Debug, PartialEq, Eq, Structural)]
pub struct RestingOrder {
    pub id: OrderId,
    pub qty: Qty,
}

impl RestingOrder {
    /// The resting order `id` with `qty` left.
    pub fn new(id: OrderId, qty: Qty) -> (r: RestingOrder)
        ensures
            r.id == id,
            r.qty == qty,
    {
        RestingOrder { id, qty }
    }
}

/// One match: `qty` taken from the resting order `order_id`.
#[derive(Clone, Copy, Debug, PartialEq, Eq, Structural)]
pub struct Fill {
    pub order_id: OrderId,
    pub qty: Qty,
}

} // verus!
