//! Orders and fills, and the rules of price-time priority between orders.

use vstd::prelude::*;

verus! {

/// The side of the book an order belongs to.
#[derive(Clone, Copy, Debug, PartialEq, Eq, Structural)]
pub enum Side {
    /// An order to buy the base asset.
    Bid,
    /// An order to sell the base asset.
    Ask,
}

/// What becomes of the part of an order that finds no match.
#[derive(Clone, Copy, Debug, PartialEq, Eq, Structural)]
pub enum OrderType {
    /// Matches up to its limit price; what is left rests in the book.
    Limit,
    /// Matches at any price; what is left is discarded.
    Market,
    /// Matches up to its limit price; what is left is discarded.
    ImmediateOrCancel,
}

/// Where an order stands in its life.
#[derive(Clone, Copy, Debug, PartialEq, Eq, Structural)]
pub enum OrderStatus {
    /// Nothing of the order has been filled.
    Open,
    /// Part of the order has been filled, part remains.
    PartiallyFilled,
    /// Nothing remains of the order.
    Filled,
    /// The order was withdrawn, or its remainder discarded.
    Cancelled,
}

/// One order. The fields are shared by all order types; `order_type` alone
/// decides what happens to an unmatched remainder.
#[derive(Clone, Copy, Debug, PartialEq, Eq, Structural)]
pub struct Order {
    /// Unique within a market, assigned in increasing order.
    pub id: u64,
    /// The index of the owner's record in the market's ledger.
    pub owner: usize,
    /// The market the order is meant for.
    pub market: u64,
    pub side: Side,
    pub order_type: OrderType,
    /// The limit price in quote units per base unit; without meaning on a
    /// market order.
    pub price: u64,
    /// The quantity not yet filled.
    pub remaining: u64,
    /// The quantity the order was placed with.
    pub original: u64,
    /// Breaks ties between orders at one price: the lower number came first.
    pub seq: u64,
    pub status: OrderStatus,
}

/// One match between a resting order (the maker) and an incoming order (the
/// taker), at the maker's price.
#[derive(Clone, Copy, Debug, PartialEq, Eq, Structural)]
pub struct Fill {
    pub maker_order_id: u64,
    pub taker_order_id: u64,
    /// The resting order's price.
    pub price: u64,
    pub quantity: u64,
    /// The account of the resting order's owner.
    pub maker: usize,
    /// The account of the incoming order's owner.
    pub taker: usize,
    /// The side of the incoming order: a bid makes the taker the buyer.
    pub taker_side: Side,
}

impl Side {
    /// The side an order of this side trades against.
    pub open spec fn spec_opposite(self) -> Side {
        match self {
            Side::Bid => Side::Ask,
            Side::Ask => Side::Bid,
        }
    }

    /// The side an order of this side trades against.
    #[verifier::when_used_as_spec(spec_opposite)]
    pub fn opposite(self) -> (r: Side)
        ensures
            r == self.spec_opposite(),
    {
        match self {
            Side::Bid => Side::Ask,
            Side::Ask => Side::Bid,
        }
    }
}

/// The status of an order that rests in a book: open as long as nothing of
/// it has been filled.
pub open spec fn resting_status(remaining: u64, original: u64) -> OrderStatus {
    if remaining == original {
        OrderStatus::Open
    } else {
        OrderStatus::PartiallyFilled
    }
}

impl Order {
    /// The limit up to which the order may trade: none for a market order.
    pub open spec fn spec_limit(self) -> Option<u64> {
        if self.order_type == OrderType::Market {
            None
        } else {
            Some(self.price)
        }
    }

    /// The limit up to which the order may trade: none for a market order.
    #[verifier::when_used_as_spec(spec_limit)]
    pub fn limit(self) -> (r: Option<u64>)
        ensures
            r == self.spec_limit(),
    {
        match self.order_type {
            OrderType::Market => None,
            _ => Some(self.price),
        }
    }

    /// Strict price-time priority among orders of one side: a better price
    /// wins (higher for bids, lower for asks), and at equal price the lower
    /// sequence number.
    pub open spec fn spec_outranks(self, other: Order) -> bool {
        match self.side {
            Side::Bid => self.price > other.price || (self.price == other.price && self.seq
                < other.seq),
            Side::Ask => self.price < other.price || (self.price == other.price && self.seq
                < other.seq),
        }
    }

    /// Whether this order comes strictly before `other` in price-time
    /// priority. Both are taken to be of this order's side.
    #[verifier::when_used_as_spec(spec_outranks)]
    pub fn outranks(self, other: Order) -> (r: bool)
        ensures
            r == self.spec_outranks(other),
    {
        match self.side {
            Side::Bid => self.price > other.price || (self.price == other.price && self.seq
                < other.seq),
            Side::Ask => self.price < other.price || (self.price == other.price && self.seq
                < other.seq),
        }
    }

    /// Whether this incoming order may trade against a resting order of the
    /// other side at `maker_price`: always for a market order; for the
    /// others, when the bid's price is at least the ask's.
    pub open spec fn spec_crosses(self, maker_price: u64) -> bool {
        match self.spec_limit() {
            None => true,
            Some(limit) => match self.side {
                Side::Bid => limit >= maker_price,
                Side::Ask => limit <= maker_price,
            },
        }
    }

    /// Whether this incoming order may trade at `maker_price`.
    #[verifier::when_used_as_spec(spec_crosses)]
    pub fn crosses(self, maker_price: u64) -> (r: bool)
        ensures
            r == self.spec_crosses(maker_price),
    {
        match self.order_type {
            OrderType::Market => true,
            _ => match self.side {
                Side::Bid => self.price >= maker_price,
                Side::Ask => self.price <= maker_price,
            },
        }
    }

    /// What holds of every order that rests in a book: it has a price, a
    /// remaining quantity between one and the original, and the status that
    /// belongs to that quantity.
    pub open spec fn is_resting(self) -> bool {
        &&& self.price > 0
        &&& 0 < self.remaining <= self.original
        &&& self.status == resting_status(self.remaining, self.original)
    }

    /// This order after `quantity` of it has been filled.
    pub open spec fn spec_reduced(self, quantity: u64) -> Order {
        Order {
            remaining: (self.remaining - quantity) as u64,
            status: if quantity == self.remaining {
                OrderStatus::Filled
            } else if quantity == 0 {
                self.status
            } else {
                OrderStatus::PartiallyFilled
            },
            ..self
        }
    }

    /// This order after `quantity` of it has been filled: the remaining
    /// quantity goes down, and the status follows it.
    #[verifier::when_used_as_spec(spec_reduced)]
    pub fn reduced(self, quantity: u64) -> (r: Order)
        requires
            quantity <= self.remaining,
        ensures
            r == self.spec_reduced(quantity),
    {
        Order {
            remaining: self.remaining - quantity,
            status: if quantity == self.remaining {
                OrderStatus::Filled
            } else if quantity == 0 {
                self.status
            } else {
                OrderStatus::PartiallyFilled
            },
            ..self
        }
    }

    /// The escrow that backs the unfilled part of the order: for an ask its
    /// remaining quantity in base units, for a bid that quantity times the
    /// price in quote units.
    pub open spec fn escrow(self) -> int {
        match self.side {
            Side::Ask => self.remaining as int,
            Side::Bid => self.price * self.remaining,
        }
    }

    /// The escrow that backs the unfilled part of the order, or none where
    /// it leaves the range of `u64`.
    pub fn escrow_amount(self) -> (r: Option<u64>)
        ensures
            r == if self.escrow() <= u64::MAX {
                Some(self.escrow() as u64)
            } else {
                None
            },
    {
        match self.side {
            Side::Ask => Some(self.remaining),
            Side::Bid => self.price.checked_mul(self.remaining),
        }
    }
}

impl Fill {
    /// The account that receives the base asset.
    pub open spec fn spec_buyer(self) -> usize {
        match self.taker_side {
            Side::Bid => self.taker,
            Side::Ask => self.maker,
        }
    }

    /// The account that receives the base asset.
    #[verifier::when_used_as_spec(spec_buyer)]
    pub fn buyer(self) -> (r: usize)
        ensures
            r == self.spec_buyer(),
    {
        match self.taker_side {
            Side::Bid => self.taker,
            Side::Ask => self.maker,
        }
    }

    /// The account that receives the quote asset.
    pub open spec fn spec_seller(self) -> usize {
        match self.taker_side {
            Side::Bid => self.maker,
            Side::Ask => self.taker,
        }
    }

    /// The account that receives the quote asset.
    #[verifier::when_used_as_spec(spec_seller)]
    pub fn seller(self) -> (r: usize)
        ensures
            r == self.spec_seller(),
    {
        match self.taker_side {
            Side::Bid => self.maker,
            Side::Ask => self.taker,
        }
    }

    /// The quote amount the buyer owes: price times quantity, exactly.
    pub open spec fn quote_amount(self) -> int {
        self.price * self.quantity
    }

    /// The fill in which `quantity` of `maker` trades with `taker`, at the
    /// maker's price.
    pub open spec fn spec_between(maker: Order, taker: Order, quantity: u64) -> Fill {
        Fill {
            maker_order_id: maker.id,
            taker_order_id: taker.id,
            price: maker.price,
            quantity,
            maker: maker.owner,
            taker: taker.owner,
            taker_side: taker.side,
        }
    }

    /// The fill in which `quantity` of `maker` trades with `taker`, at the
    /// maker's price.
    #[verifier::when_used_as_spec(spec_between)]
    pub fn between(maker: Order, taker: Order, quantity: u64) -> (f: Fill)
        ensures
            f == Fill::spec_between(maker, taker, quantity),
    {
        Fill {
            maker_order_id: maker.id,
            taker_order_id: taker.id,
            price: maker.price,
            quantity,
            maker: maker.owner,
            taker: taker.owner,
            taker_side: taker.side,
        }
    }
}

} // verus!
