//! Orders and the executions that matching produces.

use vstd::prelude::*;

verus! {

pub type OrderId = u64;

/// The side of the book an order belongs to.
#[derive(Debug, Clone, Copy, PartialEq, Eq, Structural)]
pub enum Side {
    /// An offer to buy at the order's price or lower.
    Bid,
    /// An offer to sell at the order's price or higher.
    Ask,
}

impl Side {
    pub open spec fn spec_opposite(self) -> Side {
        match self {
            Side::Bid => Side::Ask,
            Side::Ask => Side::Bid,
        }
    }

    /// The side that an order of this side trades against.
    #[verifier::when_used_as_spec(spec_opposite)]
    pub fn opposite(self) -> (r: Side)
        ensures
            r == self.spec_opposite(),
    {
        match self {
            Side::Bid => Side::Ask,
            Side::Ask => Side::Bid,
        }
    }

    pub open spec fn spec_crosses(self, limit: u64, resting: u64) -> bool {
        match self {
            Side::Bid => limit >= resting,
            Side::Ask => limit <= resting,
        }
    }

    /// Whether an incoming order of this side with price `limit` may trade
    /// against liquidity resting at price `resting`: a buyer pays at most its
    /// limit, a seller accepts no less than its limit.
    #[verifier::when_used_as_spec(spec_crosses)]
    pub fn crosses(self, limit: u64, resting: u64) -> (r: bool)
        ensures
            r == self.spec_crosses(limit, resting),
    {
        match self {
            Side::Bid => limit >= resting,
            Side::Ask => limit <= resting,
        }
    }
}

/// One limit order. `quantity` is what is still unfilled. `sequence` is the
/// arrival number the engine stamps on the order; `timestamp` is whatever the
/// submitter sent and never decides priority.
#[derive(Debug, Clone, Copy, PartialEq, Eq, Structural)]
pub struct Order {
    pub id: OrderId,
    pub user_id: u64,
    pub side: Side,
    pub price: u64,
    pub quantity: u64,
    pub timestamp: u64,
    pub sequence: u64,
}

impl Order {
    pub open spec fn spec_with_quantity(self, quantity: u64) -> Order {
        Order { quantity, ..self }
    }

    /// The same order with `quantity` left unfilled.
    #[verifier::when_used_as_spec(spec_with_quantity)]
    pub fn with_quantity(self, quantity: u64) -> (r: Order)
        ensures
            r == self.spec_with_quantity(quantity),
    {
        Order { quantity, ..self }
    }

    pub open spec fn spec_with_sequence(self, sequence: u64) -> Order {
        Order { sequence, ..self }
    }

    /// The same order with arrival number `sequence`.
    #[verifier::when_used_as_spec(spec_with_sequence)]
    pub fn with_sequence(self, sequence: u64) -> (r: Order)
        ensures
            r == self.spec_with_sequence(sequence),
    {
        Order { sequence, ..self }
    }
}

/// One execution: `quantity` changed hands at `price`, which is always the
/// price of the resting (maker) order.
#[derive(Debug, Clone, Copy, PartialEq, Eq, Structural)]
pub struct Trade {
    pub maker_order_id: OrderId,
    pub taker_order_id: OrderId,
    pub price: u64,
    pub quantity: u64,
    pub sequence: u64,
}

} // verus!
