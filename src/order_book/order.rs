use vstd::prelude::*;

verus! {

/// Which side of the market an order is on.
#[derive(Debug, Clone, Copy, PartialEq, Eq, Structural)]
pub enum OrderSide {
    Buy,
    Sell,
}

impl OrderSide {
    /// The side that an order of this side trades against.
    pub open spec fn opposite(self) -> OrderSide {
        match self {
            OrderSide::Buy => OrderSide::Sell,
            OrderSide::Sell => OrderSide::Buy,
        }
    }
}

/// How an order is priced: at whatever the book offers, or up to a limit.
#[derive(Debug, Clone, Copy, PartialEq, Eq, Structural)]
pub enum OrderType {
    Market,
    Limit { price: u64 },
}

impl OrderType {
    /// The limit price, if the order has one.
    pub open spec fn limit(self) -> Option<u64> {
        match self {
            OrderType::Market => None,
            OrderType::Limit { price } => Some(price),
        }
    }
}

/// A trading intent. `quantity` is what is left to fill; `id` is assigned by the book.
#[derive(Debug, Clone)]
pub struct Order {
    pub id: u64,
    pub side: OrderSide,
    pub order_type: OrderType,
    pub price: u64,
    pub quantity: u64,
    pub timestamp: u128,
    pub trader_id: String,
}

/// Why an order was refused before it touched the book.
#[derive(Debug, Clone, Copy, PartialEq, Eq, Structural)]
pub enum OrderError {
    /// The order's quantity is zero.
    InvalidQuantity,
    /// A limit order's price is zero.
    InvalidPrice,
    /// Every order id has been handed out.
    IdSpaceExhausted,
}

impl OrderError {
    /// A human-readable description of the error.
    pub fn message(&self) -> (r: &'static str)
        ensures
            *self == OrderError::InvalidQuantity ==> r@ == "Cannot place order with zero quantity"@,
            *self == OrderError::InvalidPrice ==> r@ == "Cannot place limit order at price zero"@,
            *self == OrderError::IdSpaceExhausted ==> r@ == "No order id is left to assign"@,
    {
        match self {
            OrderError::InvalidQuantity => "Cannot place order with zero quantity",
            OrderError::InvalidPrice => "Cannot place limit order at price zero",
            OrderError::IdSpaceExhausted => "No order id is left to assign",
        }
    }
}

} // verus!
