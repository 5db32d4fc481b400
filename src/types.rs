use vstd::prelude::*;

verus! {

/// Fixed-point price with four implied decimal digits (10000 stands for 1.0000).
pub type Price = u32;

/// Remaining, unfilled amount of an order.
pub type Quantity = u32;

pub type OrderId = u64;

/// The reserved price that means "no price"; no order may rest at it.
pub const INVALID_PRICE: Price = 4294967295;

pub const INVALID_ORDER_ID: OrderId = 0;

#[derive(Debug, Clone, Copy, PartialEq, Eq, Structural)]
pub enum Side {
    Buy,
    Sell,
}

#[derive(Debug, Clone, Copy, PartialEq, Eq, Structural)]
pub struct Order {
    pub id: OrderId,
    pub price: Price,
    pub quantity: Quantity,
    pub side: Side,
}

impl Order {
    pub fn new(id: OrderId, side: Side, price: Price, quantity: Quantity) -> (r: Self)
        ensures
            r == (Order { id, price, quantity, side }),
    {
        Order { id, price, quantity, side }
    }
}

/// Why a request to rest an order was refused.
#[derive(Debug, Clone, Copy, PartialEq, Eq, Structural)]
pub enum BookError {
    /// The id already belongs to a resting order.
    DuplicateOrderId,
    /// The price is the reserved "no price" value.
    InvalidPrice,
    /// The quantity is zero.
    InvalidQuantity,
    /// The total resting at that price would no longer fit a `Quantity`.
    QuantityOverflow,
}

} // verus!
