use vstd::prelude::*;
use crate::orderbook::OrderBook;
use crate::types::{OrderId, Price, Quantity, Side};

verus! {

/// An order book owned through an opaque handle.
pub struct HftOrderBook {
    pub inner: OrderBook,
}

impl HftOrderBook {
    pub fn new() -> (r: Self)
        ensures
            r.inner.wf(),
            r.inner.index().is_empty(),
            r.inner.levels(Side::Buy).len() == 0,
            r.inner.levels(Side::Sell).len() == 0,
    {
        HftOrderBook { inner: OrderBook::new() }
    }
}

/// Order side with a fixed C layout: `Buy` is 0, `Sell` is 1.
#[derive(Debug, Clone, Copy, PartialEq, Eq, Structural)]
pub enum HftSide {
    Buy,
    Sell,
}

impl From<HftSide> for Side {
    fn from(s: HftSide) -> (r: Side) {
        match s {
            HftSide::Buy => Side::Buy,
            HftSide::Sell => Side::Sell,
        }
    }
}

impl vstd::std_specs::convert::FromSpecImpl<HftSide> for Side {
    open spec fn obeys_from_spec() -> bool {
        true
    }

    open spec fn from_spec(s: HftSide) -> Side {
        match s {
            HftSide::Buy => Side::Buy,
            HftSide::Sell => Side::Sell,
        }
    }
}

impl From<Side> for HftSide {
    fn from(s: Side) -> (r: HftSide) {
        match s {
            Side::Buy => HftSide::Buy,
            Side::Sell => HftSide::Sell,
        }
    }
}

impl vstd::std_specs::convert::FromSpecImpl<Side> for HftSide {
    open spec fn obeys_from_spec() -> bool {
        true
    }

    open spec fn from_spec(s: Side) -> HftSide {
        match s {
            Side::Buy => HftSide::Buy,
            Side::Sell => HftSide::Sell,
        }
    }
}

/// Top of book: best price and the quantity resting there, per side.
#[derive(Debug, Clone, Copy)]
pub struct HftQuote {
    pub bid_price: Price,
    pub ask_price: Price,
    pub bid_size: Quantity,
    pub ask_size: Quantity,
}

/// A trade in fixed C layout.
#[derive(Debug, Clone, Copy)]
pub struct HftTrade {
    pub aggressive_order_id: OrderId,
    pub passive_order_id: OrderId,
    pub price: Price,
    pub quantity: Quantity,
    pub aggressor_side: HftSide,
    pub timestamp: u64,
}

} // verus!
