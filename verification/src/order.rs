use vstd::prelude::*;

verus! {

/// Which side of the book an order contributes to: Buy orders feed the bid
/// side, Sell orders the ask side.
pub enum Side {
    Buy,
    Sell,
}

/// A transient order submission. It is consumed by a single call to
/// `OrderBook::proceed_order` and never stored: the book keeps only the
/// per-price aggregate its quantity flows into.
pub struct Order {
    pub price: u64,
    pub quantity: u64,
    pub side: Side,
}

} // verus!
