//! A two-sided, price-aggregated order book.
//!
//! For each side (bids, asks) the book keeps, per distinct price, the total
//! quantity submitted at that price. It accepts orders, reports the
//! best-of-book spread, and yields depth-limited snapshots. It is not a
//! matching engine: orders are never paired, levels never shrink.

pub mod order;
pub mod orderbook;

pub use order::Order;
pub use order::Side;
pub use orderbook::OrderBook;
