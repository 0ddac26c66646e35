//! A price-time priority limit order book: incoming limit orders are matched
//! against resting orders at the best available price, first in first out
//! within each price level.
pub mod types;
pub mod price_map;
pub mod matching;
pub mod orderbook;
pub mod laws;
