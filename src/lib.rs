//! A price-time-priority limit order matching engine for one instrument.
pub mod order_book;
