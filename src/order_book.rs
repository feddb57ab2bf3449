//! The order book: orders, the two book sides, matching and trade recording.
mod book;
mod laws;
mod order;
mod trade_recorder;

pub use book::{
    admits, ahead, insert_pos, lemma_no_empty_levels, level_queue, levels_wf, match_spec,
    quantities_at, rest_spec, traded_quantity, Level, OrderBook,
};
pub use laws::{lemma_fills_follow_queue, lemma_price_priority, lemma_quantity_conservation};
pub use order::{Order, OrderError, OrderSide, OrderType};
pub use trade_recorder::{Trade, TradeRecorder};
