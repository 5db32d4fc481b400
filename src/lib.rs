pub mod types;
pub mod levels;
pub mod orderbook;
pub mod matching_engine;
pub mod handle;
