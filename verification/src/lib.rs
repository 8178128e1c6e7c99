//! Core of a single-instrument limit order book with price–time priority,
//! and a decoder for historical OHLCV time series as a market-data provider
//! serves them.

pub mod ascending;
pub mod asset;
pub mod decimal;
pub mod json;
pub mod order;
pub mod order_book;
pub mod order_queue;
pub mod provider_document;
pub mod time_series;
pub mod time_series_type;
pub mod timestamp;
