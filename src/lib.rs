//! Feature engineering on ordered tick data: volume bars and triple-barrier labels.
//!
//! Prices are integer ticks and returns are fixed-point integers in units of
//! `1 / RETURN_SCALE`, so every decision the algorithms take is exact.

pub mod bars;
pub mod cusum;
pub mod labels;
pub mod ohlcv;
