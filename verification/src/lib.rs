//! Integer core of a toolkit for OHLCV and tick market data: how ticks and
//! candles are ordered and grouped into time buckets, how sliding windows over
//! a price series are laid out, which sorted positions a summary reads, and
//! which row a failed check reports.
pub mod buckets;
pub mod cli;
pub mod order;
pub mod plan_laws;
pub mod summary;
pub mod validate;
pub mod windows;
