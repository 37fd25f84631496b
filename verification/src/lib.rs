//! A time-series storage engine: a bit-packed codec for multivariate samples
//! and the building blocks of a log-structured key-value store.

pub mod gorilla;
pub mod storage;
pub mod wire;
