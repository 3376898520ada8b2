//! Time-series correlation search over the btsf binary format.

pub mod btsf;
pub mod stats;
pub mod correlate;
pub mod caching;
pub mod server;
pub mod index;
