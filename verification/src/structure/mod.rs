//! Identifiers, time, sequence numbers, samples and the cache that holds them.

pub mod cache_change;
pub mod dds_cache;
pub mod guid;
pub mod inline_qos;
pub mod keyed_list;
pub mod locator;
pub mod sequence_number;
pub mod time;
