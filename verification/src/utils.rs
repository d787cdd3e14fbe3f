//! The data structures of the crawler: a packed bit map and a Bloom filter over it.
pub mod bitmap;
pub mod bloom_filter;
