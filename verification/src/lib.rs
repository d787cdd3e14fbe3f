//! The verified core of a small web crawler and page store: a bit map,
//! a Bloom filter over it, link extraction from HTML, the on-disk record
//! formats for crawled pages, the dictionary reader and the crawl scheduler.
pub mod crawler;
pub mod links;
pub mod records;
pub mod text;
pub mod utils;
pub mod words;

pub use utils::bitmap::BitMap;
pub use utils::bloom_filter::BloomFilter;

