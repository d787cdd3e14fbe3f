# mini_search_engine

The verified core of a small crawler for a search engine, written in Verus.

- `src/utils/bitmap.rs`: a bit map packed eight bits to a byte.
- `src/utils/bloom_filter.rs`: a Bloom filter with two MurmurHash3 hashes
  (from the `murmurhash3` crate) over 2^32 bits.
- `src/links.rs`: finding the links of an HTML page and making them absolute.
- `src/records.rs`: the `doc_id.bin` and `doc_raw.bin` record formats, written
  and read back; stored pages are rendered to text with `html2text`.
- `src/words.rs`: the words of a dictionary file.
- `src/crawler.rs`: the breadth-first crawl as a state machine that is told
  about fetched pages and says what to fetch next.
- `src/text.rs`: searching and copying character sequences.

`app/main.rs` is the program around it: it fetches pages with `reqwest`,
writes and reads the files, and drives the crawl.
