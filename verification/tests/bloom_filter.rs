use mini_search_engine::BloomFilter;

#[test]
fn first_add_is_fresh_second_is_not() {
    let mut f = BloomFilter::new();
    assert!(f.add("https://www.woshipm.com/class/6238617.html"));
    assert!(!f.add("https://www.woshipm.com/class/6238617.html"));
}

#[test]
fn distinct_keys_are_fresh() {
    let mut f = BloomFilter::new();
    assert!(f.add("a"));
    assert!(f.add("b"));
    assert!(f.add("http://example.com/1"));
    assert!(f.add("http://example.com/2"));
    assert!(!f.add("a"));
    assert!(!f.add("b"));
    assert!(!f.add("http://example.com/2"));
}

#[test]
fn empty_key_is_a_key() {
    let mut f = BloomFilter::new();
    assert!(f.add(""));
    assert!(!f.add(""));
    assert!(f.add(" "));
}

#[test]
fn non_ascii_keys() {
    let mut f = BloomFilter::new();
    assert!(f.add("产品经理"));
    assert!(!f.add("产品经理"));
    assert!(f.add("产品"));
}
