use mini_search_engine::BitMap;

#[test]
fn new_bit_map_is_cleared() {
    let m = BitMap::new(20);
    // 20 / 8 + 1 = 3 bytes, so 24 bits.
    for i in 0..24 {
        assert!(!m.get(i));
    }
}

#[test]
fn set_then_get() {
    let mut m = BitMap::new(100);
    m.set(0);
    m.set(9);
    m.set(100);
    assert!(m.get(0));
    assert!(m.get(9));
    assert!(m.get(100));
    assert!(!m.get(1));
    assert!(!m.get(8));
    assert!(!m.get(10));
    assert!(!m.get(99));
}

#[test]
fn set_is_idempotent() {
    let mut m = BitMap::new(16);
    m.set(5);
    m.set(5);
    assert!(m.get(5));
    for i in 0..24 {
        if i != 5 {
            assert!(!m.get(i));
        }
    }
}

#[test]
fn every_bit_of_a_byte() {
    let mut m = BitMap::new(7);
    for i in 0..8 {
        m.set(i);
        for j in 0..8 {
            assert_eq!(m.get(j), j <= i);
        }
    }
}

#[test]
fn size_zero_still_has_one_byte() {
    let mut m = BitMap::new(0);
    m.set(7);
    assert!(m.get(7));
    assert!(!m.get(6));
}
