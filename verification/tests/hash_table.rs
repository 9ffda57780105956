use snippy::compress::hash_table::HashTable;

#[test]
fn new_table_holds_zero() {
    let t = HashTable::new(100);
    let h = t.hash(&[1, 2, 3, 4]);
    assert_eq!(t.get(h), 0);
}

#[test]
fn get_after_insert() {
    let mut t = HashTable::new(100);
    let h = t.hash(&[9, 8, 7, 6]);
    t.insert(h, 4321);
    assert_eq!(t.get(h), 4321);
    t.insert(h, 65535);
    assert_eq!(t.get(h), 65535);
}

#[test]
fn hash_is_deterministic() {
    let t = HashTable::new(0);
    let a = t.hash(b"abcd");
    let b = t.hash(b"abcd");
    let mut t2 = HashTable::new(0);
    t2.insert(a, 17);
    assert_eq!(t2.get(b), 17);
}

fn bucket(pattern: u32) -> usize {
    (pattern.wrapping_mul(0x1e35_a7bd) as usize) % 16384
}

#[test]
fn hash_bucket_value() {
    // Find a pattern that shares the bucket of "abcd" under
    // ((pattern * 0x1e35a7bd) mod 2^32) mod 16384, and one that does not.
    let abcd = u32::from_le_bytes(*b"abcd");
    let same = (0u32..).find(|&p| p != abcd && bucket(p) == bucket(abcd)).unwrap();
    let other = (0u32..).find(|&p| bucket(p) != bucket(abcd)).unwrap();
    let mut t = HashTable::new(0);
    let h = t.hash(b"abcd");
    t.insert(h, 99);
    assert_eq!(t.get(t.hash(&same.to_le_bytes())), 99);
    assert_eq!(t.get(t.hash(&other.to_le_bytes())), 0);
}

#[test]
fn get_after_sequence_of_inserts() {
    let abcd = u32::from_le_bytes(*b"abcd");
    let same = (0u32..).find(|&p| p != abcd && bucket(p) == bucket(abcd)).unwrap();
    let other = (0u32..).find(|&p| bucket(p) != bucket(abcd)).unwrap();
    let never = (0u32..)
        .find(|&p| bucket(p) != bucket(abcd) && bucket(p) != bucket(other))
        .unwrap();
    let mut t = HashTable::new(0);
    let h_abcd = t.hash(b"abcd");
    let h_same = t.hash(&same.to_le_bytes());
    let h_other = t.hash(&other.to_le_bytes());
    t.insert(h_abcd, 1);
    t.insert(h_other, 2);
    t.insert(h_same, 3);
    t.insert(h_other, 4);
    // the last insert into each bucket wins; colliding patterns share it
    assert_eq!(t.get(h_abcd), 3);
    assert_eq!(t.get(h_same), 3);
    assert_eq!(t.get(h_other), 4);
    assert_eq!(t.get(t.hash(&never.to_le_bytes())), 0);
}
