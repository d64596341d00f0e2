use rand::{Rng, SeedableRng};
use toydb::storage::{key_less, Bound, Memory, Range, Store};
use toydb::types::DataType;

fn range(start: Bound, end: Bound) -> Range {
    Range::from((start, end))
}

fn inc(k: &[u8]) -> Bound {
    Bound::Included(k.to_vec())
}

fn exc(k: &[u8]) -> Bound {
    Bound::Excluded(k.to_vec())
}

fn all() -> Range {
    range(Bound::Unbounded, Bound::Unbounded)
}

fn pairs(v: &[(&[u8], &[u8])]) -> Vec<(Vec<u8>, Vec<u8>)> {
    v.iter().map(|(k, v)| (k.to_vec(), v.to_vec())).collect()
}

#[test]
fn test_get() {
    let mut s = Memory::new();
    s.set_or_insert(&b"a".to_vec(), vec![0x01]).unwrap();
    assert_eq!(Some(vec![0x01]), s.get(&b"a".to_vec()).unwrap());
    assert_eq!(None, s.get(&b"b".to_vec()).unwrap());
}

#[test]
fn test_delete() {
    let mut s = Memory::new();
    s.set_or_insert(&b"a".to_vec(), vec![0x01]).unwrap();
    assert_eq!(Some(vec![0x01]), s.get(&b"a".to_vec()).unwrap());
    s.delete(&b"a".to_vec()).unwrap();
    assert_eq!(None, s.get(&b"a".to_vec()).unwrap());
    s.delete(&b"b".to_vec()).unwrap();
    assert!(s.scan(&all()).unwrap().is_empty());
}

#[test]
fn test_set() {
    let mut s = Memory::new();
    s.set_or_insert(&b"a".to_vec(), vec![0x01]).unwrap();
    assert_eq!(Some(vec![0x01]), s.get(&b"a".to_vec()).unwrap());
    s.set_or_insert(&b"a".to_vec(), vec![0x02]).unwrap();
    assert_eq!(Some(vec![0x02]), s.get(&b"a".to_vec()).unwrap());
    assert_eq!(s.scan(&all()).unwrap().len(), 1);
    s.flush().unwrap();
    assert_eq!(Some(vec![0x02]), s.get(&b"a".to_vec()).unwrap());
}

fn populated() -> Memory {
    let mut s = Memory::new();
    s.set_or_insert(&b"a".to_vec(), vec![0x01]).unwrap();
    s.set_or_insert(&b"b".to_vec(), vec![0x02]).unwrap();
    s.set_or_insert(&b"ba".to_vec(), vec![0x02, 0x01]).unwrap();
    s.set_or_insert(&b"bb".to_vec(), vec![0x02, 0x02]).unwrap();
    s.set_or_insert(&b"c".to_vec(), vec![0x03]).unwrap();
    s
}

#[test]
fn test_scan() {
    let s = populated();
    // Forward/backward ranges
    assert_eq!(
        pairs(&[(b"b", &[0x02]), (b"ba", &[0x02, 0x01]), (b"bb", &[0x02, 0x02])]),
        s.scan(&range(inc(b"b"), exc(b"bz"))).unwrap()
    );
    assert_eq!(
        pairs(&[(b"bb", &[0x02, 0x02]), (b"ba", &[0x02, 0x01]), (b"b", &[0x02])]),
        s.scan_rev(&range(inc(b"b"), exc(b"bz"))).unwrap()
    );
    // Inclusive/exclusive ranges
    assert_eq!(pairs(&[(b"b", &[0x02]), (b"ba", &[0x02, 0x01])]), s.scan(&range(inc(b"b"), exc(b"bb"))).unwrap());
    assert_eq!(
        pairs(&[(b"b", &[0x02]), (b"ba", &[0x02, 0x01]), (b"bb", &[0x02, 0x02])]),
        s.scan(&range(inc(b"b"), inc(b"bb"))).unwrap()
    );
    assert_eq!(pairs(&[(b"bb", &[0x02, 0x02])]), s.scan(&range(exc(b"ba"), exc(b"c"))).unwrap());
    // Open ranges
    assert_eq!(pairs(&[(b"bb", &[0x02, 0x02]), (b"c", &[0x03])]), s.scan(&range(inc(b"bb"), Bound::Unbounded)).unwrap());
    assert_eq!(pairs(&[(b"a", &[0x01]), (b"b", &[0x02])]), s.scan(&range(Bound::Unbounded, inc(b"b"))).unwrap());
    // Full range
    assert_eq!(
        pairs(&[
            (b"a", &[0x01]),
            (b"b", &[0x02]),
            (b"ba", &[0x02, 0x01]),
            (b"bb", &[0x02, 0x02]),
            (b"c", &[0x03]),
        ]),
        s.scan(&all()).unwrap()
    );
    // Empty range
    assert!(s.scan(&range(exc(b"c"), Bound::Unbounded)).unwrap().is_empty());
}

#[test]
fn scan_rev_is_reversed_scan() {
    let s = populated();
    let ranges = vec![
        all(),
        range(inc(b"b"), exc(b"bz")),
        range(exc(b"a"), inc(b"bb")),
        range(Bound::Unbounded, exc(b"b")),
    ];
    for r in ranges.iter() {
        let mut fwd = s.scan(r).unwrap();
        fwd.reverse();
        assert_eq!(fwd, s.scan_rev(r).unwrap());
    }
}

#[test]
fn test_random() {
    let mut s = Memory::new();
    let mut rng: rand::rngs::StdRng = SeedableRng::seed_from_u64(397_427_893);

    let mut items: Vec<(Vec<u8>, Vec<u8>)> = Vec::new();
    for i in 0..1000_u64 {
        items.push((rng.gen::<[u8; 32]>().to_vec(), i.to_be_bytes().to_vec()))
    }
    for (key, value) in items.iter() {
        s.set_or_insert(key, value.clone()).unwrap();
    }
    for (key, value) in items.iter() {
        assert_eq!(s.get(key).unwrap(), Some(value.clone()))
    }
    let mut expect = items.clone();
    expect.sort_by(|a, b| a.0.cmp(&b.0));
    assert_eq!(expect, s.scan(&all()).unwrap());
    expect.reverse();
    assert_eq!(expect, s.scan_rev(&all()).unwrap());
    for (key, _) in items {
        s.delete(&key).unwrap();
        assert_eq!(None, s.get(&key).unwrap());
    }
    assert!(s.scan(&all()).unwrap().is_empty());
}

#[test]
fn key_order_is_bytewise() {
    assert!(key_less(&b"a".to_vec(), &b"b".to_vec()));
    assert!(key_less(&b"b".to_vec(), &b"ba".to_vec()));
    assert!(!key_less(&b"ba".to_vec(), &b"b".to_vec()));
    assert!(!key_less(&b"b".to_vec(), &b"b".to_vec()));
    assert!(key_less(&Vec::new(), &vec![0]));
    assert!(key_less(&vec![0x01, 0xff], &vec![0x02]));
}

#[test]
fn range_bounds_are_kept() {
    let r = range(inc(b"b"), exc(b"c"));
    assert!(matches!(r.start_bound(), Bound::Included(k) if k == b"b"));
    assert!(matches!(r.end_bound(), Bound::Excluded(k) if k == b"c"));
    assert!(r.contains_key(&b"b".to_vec()));
    assert!(r.contains_key(&b"bz".to_vec()));
    assert!(!r.contains_key(&b"c".to_vec()));
    assert!(!r.contains_key(&b"a".to_vec()));
}

#[test]
fn data_types_compare() {
    assert_eq!(DataType::Integer, DataType::Integer);
    assert_ne!(DataType::Integer, DataType::Float);
}
