use arctic::sequential::entry::Entry;
use arctic::sequential::RadixMap;

#[test]
fn entry_or_insert_fills_only_vacant_keys() {
    let mut map = RadixMap::new();
    map.upsert(b"one", 1);
    *map.entry(b"one").or_insert(100) += 10;
    *map.entry(b"two").or_insert(2) += 20;
    assert_eq!(map.get(b"one"), Some(11));
    assert_eq!(map.get(b"two"), Some(22));
}

#[test]
fn entry_or_insert_with_calls_default_only_when_vacant() {
    let mut map = RadixMap::new();
    map.upsert(b"k1", 7);
    let mut calls = 0;
    assert_eq!(*map.entry(b"k1").or_insert_with(|| { calls += 1; 3 }), 7);
    assert_eq!(calls, 0);
    assert_eq!(*map.entry(b"k2").or_insert_with(|| { calls += 1; 3 }), 3);
    assert_eq!(calls, 1);
    assert_eq!(map.get(b"k2"), Some(3));
}

#[test]
fn entry_or_default_is_zero() {
    let mut map = RadixMap::new();
    *map.entry(b"count").or_default() += 1;
    *map.entry(b"count").or_default() += 1;
    assert_eq!(map.get(b"count"), Some(2));
}

#[test]
fn entry_and_modify_touches_only_occupied() {
    let mut map = RadixMap::new();
    map.upsert(b"a1", 5);
    map.entry(b"a1").and_modify(|v| v * 3).or_insert(0);
    map.entry(b"b1").and_modify(|v| v * 3).or_insert(4);
    assert_eq!(map.get(b"a1"), Some(15));
    assert_eq!(map.get(b"b1"), Some(4));
}

#[test]
fn entry_occupied_and_vacant_operations() {
    let mut map = RadixMap::new();
    map.upsert(b"x1", 1);
    match map.entry(b"x1") {
        Entry::Occupied(mut o) => {
            assert_eq!(*o.get(), 1);
            *o.get_mut() = 2;
            assert_eq!(o.insert(3), 2);
        }
        Entry::Vacant(_) => panic!("x1 is stored"),
    }
    assert_eq!(map.get(b"x1"), Some(3));
    match map.entry(b"y1") {
        Entry::Vacant(v) => {
            *v.insert(8) += 1;
        }
        Entry::Occupied(_) => panic!("y1 is not stored"),
    }
    assert_eq!(map.get(b"y1"), Some(9));
    match map.entry(b"y1") {
        Entry::Occupied(o) => {
            o.and_modify(|v| v + 1);
        }
        Entry::Vacant(_) => panic!("y1 is stored"),
    }
    match map.entry(b"y1") {
        Entry::Occupied(o) => *o.into_mut() *= 10,
        Entry::Vacant(_) => panic!("y1 is stored"),
    }
    assert_eq!(map.get(b"y1"), Some(100));
}
