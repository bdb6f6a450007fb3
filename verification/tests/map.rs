use arctic::raw::iter::{Filter, Include, Unbound};
use arctic::sequential::PrefixNonLinearizable;
use arctic::sequential::{IntMap, RadixMap, Sorted, Unsorted};
use std::collections::BTreeMap;

fn everything() -> Filter<'static> {
    Filter { lower: None, upper: None, prefix: None }
}

#[test]
fn map_empty() {
    let map = RadixMap::new();
    assert_eq!(map.get(b"anything"), None);
    assert!(map.list(&everything()).is_empty());
}

#[test]
fn map_upsert_then_get() {
    let mut map = RadixMap::new();
    assert_eq!(map.upsert(b"hello", 1), None);
    assert_eq!(map.upsert(b"world", 2), None);
    assert_eq!(map.get(b"hello"), Some(1));
    assert_eq!(map.get(b"world"), Some(2));
    assert_eq!(map.get(b"help!"), None);
    assert_eq!(map.upsert(b"hello", 3), Some(1));
    assert_eq!(map.get(b"hello"), Some(3));
}

#[test]
fn map_remove() {
    let mut map = RadixMap::new();
    map.upsert(b"abc", 1);
    map.upsert(b"abd", 2);
    assert_eq!(map.remove(b"abc"), Some(1));
    assert_eq!(map.remove(b"abc"), None);
    assert_eq!(map.get(b"abc"), None);
    assert_eq!(map.get(b"abd"), Some(2));
    assert_eq!(map.upsert(b"abc", 4), None);
    assert_eq!(map.get(b"abc"), Some(4));
}

#[test]
fn map_long_keys_split() {
    let mut map = RadixMap::new();
    let a = b"a long key that does not fit in one edge\n";
    let b = b"a long key that differs near the end....\n";
    let c = b"another\n";
    map.upsert(a, 10);
    map.upsert(b, 20);
    map.upsert(c, 30);
    assert_eq!(map.get(a), Some(10));
    assert_eq!(map.get(b), Some(20));
    assert_eq!(map.get(c), Some(30));
    assert_eq!(map.get(b"a long key"), None);
    let all = map.list(&everything());
    let keys: Vec<Vec<u8>> = all.iter().map(|(k, _)| k.clone()).collect();
    // "differs" sorts before "does not".
    assert_eq!(keys, vec![b.to_vec(), a.to_vec(), c.to_vec()]);
}

#[test]
fn map_grows_through_every_node_kind() {
    let mut map = RadixMap::new();
    let mut model = BTreeMap::new();
    for i in 0..=255u8 {
        let key = [7u8, i, 9u8];
        assert_eq!(map.upsert(&key, i as u64), None);
        model.insert(key.to_vec(), i as u64);
        for (k, v) in model.iter() {
            assert_eq!(map.get(k), Some(*v));
        }
    }
    let all = map.list(&everything());
    let expected: Vec<(Vec<u8>, u64)> = model.into_iter().collect();
    assert_eq!(all, expected);
}

#[test]
fn map_matches_btreemap() {
    let mut map = RadixMap::new();
    let mut model: BTreeMap<Vec<u8>, u64> = BTreeMap::new();
    let mut state: u64 = 0x2545_f491_4f6c_dd1d;
    for step in 0..4000u64 {
        state ^= state << 13;
        state ^= state >> 7;
        state ^= state << 17;
        let key = (state % 512).to_be_bytes().to_vec();
        if state % 3 == 0 {
            assert_eq!(map.remove(&key), model.remove(&key));
        } else {
            assert_eq!(map.upsert(&key, step), model.insert(key.clone(), step));
        }
    }
    for (k, v) in model.iter() {
        assert_eq!(map.get(k), Some(*v));
    }
    let all = map.list(&everything());
    let expected: Vec<(Vec<u8>, u64)> = model.clone().into_iter().collect();
    assert_eq!(all, expected);

    let lower = 100u64.to_be_bytes();
    let upper = 300u64.to_be_bytes();
    let f = Filter { lower: Some(&lower[..]), upper: Some(&upper[..]), prefix: None };
    let ranged = map.list(&f);
    let expected: Vec<(Vec<u8>, u64)> = model
        .range(lower.to_vec()..=upper.to_vec())
        .map(|(k, v)| (k.clone(), *v))
        .collect();
    assert_eq!(ranged, expected);
}

#[test]
fn map_prefix_filter() {
    let mut map = RadixMap::new();
    for key in [&b"car\n"[..], b"cart\n", b"cat\n", b"dog\n"] {
        map.upsert(key, key.len() as u64);
    }
    let f = Filter { lower: None, upper: None, prefix: Some(&b"ca"[..]) };
    let keys: Vec<Vec<u8>> = map.list(&f).into_iter().map(|(k, _)| k).collect();
    assert_eq!(keys, vec![b"car\n".to_vec(), b"cart\n".to_vec(), b"cat\n".to_vec()]);
}

#[test]
fn map_lend_hands_out_entries_in_order() {
    let mut map = RadixMap::new();
    map.upsert(b"b\n", 2);
    map.upsert(b"a\n", 1);
    map.upsert(b"c\n", 3);
    let mut iter = PrefixNonLinearizable::new(&map, &everything());
    assert_eq!(iter.lend(), Some((b"a\n".to_vec(), 1)));
    assert_eq!(iter.lend(), Some((b"b\n".to_vec(), 2)));
    assert_eq!(iter.lend(), Some((b"c\n".to_vec(), 3)));
    assert_eq!(iter.lend(), None);
    assert_eq!(iter.lend(), None);
}

fn sample() -> RadixMap {
    let mut map = RadixMap::new();
    for (i, key) in [&b"apple\n"[..], b"apricot\n", b"banana\n", b"blueberry\n", b"cherry\n"]
        .into_iter()
        .enumerate()
    {
        map.upsert(key, i as u64);
    }
    map
}

fn keys(entries: Vec<(Vec<u8>, u64)>) -> Vec<Vec<u8>> {
    entries.into_iter().map(|(k, _)| k).collect()
}

#[test]
fn map_range_bounds_of_every_shape() {
    let map = sample();
    assert_eq!(
        keys(map.range(b"apricot\n", b"blueberry\n").unwrap()),
        vec![b"apricot\n".to_vec(), b"banana\n".to_vec(), b"blueberry\n".to_vec()]
    );
    assert_eq!(keys(map.range(b"b", b"c").unwrap()), vec![b"banana\n".to_vec(), b"blueberry\n".to_vec()]);
    // No key starts with "z", the part the two bounds share.
    assert!(map.range(b"z", b"zz").is_none());
    assert!(map.range(b"c", b"b").unwrap().is_empty());
    let from = Filter::range_from(Include(&b"blue"[..]), Unbound);
    assert_eq!(keys(map.list(&from)), vec![b"blueberry\n".to_vec(), b"cherry\n".to_vec()]);
    let to = Filter::range_to_inclusive(Unbound, Include(&b"apricot\n"[..]));
    assert_eq!(keys(map.list(&to)), vec![b"apple\n".to_vec(), b"apricot\n".to_vec()]);
    let full = Filter::range_full(Unbound, Unbound);
    assert_eq!(map.list(&full).len(), 5);
    assert_eq!(map.all().len(), 5);
}

#[test]
fn map_prefix_and_descending() {
    let map = sample();
    assert_eq!(keys(map.prefix(b"ap").unwrap()), vec![b"apple\n".to_vec(), b"apricot\n".to_vec()]);
    assert!(map.prefix(b"d").is_none());
    // "app" runs out inside the tree, so the subtree exists.
    assert_eq!(keys(map.prefix(b"app").unwrap()), vec![b"apple\n".to_vec()]);
    assert_eq!(map.prefix(b"").unwrap().len(), 5);
    let down = map.list_descending(&Filter::with_prefix(b"b"));
    assert_eq!(keys(down), vec![b"blueberry\n".to_vec(), b"banana\n".to_vec()]);
}

#[test]
fn map_sorted_and_unsorted_listings() {
    let map = sample();
    let sorted = Sorted.list(&map, &everything());
    let mut unsorted = Unsorted.list(&map, &everything());
    unsorted.sort();
    assert_eq!(sorted, unsorted);
    assert_eq!(sorted[0], (b"apple\n".to_vec(), 0));
}

#[test]
fn int_map_matches_btreemap() {
    let mut map = IntMap::new();
    let mut model: BTreeMap<u64, u64> = BTreeMap::new();
    let mut state: u64 = 0x9e37_79b9_7f4a_7c15;
    for step in 0..3000u64 {
        state ^= state << 13;
        state ^= state >> 7;
        state ^= state << 17;
        let key = if step % 2 == 0 { state % 1000 } else { state };
        match state % 4 {
            0 => assert_eq!(map.remove(key), model.remove(&key)),
            _ => assert_eq!(map.upsert(key, step), model.insert(key, step)),
        }
        assert_eq!(map.get(key), model.get(&key).copied());
    }
    let expected: Vec<(u64, u64)> = model.range(100..=900).map(|(k, v)| (*k, *v)).collect();
    assert_eq!(map.range(100, 900).unwrap(), expected);
    let everything: Vec<(u64, u64)> = model.iter().map(|(k, v)| (*k, *v)).collect();
    assert_eq!(map.range(0, u64::MAX).unwrap(), everything);
    assert!(map.range(5, 4).unwrap_or_default().is_empty());
    let descending: Vec<(u64, u64)> = model.range(100..=900).rev().map(|(k, v)| (*k, *v)).collect();
    assert_eq!(map.range_descending(100, 900).unwrap(), descending);
}

#[test]
fn map_get_mut_writes_through() {
    let mut map = RadixMap::new();
    map.upsert(b"apple", 1);
    map.upsert(b"apricot", 2);
    *map.get_mut(b"apple").unwrap() += 40;
    assert_eq!(map.get(b"apple"), Some(41));
    assert_eq!(map.get(b"apricot"), Some(2));
    assert!(map.get_mut(b"banana").is_none());
    assert!(map.get_mut(b"ap").is_none());
    assert_eq!(map.get(b"banana"), None);
}

#[test]
fn int_map_from_entries_keeps_last() {
    let map = IntMap::from_entries(&[(3, 30), (1, 10), (3, 33), (u64::MAX, 7)]);
    assert_eq!(map.get(3), Some(33));
    assert_eq!(map.get(1), Some(10));
    assert_eq!(map.get(2), None);
    assert_eq!(map.range(0, u64::MAX).unwrap(), vec![(1, 10), (3, 33), (u64::MAX, 7)]);
    // Keys 1 and 3 share seven leading zero bytes; 1u64 << 40 shares none of the path below them.
    assert!(map.range(1 << 40, (1 << 40) + 5).is_none());
}
