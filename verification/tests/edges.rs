use arctic::raw::edge::be::Be;
use arctic::raw::edge::le::Le;
use arctic::raw::edge::Edge;

#[test]
fn le_packs_key_and_flags() {
    let key = Le::new(b"abc", true, false);
    assert_eq!(key.to_vec(), b"abc".to_vec());
    assert_eq!(key.len(), 24);
    assert_eq!(key.bytes(), 3);
    assert!(key.is_value());
    assert!(!key.is_frozen());
    // Key bytes first, least significant first; the tag in the top byte.
    assert_eq!(key.raw(), 0x19_00_00_00_00_63_62_61);
    let frozen = key.with_frozen(true);
    assert!(frozen.is_frozen());
    assert_eq!(frozen.to_vec(), b"abc".to_vec());
    let bare = frozen.key();
    assert!(!bare.is_value() && !bare.is_frozen());
    assert_eq!(Le::empty().to_vec(), Vec::<u8>::new());
}

#[test]
fn le_expand_splits_where_keys_differ() {
    let old = Le::new(b"abcdef", true, false);
    let new = Le::new(b"abx", false, false);
    let (start, middle, end) = old.expand(new).unwrap();
    assert_eq!(start.to_vec(), b"ab".to_vec());
    assert_eq!(middle, b'c');
    assert_eq!(end.to_vec(), b"def".to_vec());
    assert!(end.is_value());
    assert!(!start.is_value());
    assert!(old.expand(Le::new(b"abcdef", false, false)).is_err());
}

#[test]
fn le_compress_then_expand_round_trip() {
    let parent = Le::new(b"ab", false, false);
    let child = Le::new(b"de", true, false);
    let merged = parent.compress(b'c', child).unwrap();
    assert_eq!(merged.to_vec(), b"abcde".to_vec());
    assert!(merged.is_value());
    let (start, middle, end) = merged.expand(Le::new(b"abx", false, false)).unwrap();
    assert_eq!((start.to_vec(), middle, end.to_vec()), (b"ab".to_vec(), b'c', b"de".to_vec()));
    let long = Le::new(b"abcd", false, false);
    assert!(long.compress(b'x', Le::new(b"yz", false, false)).is_some());
    assert!(long.compress(b'x', Le::new(b"yzw", false, false)).is_none());
}

#[test]
fn be_packs_most_significant_first() {
    let key = Be::key_from_u64_truncate(0x1234_5678_9ABC_DEF0, 24);
    assert_eq!(key.to_vec(), vec![0x12, 0x34, 0x56]);
    assert_eq!(key.len(), 24);
    assert_eq!(key.raw(), 0x1234_5600_0000_0018);
    let flagged = key.with_value(true).with_frozen(true);
    assert_eq!(flagged.raw(), 0x1234_5600_0000_00D8);
    assert!(flagged.is_value() && flagged.is_frozen());
    assert_eq!(Be::min_len(56, 16), 16);
    assert_eq!(Be::min_len(8, 64), 8);
}

#[test]
fn be_expand_splits_where_keys_differ() {
    let old = Be::new(&[1, 2, 3, 4], true, false);
    let new = Be::new(&[1, 2, 9], false, false);
    let (start, middle, end) = old.expand(new).unwrap();
    assert_eq!(start.to_vec(), vec![1, 2]);
    assert_eq!(middle, 3);
    assert_eq!(end.to_vec(), vec![4]);
    assert!(end.is_value());
    assert!(old.expand(Be::new(&[1, 2, 3, 4], false, false)).is_err());
}

#[test]
fn le_with_key_keeps_flags() {
    let flags = Le::new(b"xy", true, true);
    let moved = flags.with_key(Le::new(b"hello", false, false));
    assert_eq!(moved.to_vec(), b"hello".to_vec());
    assert!(moved.is_value() && moved.is_frozen());
    assert_eq!(moved.raw(), Le::new(b"hello", true, true).raw());
}

#[test]
fn edge_unfreeze_clears_only_the_frozen_flag() {
    let frozen = Edge::new_value(Le::new(b"ab", false, false), 9);
    let frozen = Edge { meta: frozen.meta.with_frozen(true), child: frozen.child };
    assert!(frozen.meta.is_frozen());
    let thawed = frozen.unfreeze();
    assert!(!thawed.meta.is_frozen());
    assert!(thawed.meta.is_value());
    assert_eq!(thawed.meta.to_vec(), b"ab".to_vec());
    assert_eq!(thawed.as_value(), Some(9));
}
