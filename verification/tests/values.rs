use arctic::value::Value;
use arctic::sequential::value::Value as SequentialValue;

#[test]
fn value_round_trips() {
    assert_eq!(<u64 as Value>::from_raw(Value::into_raw(42u64)), 42);
    assert_eq!(<i64 as Value>::from_raw(Value::into_raw(-1i64)), -1);
    assert_eq!(Value::into_raw(-1i64), u64::MAX);
    assert_eq!(<i64 as SequentialValue>::from_raw(SequentialValue::into_raw(i64::MIN)), i64::MIN);
    assert_eq!(<u64 as SequentialValue>::from_raw(7), 7);
}

#[test]
fn value_map_stores_signed_values() {
    let mut map: arctic::sequential::ValueMap<i64> = arctic::sequential::ValueMap::new();
    assert_eq!(map.upsert(b"minus", -5), None);
    assert_eq!(map.upsert(b"plus", 7), None);
    assert_eq!(map.upsert(b"minus", i64::MIN), Some(-5));
    assert_eq!(map.get(b"minus"), Some(i64::MIN));
    assert_eq!(map.remove(b"plus"), Some(7));
    assert_eq!(map.get(b"plus"), None);
}
