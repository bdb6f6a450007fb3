use arctic::raw::node::node3::get_naive;
use arctic::raw::node::node3::get_swar;

fn test_get(array: u32, key: u8, expected: u8) {
    assert_eq!(get_naive(array, key), expected);
    assert_eq!(get_swar(array, key), expected);
}

#[test]
fn node3_zero() {
    test_get(0x00_00_00_00, 0, 0)
}

#[test]
fn node3_zero_high() {
    test_get(0x00_00_12_34, 0, 2)
}

#[test]
fn node3_nonzero_middle() {
    test_get(0x00_11_12_13, 0x12, 1)
}

#[test]
fn node3_duplicate() {
    test_get(0x00_11_11_12, 0x11, 1)
}
