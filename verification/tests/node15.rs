use arctic::raw::node::node15::{get_naive, get_simd};

fn test_get(array: u128, key: u8, expected: u8) {
    assert_eq!(get_naive(array, key), expected);
    assert_eq!(get_simd(array, key), expected);
}

#[test]
fn node15_zero() {
    test_get(0x00_00_00_00, 0, 0)
}

#[test]
fn node15_zero_high() {
    test_get(0x00_00_12_34, 0, 2)
}

#[test]
fn node15_nonzero_middle() {
    test_get(0x00_11_12_13, 0x12, 1)
}

#[test]
fn node15_duplicate() {
    test_get(0x00_11_11_12, 0x11, 1)
}

#[test]
fn node15_lsb() {
    test_get(u128::MAX, 0xFF, 0)
}

#[test]
fn node15_msb() {
    test_get(0x0F << 120, 0x0F, 15)
}

#[test]
fn node15_simd_missing_key() {
    assert_eq!(get_naive(0x01_02_03, 9), u8::MAX);
    assert_eq!(get_simd(0x01_02_03, 9), 32);
}
