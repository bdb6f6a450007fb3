use arctic::raw::node::simd::{mask_byte_to_bit, mask_eq, mask_len, mask_lt, mask_range};

fn test_eq(array: u128, key: u8, expected: u8) {
    assert_eq!(mask_byte_to_bit(mask_eq(array, key)).trailing_zeros() as u8, expected);
}

#[test]
fn simd_zero() {
    test_eq(0x00_00_00_00, 0, 0)
}

#[test]
fn simd_zero_high() {
    test_eq(0x00_00_12_34, 0, 2)
}

#[test]
fn simd_nonzero_middle() {
    test_eq(0x00_11_12_13, 0x12, 1)
}

#[test]
fn simd_duplicate() {
    test_eq(0x00_11_11_12, 0x11, 1)
}

#[test]
fn simd_lsb() {
    test_eq(u128::MAX, 0xFF, 0)
}

#[test]
fn simd_msb() {
    test_eq(0x0F << 120, 0x0F, 15)
}

#[test]
fn simd_masks_by_lane() {
    let array: u128 = 0x80_7F_10_05;
    assert_eq!(mask_eq(array, 0x10), 0x00_00_FF_00);
    assert_eq!(mask_range(array, 0x05, 0x7F), 0x00_FF_FF_FF);
    // Signed: 0x80 is -128, below everything; the zero lanes are below 1.
    assert_eq!(mask_byte_to_bit(mask_lt(array, 1)), 0xFFF8);
    assert_eq!(mask_len(3), 0xFF_FF_FF);
    assert_eq!(mask_len(0), 0);
    assert_eq!(mask_len(200), u128::MAX);
    assert_eq!(mask_len(16), u128::MAX);
    assert_eq!(mask_byte_to_bit(0x80_00_7F_FF), 0b1001);
}
