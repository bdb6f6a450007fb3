use arctic::raw::key::dynamic::Reader;
use arctic::sequential::key::dynamic::Reader as SequentialReader;

fn take_all_array(array: &[u8], lens: &[usize]) {
    take_all_raw(array, lens);
    take_all_sequential(array, lens);
}

fn take_all_sequential(array: &[u8], lens: &[usize]) {
    let mut reader = SequentialReader::from_slice(array);
    let mut index = 0;
    for &bytes in lens {
        assert_eq!(reader.bytes(), array.len() - index);
        let key = reader.take((bytes << 3) as u8);
        assert_eq!(key.to_vec(), array[index..][..bytes].to_vec());
        index += bytes;
    }
    assert_eq!(reader.bytes(), array.len() - index);
    assert_eq!(reader.next(), array.get(index).copied());
}

fn take_all_raw(array: &[u8], lens: &[usize]) {
    let mut reader = Reader::new(array);
    let mut index = 0;
    for &bytes in lens {
        assert_eq!(reader.bytes(), array.len() - index);
        let key = reader.read((bytes << 3) as u8);
        assert_eq!(key.to_vec(), array[index..][..bytes].to_vec());
        index += bytes;
    }
    assert_eq!(reader.bytes(), array.len() - index);
    assert_eq!(reader.next(), array.get(index).copied());
}

#[test]
fn dynamic_smoke() {
    take_all_array(b"0123456789", &[1])
}

#[test]
fn dynamic_take_0() {
    take_all_array(b"", &[0])
}

#[test]
fn dynamic_take_1() {
    take_all_array(b"0", &[1])
}

#[test]
fn dynamic_len_3() {
    take_all_array(b"012", &[1, 1, 1])
}

#[test]
fn dynamic_len_5() {
    take_all_array(b"01234", &[1, 1, 1, 1, 1])
}

#[test]
fn dynamic_len_7() {
    take_all_array(b"0123456", &[1, 1, 1, 1, 1, 1, 1])
}

#[test]
fn dynamic_switch_exact() {
    take_all_array(b"0123456789", &[2, 2])
}

#[test]
fn dynamic_switch_inexact() {
    take_all_array(b"0123456789", &[4, 2])
}

#[test]
fn dynamic_long() {
    take_all_array(b"abcdefghijklmnopqrstuvwxyz", &[1, 2, 3, 4, 5, 4, 3, 2, 1])
}
