use arctic::raw::key::integer;
use arctic::raw::key::uint;
use arctic::sequential::key::fixed;

const KEY: u64 = 0x1234_5678_9ABC_DEF0u64;

fn take_all_uint(key: u64, lens: &[usize]) {
    let array = key.to_be_bytes();
    let mut reader = uint::Reader::from_u64(key);
    let mut index = 0;
    for &bytes in lens {
        assert_eq!(reader.len().bytes(), array.len() - index);
        let read = reader.read((bytes << 3) as u8);
        assert_eq!(read.to_vec(), array[index..][..bytes].to_vec());
        index += bytes;
    }
    assert_eq!(reader.len().bytes(), array.len() - index);
    assert_eq!(reader.next(), array.get(index).copied());
}

fn take_all_integer(key: u64, lens: &[usize]) {
    let array = key.to_be_bytes();
    let mut reader = integer::Reader::from_u64(key);
    let mut index = 0;
    for &bytes in lens {
        assert_eq!(reader.bytes(), array.len() - index);
        let read = reader.read((bytes << 3) as u8);
        assert_eq!(read.to_vec(), array[index..][..bytes].to_vec());
        index += bytes;
    }
    assert_eq!(reader.bytes(), array.len() - index);
    assert_eq!(reader.next(), array.get(index).copied());
}

fn take_all_fixed(key: u64, lens: &[u8]) {
    let array = key.to_be_bytes();
    let mut reader = fixed::Reader::from_u64(key);
    let mut index = 0;
    for &bytes in lens {
        assert_eq!(reader.bytes(), array.len() - index);
        let taken = reader.take(bytes << 3);
        assert_eq!(taken.to_vec(), array[index..][..bytes as usize].to_vec());
        index += bytes as usize;
    }
    assert_eq!(reader.bytes(), array.len() - index);
    assert_eq!(reader.next(), array.get(index).copied());
}

#[test]
fn int_smoke() {
    take_all_uint(KEY, &[7, 1]);
}

#[test]
fn int_take_0() {
    take_all_uint(KEY, &[0, 1, 0]);
}

#[test]
fn int_take_1() {
    take_all_uint(KEY, &[1, 1, 1, 1, 1, 1, 1, 1]);
}

#[test]
fn integer_smoke() {
    take_all_integer(KEY, &[7, 1]);
}

#[test]
fn integer_take_0() {
    take_all_integer(KEY, &[0, 1, 0]);
}

#[test]
fn integer_take_1() {
    take_all_integer(KEY, &[1, 1, 1, 1, 1, 1, 1, 1]);
}

#[test]
fn fixed_smoke() {
    take_all_fixed(KEY, &[7, 1]);
}

#[test]
fn fixed_take_0() {
    take_all_fixed(KEY, &[0, 1, 0]);
}

#[test]
fn fixed_take_1() {
    take_all_fixed(KEY, &[1, 1, 1, 1, 1, 1, 1, 1]);
}

#[test]
fn fixed_round_trip_every_width() {
    let r = fixed::Reader::from_u16(0xBEEF);
    assert_eq!(r.bytes(), 2);
    assert_eq!(fixed::Writer::from_reader(r).into_u16_unchecked(), 0xBEEF);
    let mut r = fixed::Reader::from_u32(0x0102_0304);
    assert_eq!(fixed::Writer::from_reader(r).into_u32_unchecked(), 0x0102_0304);
    assert_eq!(r.next(), Some(0x01));
    assert_eq!(r.next(), Some(0x02));
    assert_eq!(r.bytes(), 2);
    let r = fixed::Reader::from_u64(u64::MAX - 1);
    assert_eq!(fixed::Writer::from_reader(r).into_key_unchecked(), u64::MAX - 1);
}
