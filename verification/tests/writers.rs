use arctic::raw::edge::be::Be;
use arctic::raw::edge::le::Le;
use arctic::raw::key::vec::{Len as VecLen, Reader as VecReader, Writer as VecWriter};
use arctic::raw::key::{array, dynamic, integer, slow, uint};
use arctic::sequential::key::dynamic as seq_dynamic;
use arctic::sequential::key::fixed;
use arctic::sequential::key::Ignore;

#[test]
fn vec_writer_rebuilds_keys() {
    let key = b"hello world";
    let mut reader = VecReader::new(key);
    let first = reader.read(16);
    let (mut writer, len) = VecWriter::new(VecReader::empty(), first);
    assert_eq!(writer.as_slice(), b"he");
    assert_eq!(len.bytes(), 2);
    let len = writer.replace(len, b'l', Le::new(b"lo", false, false));
    assert_eq!(writer.as_slice(), b"hello");
    assert_eq!(len.bytes(), 5);
    let len = writer.replace(VecLen::new(1), b'a', Le::new(b"", false, false));
    assert_eq!(writer.into_vec(), b"ha".to_vec());
    assert_eq!(len.bytes(), 2);
    assert_eq!(VecWriter::from_reader(reader).into_vec(), b"llo world".to_vec());
}

#[test]
fn vec_reader_prefix_suffix_and_common_prefix() {
    let a = VecReader::new(b"abcdef");
    let b = VecReader::new(b"abcxyz");
    assert_eq!(a.common_prefix(b).as_ref(), b"abc");
    assert_eq!(a.prefix(VecLen::new(2)).as_ref(), b"ab");
    assert_eq!(a.suffix(VecLen::new(4)).as_ref(), b"ef");
    let mut c = a;
    c.trim(VecLen::new(2));
    assert_eq!(c.as_ref(), b"abcd");
    let mut d = a;
    assert_eq!(d.match_exact(Le::new(b"abc", false, false)), Some(24));
    assert_eq!(d.as_ref(), b"def");
    let mut e = a;
    let (read, exact) = e.match_inexact(Le::new(b"abx", false, false));
    assert!(!exact);
    assert_eq!(read.to_vec(), b"abc".to_vec());
}

#[test]
fn dynamic_writer_appends_and_replaces() {
    let reader = dynamic::Reader::new(b"key");
    let mut writer = dynamic::Writer::from_reader(reader);
    let len = writer.write(3, Le::new(b"s!", false, false));
    assert_eq!(writer.as_slice(), b"keys!");
    assert_eq!(len, 5);
    let len = writer.replace(1, b'i', Le::new(b"d", false, false));
    assert_eq!(writer.as_slice(), b"kid");
    assert_eq!(len, 3);
    assert_eq!(dynamic::Writer::len_from_bits(40), 5);
    assert_eq!(dynamic::Writer::new().as_slice(), b"");
}

#[test]
fn integer_writer_merges_bytes() {
    let mut writer = integer::Writer::new();
    let bits = writer.write(0, Be::new(&[0x12, 0x34], false, false));
    assert_eq!(bits, 16);
    let bits = writer.write(bits, Be::new(&[0x56], false, false));
    assert_eq!(bits, 24);
    assert_eq!(writer.into_u64(), 0x1234_5600_0000_0000);
    let bits = writer.replace(8, 0xAB, Be::new(&[0xCD], false, false));
    assert_eq!(bits, 24);
    assert_eq!(writer.into_u64(), 0x12AB_CD00_0000_0000);
    writer.truncate(8);
    assert_eq!(writer.into_u64(), 0x1200_0000_0000_0000);
}

#[test]
fn uint_writer_joins_prefix_and_key() {
    let mut reader = uint::Reader::from_u64(0x0102_0304_0506_0708);
    let head = reader.read(16);
    assert_eq!(head.to_vec(), vec![1, 2]);
    let prefix = reader.prefix(reader.len().sub_len(reader.len()).add_len(uint::Len::byte()));
    let (mut writer, len) = uint::Writer::new(prefix, Be::new(&[9, 9], false, false));
    assert_eq!(len.bytes(), 3);
    assert_eq!(writer.into_u64(), 0x0309_0900_0000_0000);
    let len = writer.replace(uint::Len::zero(), 7, Be::new(&[8], false, false));
    assert_eq!(len.bytes(), 2);
    assert_eq!(writer.into_u64() >> 48, 0x0708);
}

#[test]
fn array_writer_fills_fixed_keys() {
    let (mut writer, len) =
        array::Writer::<4>::new(VecReader::new(b"a"), Le::new(b"bc", false, false));
    assert_eq!(writer.as_slice(), b"abc\0");
    assert_eq!(len.bytes(), 3);
    let len = writer.replace(VecLen::new(1), b'x', Le::new(b"y", false, false));
    assert_eq!(writer.as_slice(), b"axy\0");
    assert_eq!(len.bytes(), 3);
}

#[test]
fn slow_reader_reads_without_moving() {
    let reader = slow::Reader::new(0x6162_6364_0000_0000, 32);
    assert_eq!(reader.len().bytes(), 4);
    assert_eq!(reader.get_edge(16).to_vec(), b"ab".to_vec());
    assert_eq!(reader.get_edge(56).to_vec(), b"abcd".to_vec());
    assert_eq!(reader.get_byte(8), Some(b'b'));
    assert_eq!(reader.get_byte(64), None);
    assert_eq!(reader.match_prefix(Le::new(b"abx", false, false)).bytes(), 2);
    assert_eq!(reader.suffix(VecLen::new(1)).get_edge(56).to_vec(), b"bcd".to_vec());
    assert_eq!(reader.prefix(VecLen::new(3)).get_edge(56).to_vec(), b"abc".to_vec());
    let other = slow::Reader::new(0x6162_7800_0000_0000, 24);
    assert_eq!(reader.common_prefix(other).get_edge(56).to_vec(), b"ab".to_vec());
    let mut trimmed = reader;
    trimmed.trim(VecLen::new(1));
    assert_eq!(trimmed.get_edge(56).to_vec(), b"abc".to_vec());
}

#[test]
fn integer_slow_reads_little_endian_edges() {
    let mut reader = integer::Slow::from_u64(0x6162_6364_6566_6768);
    assert_eq!(reader.bytes(), 8);
    assert_eq!(reader.read(24).to_vec(), b"abc".to_vec());
    assert_eq!(reader.next(), Some(b'd'));
    assert_eq!(reader.match_exact(Le::new(b"ef", false, false)), Some(16));
    assert_eq!(reader.match_exact(Le::new(b"gx", false, false)), None);
    assert_eq!(reader.bytes(), 0);
}

#[test]
fn integer_reader_prefixes() {
    let a = integer::Reader::from_u64(0x0102_0304_0506_0708);
    let b = integer::Reader::from_u64(0x0102_0399_0000_0000);
    assert_eq!(a.common_prefix(b).bytes(), 3);
    assert_eq!(a.prefix(16).bytes(), 2);
    let mut s = a.suffix(48);
    assert_eq!(s.next(), Some(7));
    let masked = integer::Reader::new_masked(0xFFFF_FFFF_FFFF_FFFF, 20);
    assert_eq!(masked.bytes(), 2);
    assert_eq!(integer::Writer::from_reader(masked).into_u64(), 0xFFFF_0000_0000_0000);
}

#[test]
fn fixed_reader_and_writer() {
    let mut reader = fixed::Reader::from_u64(0x0A0B_0C0D_0E0F_1011);
    assert_eq!(reader.peek(16).to_vec(), vec![0x0A, 0x0B]);
    reader.seek(16);
    assert_eq!(reader.bytes(), 6);
    assert_eq!(reader.slice(8).bytes(), 1);
    let other = fixed::Reader::from_u64(0x0C0D_FF00_0000_0000);
    assert_eq!(reader.prefix(&other).bytes(), 2);
    let mut writer = fixed::Writer::new();
    let mut bits = 0usize;
    writer.push(&mut bits, 0x42);
    writer.extend(&mut bits, Be::new(&[0x43, 0x44], false, false));
    assert_eq!(bits, 24);
    assert_eq!(writer.into_key_unchecked(), 0x4243_4400_0000_0000);
    writer.truncate(8);
    assert_eq!(writer.into_key_unchecked(), 0x4200_0000_0000_0000);
    assert_eq!(fixed::Writer::len_from_bits(24), 24);
}

#[test]
fn sequential_dynamic_reader_switches_to_small() {
    let key = b"0123456789";
    let mut reader = seq_dynamic::Reader::from_slice(key);
    assert!(matches!(reader, seq_dynamic::Reader::Large(_)));
    assert_eq!(reader.next(), Some(b'0'));
    assert_eq!(reader.next(), Some(b'1'));
    assert!(matches!(reader, seq_dynamic::Reader::Small(_)));
    assert_eq!(reader.peek(16).to_vec(), b"23".to_vec());
    let other = seq_dynamic::Reader::from_slice(b"23x");
    assert_eq!(reader.prefix(&other).bytes(), 2);
    assert_eq!(reader.slice(24).bytes(), 3);
    assert_eq!(reader.to_small().bytes(), 8);
    let mut writer = seq_dynamic::Writer::from_reader(reader);
    assert_eq!(writer.as_slice(), b"23456789");
    writer.truncate(16);
    writer.push(16, b'!');
    writer.extend(24, Be::new(b"?", false, false));
    assert_eq!(writer.into_vec(), b"23!?".to_vec());
    let large = seq_dynamic::Reader::from_slice(b"abcdefghijkl");
    let large2 = seq_dynamic::Reader::from_slice(b"abcdefghijXY");
    assert_eq!(large.prefix(&large2).bytes(), 10);
}

#[test]
fn ignore_keeps_nothing() {
    let mut ignore = Ignore::new();
    ignore.push(0, 1);
    ignore.extend(8, Be::empty());
    ignore.truncate(0);
    assert!(ignore == Ignore);
}
