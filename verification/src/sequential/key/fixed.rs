//! Fixed-width integer keys, read most significant byte first.
use vstd::prelude::*;
use crate::bytes::be8;
use crate::bytes::common_len;
use crate::raw::edge::be::Be;
use crate::raw::key::integer;
use crate::raw::key::integer::zeros;

verus! {

/// A position in an integer key; lengths are counted in bits, always a
/// multiple of eight.
#[derive(Clone, Copy)]
pub struct Reader {
    inner: integer::Reader,
}

impl View for Reader {
    type V = Seq<u8>;

    closed spec fn view(&self) -> Seq<u8> {
        self.inner@
    }
}

impl Reader {
    pub closed spec fn wf(&self) -> bool {
        self.inner.wf()
    }

    /// The whole word read from, including the bytes already read.
    pub closed spec fn word(&self) -> u64 {
        self.inner.word()
    }

    /// At most eight bytes are left.
    pub proof fn lemma_len(&self)
        requires
            self.wf(),
        ensures
            self@.len() <= 8,
    {
        self.inner.lemma_len();
    }

    /// A reader over all eight bytes of `value`.
    pub fn from_u64(value: u64) -> (r: Reader)
        ensures
            r.wf(),
            r@ == be8(value),
            r.word() == value,
    {
        Reader { inner: integer::Reader::from_u64(value) }
    }

    /// A reader over the two bytes of `value`, most significant first.
    pub fn from_u16(value: u16) -> (r: Reader)
        ensures
            r.wf(),
            r.word() == (value as u64) << 48u64,
            r@ == be8(r.word()).take(2),
    {
        Reader { inner: integer::Reader::from_u16(value) }
    }

    /// A reader over the four bytes of `value`, most significant first.
    pub fn from_u32(value: u32) -> (r: Reader)
        ensures
            r.wf(),
            r.word() == (value as u64) << 32u64,
            r@ == be8(r.word()).take(4),
    {
        Reader { inner: integer::Reader::from_u32(value) }
    }

    /// A reader over the first `bits` bits of `buffer`, rounded down to
    /// whole bytes; the rest of the word is cleared.
    pub fn new_masked(buffer: u64, bits: u8) -> (r: Reader)
        requires
            bits <= 64,
        ensures
            r.wf(),
            r@ == be8(buffer).take((bits / 8) as int),
    {
        Reader { inner: integer::Reader::new_masked(buffer, bits) }
    }

    /// Number of bits left.
    pub fn bits(&self) -> (r: usize)
        requires
            self.wf(),
        ensures
            r == self@.len() * 8,
            r <= 64,
    {
        self.inner.bits()
    }

    /// Number of bytes left.
    pub fn bytes(&self) -> (r: usize)
        requires
            self.wf(),
        ensures
            r == self@.len(),
    {
        self.inner.bytes()
    }

    /// The next `len` bits as a key, without moving.
    pub fn peek(&self, len: u8) -> (r: Be)
        requires
            self.wf(),
            len % 8 == 0,
            len <= 56,
            len / 8 <= self@.len(),
        ensures
            r.wf(),
            r.key_view() == self@.take((len / 8) as int),
    {
        let mut copy = self.inner;
        copy.read(len)
    }

    /// The next `len` bits as a key.
    pub fn take(&mut self, len: u8) -> (r: Be)
        requires
            old(self).wf(),
            len % 8 == 0,
            len <= 56,
            len / 8 <= old(self)@.len(),
        ensures
            final(self).wf(),
            r.wf(),
            r.key_view() == old(self)@.take((len / 8) as int),
            final(self)@ == old(self)@.skip((len / 8) as int),
    {
        self.inner.read(len)
    }

    /// Take the next byte.
    pub fn next(&mut self) -> (r: Option<u8>)
        requires
            old(self).wf(),
        ensures
            final(self).wf(),
            old(self)@.len() == 0 ==> r.is_none() && final(self)@ == old(self)@,
            old(self)@.len() > 0 ==> r == Some(old(self)@[0]) && final(self)@ == old(self)@.skip(1),
    {
        self.inner.next()
    }

    /// Skip the next `bits` bits.
    pub fn seek(&mut self, bits: usize)
        requires
            old(self).wf(),
            bits % 8 == 0,
            bits / 8 <= old(self)@.len(),
        ensures
            final(self).wf(),
            final(self)@ == old(self)@.skip((bits / 8) as int),
    {
        proof {
            self.inner.lemma_len();
        }
        self.inner = self.inner.suffix(bits as u8);
    }

    /// The longest common prefix of `self` and `other`.
    pub fn prefix(&self, other: &Reader) -> (r: Reader)
        requires
            self.wf(),
            other.wf(),
        ensures
            r.wf(),
            r@ == self@.take(common_len(self@, other@) as int),
    {
        Reader { inner: self.inner.common_prefix(other.inner) }
    }

    /// The first `bits` bits.
    pub fn slice(&self, bits: usize) -> (r: Reader)
        requires
            self.wf(),
            bits % 8 == 0,
            bits / 8 <= self@.len(),
        ensures
            r.wf(),
            r@ == self@.take((bits / 8) as int),
    {
        proof {
            self.inner.lemma_len();
        }
        Reader { inner: self.inner.prefix(bits as u8) }
    }
}

/// An integer key being rebuilt, most significant byte first.
#[derive(Clone, Copy)]
pub struct Writer {
    inner: integer::Writer,
}

impl View for Writer {
    type V = Seq<u8>;

    /// All eight bytes, most significant first.
    closed spec fn view(&self) -> Seq<u8> {
        self.inner@
    }
}

impl Writer {
    /// The word written so far.
    pub closed spec fn word(&self) -> u64 {
        self.inner.word()
    }

    /// The key with every byte zero.
    pub fn new() -> (r: Writer)
        ensures
            r@ == zeros(8),
    {
        Writer { inner: integer::Writer::new() }
    }

    /// The word `reader` reads from.
    pub fn from_reader(reader: Reader) -> (r: Writer)
        requires
            reader.wf(),
        ensures
            r.word() == reader.word(),
            r@ == be8(reader.word()),
            r@.take(reader@.len() as int) == reader@,
    {
        Writer { inner: integer::Writer::from_reader(reader.inner) }
    }

    /// Lengths of this writer are counted in bits.
    pub fn len_from_bits(bits: usize) -> (r: usize)
        ensures
            r == bits,
    {
        bits
    }

    /// Merge the bytes of `array` into the key at `bits`, and advance `bits`
    /// past them.
    pub fn extend(&mut self, bits: &mut usize, array: Be)
        requires
            array.wf(),
            *old(bits) % 8 == 0,
            *old(bits) / 8 + array.key_len() <= 8,
        ensures
            *final(bits) == *old(bits) + 8 * array.key_len(),
            forall|j: int|
                0 <= j < 8 ==> #[trigger] final(self)@[j] == (if *old(bits) / 8 <= j < *old(bits) / 8
                    + array.key_len() {
                    old(self)@[j] | array.key_view()[j - *old(bits) / 8]
                } else {
                    old(self)@[j]
                }),
    {
        let next = self.inner.write(*bits, array);
        *bits = next;
    }

    /// Merge `byte` into the key at `bits`, and advance `bits` past it.
    pub fn push(&mut self, bits: &mut usize, byte: u8)
        requires
            *old(bits) % 8 == 0,
            *old(bits) / 8 < 8,
        ensures
            *final(bits) == *old(bits) + 8,
            forall|j: int|
                0 <= j < 8 ==> #[trigger] final(self)@[j] == (if j == *old(bits) / 8 {
                    old(self)@[j] | byte
                } else {
                    old(self)@[j]
                }),
    {
        let one = [byte];
        let array = Be::new(one.as_slice(), false, false);
        proof {
            array.lemma_wf_len();
        }
        let next = self.inner.write(*bits, array);
        *bits = next;
    }

    /// Keep the first `bits` bits and clear the rest.
    pub fn truncate(&mut self, bits: usize)
        requires
            bits % 8 == 0,
            bits <= 64,
        ensures
            final(self)@ == old(self)@.take((bits / 8) as int) + zeros((8 - bits / 8) as nat),
    {
        self.inner.truncate(bits)
    }

    /// The key as an integer.
    pub fn into_key_unchecked(self) -> (r: u64)
        ensures
            r == self.word(),
            be8(r) == self@,
    {
        self.inner.into_u64()
    }

    /// The key as a two-byte integer.
    pub fn into_u16_unchecked(self) -> (r: u16)
        ensures
            r == (self.word() >> 48u64) as u16,
    {
        self.inner.into_u16()
    }

    /// The key as a four-byte integer.
    pub fn into_u32_unchecked(self) -> (r: u32)
        ensures
            r == (self.word() >> 32u64) as u32,
    {
        self.inner.into_u32()
    }
}

/// Reading an integer and writing back what was read gives the integer.
pub proof fn lemma_round_trip_u64(x: u64, r: Reader, w: Writer)
    requires
        r.word() == x,
        w.word() == r.word(),
    ensures
        w.word() == x,
{
}

/// Reading a two-byte integer and writing back what was read gives it.
pub proof fn lemma_round_trip_u16(x: u16, r: Reader, w: Writer)
    requires
        r.word() == (x as u64) << 48u64,
        w.word() == r.word(),
    ensures
        (w.word() >> 48u64) as u16 == x,
{
    let v = w.word();
    assert(v == (x as u64) << 48u64 ==> (v >> 48u64) as u16 == x) by (bit_vector);
}

/// Reading a four-byte integer and writing back what was read gives it.
pub proof fn lemma_round_trip_u32(x: u32, r: Reader, w: Writer)
    requires
        r.word() == (x as u64) << 32u64,
        w.word() == r.word(),
    ensures
        (w.word() >> 32u64) as u32 == x,
{
    let v = w.word();
    assert(v == (x as u64) << 32u64 ==> (v >> 32u64) as u32 == x) by (bit_vector);
}

} // verus!
