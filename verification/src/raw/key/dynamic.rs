//! Byte-string keys measured in bits.
use vstd::prelude::*;
use vstd::slice::slice_subrange;
use crate::bytes::common_len;
use crate::raw::edge::le::Le;
use crate::raw::key::vec::Reader as Bytes;

verus! {

/// A position in a byte-string key; lengths are counted in bits, always a
/// multiple of eight.
#[derive(Clone, Copy)]
pub struct Reader<'k> {
    bytes: &'k [u8],
}

impl<'k> View for Reader<'k> {
    type V = Seq<u8>;

    closed spec fn view(&self) -> Seq<u8> {
        self.bytes@
    }
}

impl<'k> Reader<'k> {
    /// A reader over all of `bytes`.
    pub fn new(bytes: &'k [u8]) -> (r: Reader<'k>)
        ensures
            r@ == bytes@,
    {
        Reader { bytes }
    }

    /// The bytes left.
    pub fn as_ref(&self) -> (r: &'k [u8])
        ensures
            r@ == self@,
    {
        self.bytes
    }

    /// Number of bits left.
    pub fn bits(&self) -> (r: usize)
        requires
            self@.len() * 8 <= usize::MAX,
        ensures
            r == self@.len() * 8,
    {
        self.bytes.len() * 8
    }

    /// Number of bytes left.
    pub fn bytes(&self) -> (r: usize)
        ensures
            r == self@.len(),
    {
        self.bytes.len()
    }

    /// Take the next byte.
    pub fn next(&mut self) -> (r: Option<u8>)
        ensures
            old(self)@.len() == 0 ==> r.is_none() && final(self)@ == old(self)@,
            old(self)@.len() > 0 ==> r == Some(old(self)@[0]) && final(self)@ == old(self)@.skip(1),
    {
        let mut inner = Bytes::new(self.bytes);
        let r = inner.next();
        self.bytes = inner.as_ref();
        r
    }

    /// Read up to `len` bits as an edge key (fewer when the key ends).
    pub fn read(&mut self, len: u8) -> (r: Le)
        requires
            len % 8 == 0,
            len <= 56,
        ensures
            ({
                let n = if (len / 8) as nat <= old(self)@.len() {
                    (len / 8) as nat
                } else {
                    old(self)@.len()
                };
                &&& r.wf()
                &&& r.key_view() == old(self)@.take(n as int)
                &&& !r.value_flag()
                &&& !r.frozen_flag()
                &&& final(self)@ == old(self)@.skip(n as int)
            }),
    {
        let mut inner = Bytes::new(self.bytes);
        let r = inner.read(len);
        self.bytes = inner.as_ref();
        r
    }

    /// Read as many bytes as `edge` holds; on a match return their length in
    /// bits.
    pub fn match_exact(&mut self, edge: Le) -> (r: Option<u8>)
        requires
            edge.wf(),
        ensures
            ({
                let n = edge.key_len();
                let m = if n <= old(self)@.len() {
                    n
                } else {
                    old(self)@.len()
                };
                &&& final(self)@ == old(self)@.skip(m as int)
                &&& (r is Some <==> (n <= old(self)@.len() && old(self)@.take(n as int)
                    == edge.key_view()))
                &&& r is Some ==> r->0 == 8 * n
            }),
    {
        let mut inner = Bytes::new(self.bytes);
        let r = inner.match_exact(edge);
        self.bytes = inner.as_ref();
        r
    }

    /// Read as many bytes as `edge` holds; return them and whether they
    /// match the edge exactly.
    pub fn match_inexact(&mut self, edge: Le) -> (r: (Le, bool))
        requires
            edge.wf(),
        ensures
            ({
                let n = edge.key_len();
                let m = if n <= old(self)@.len() {
                    n
                } else {
                    old(self)@.len()
                };
                &&& final(self)@ == old(self)@.skip(m as int)
                &&& r.0.wf()
                &&& r.0.key_view() == old(self)@.take(m as int)
                &&& (r.1 <==> (n <= old(self)@.len() && old(self)@.take(n as int)
                    == edge.key_view()))
            }),
    {
        let mut inner = Bytes::new(self.bytes);
        let r = inner.match_inexact(edge);
        self.bytes = inner.as_ref();
        r
    }

    /// Drop the last `bits` bits.
    pub fn trim(&mut self, bits: usize)
        requires
            bits / 8 <= old(self)@.len(),
        ensures
            final(self)@ == old(self)@.take(old(self)@.len() - bits / 8),
    {
        let total = self.bytes.len();
        self.bytes = slice_subrange(self.bytes, 0, total - bits / 8);
    }

    /// The first `bits` bits.
    pub fn prefix(self, bits: usize) -> (r: Reader<'k>)
        requires
            bits / 8 <= self@.len(),
        ensures
            r@ == self@.take((bits / 8) as int),
    {
        Reader { bytes: slice_subrange(self.bytes, 0, bits / 8) }
    }

    /// Everything after the first `bits` bits.
    pub fn suffix(self, bits: usize) -> (r: Reader<'k>)
        requires
            bits / 8 <= self@.len(),
        ensures
            r@ == self@.skip((bits / 8) as int),
    {
        Reader { bytes: slice_subrange(self.bytes, bits / 8, self.bytes.len()) }
    }

    /// The longest common prefix of `self` and `other`.
    pub fn common_prefix(self, other: Reader<'k>) -> (r: Reader<'k>)
        ensures
            r@ == self@.take(common_len(self@, other@) as int),
    {
        let c = Bytes::new(self.bytes).common_prefix(Bytes::new(other.bytes));
        Reader { bytes: c.as_ref() }
    }
}

/// A key being rebuilt from edge keys, with lengths in bytes.
pub struct Writer {
    bytes: Vec<u8>,
}

impl View for Writer {
    type V = Seq<u8>;

    closed spec fn view(&self) -> Seq<u8> {
        self.bytes@
    }
}

impl Writer {
    /// The empty key.
    pub fn new() -> (r: Writer)
        ensures
            r@ == Seq::<u8>::empty(),
    {
        Writer { bytes: Vec::new() }
    }

    /// The whole of what `reader` has left.
    pub fn from_reader(reader: Reader) -> (r: Writer)
        ensures
            r@ == reader@,
    {
        let mut bytes: Vec<u8> = Vec::new();
        bytes.extend_from_slice(reader.as_ref());
        proof {
            assert(bytes@ =~= reader@);
        }
        Writer { bytes }
    }

    /// The length in bytes of a length in bits.
    pub fn len_from_bits(bits: usize) -> (r: usize)
        ensures
            r == bits / 8,
    {
        bits / 8
    }

    /// Append the bytes of `edge`; `len` is the current length.
    pub fn write(&mut self, len: usize, edge: Le) -> (r: usize)
        requires
            len == old(self)@.len(),
            edge.wf(),
        ensures
            final(self)@ == old(self)@ + edge.key_view(),
            r == final(self)@.len(),
    {
        let mut tail = edge.to_vec();
        self.bytes.append(&mut tail);
        self.bytes.len()
    }

    /// Keep the first `start` bytes, then append `node` and the bytes of
    /// `edge`.
    pub fn replace(&mut self, start: usize, node: u8, edge: Le) -> (r: usize)
        requires
            start <= old(self)@.len(),
            edge.wf(),
        ensures
            final(self)@ == old(self)@.take(start as int).push(node) + edge.key_view(),
            r == final(self)@.len(),
    {
        self.bytes.truncate(start);
        self.bytes.push(node);
        let mut tail = edge.to_vec();
        self.bytes.append(&mut tail);
        self.bytes.len()
    }

    pub fn as_slice(&self) -> (r: &[u8])
        ensures
            r@ == self@,
    {
        self.bytes.as_slice()
    }
}

} // verus!
