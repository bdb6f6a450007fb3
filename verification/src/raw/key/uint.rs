//! Integer keys whose lengths are carried as a `Len` in bits.
use vstd::prelude::*;
use crate::bytes::be8;
use crate::bytes::common_len;
use crate::raw::edge::be::Be;
use crate::raw::key::integer;

verus! {

/// A key length in bits, a whole number of bytes.
#[derive(Clone, Copy, PartialEq, Eq, Structural)]
pub struct Len(u8);

impl View for Len {
    type V = nat;

    /// The length in bytes.
    closed spec fn view(&self) -> nat {
        (self.0 / 8) as nat
    }
}

impl Len {
    pub closed spec fn wf(&self) -> bool {
        self.0 % 8 == 0 && self.0 <= 64
    }

    /// No bytes.
    pub fn zero() -> (r: Len)
        ensures
            r.wf(),
            r@ == 0,
    {
        Len(0)
    }

    /// One byte: the byte a node consumes.
    pub fn byte() -> (r: Len)
        ensures
            r.wf(),
            r@ == 1,
    {
        Len(8)
    }

    pub fn bits(self) -> (r: usize)
        requires
            self.wf(),
        ensures
            r == self@ * 8,
    {
        self.0 as usize
    }

    pub fn bytes(self) -> (r: usize)
        ensures
            r == self@,
    {
        (self.0 / 8) as usize
    }

    pub fn add_len(self, rhs: Len) -> (r: Len)
        requires
            self.wf(),
            rhs.wf(),
            self@ + rhs@ <= 8,
        ensures
            r.wf(),
            r@ == self@ + rhs@,
    {
        Len(self.0 + rhs.0)
    }

    pub fn sub_len(self, rhs: Len) -> (r: Len)
        requires
            self.wf(),
            rhs.wf(),
            rhs@ <= self@,
        ensures
            r.wf(),
            r@ == self@ - rhs@,
    {
        Len(self.0 - rhs.0)
    }
}

/// A position in an integer key.
#[derive(Clone, Copy)]
pub struct Reader {
    inner: integer::Reader,
}

impl View for Reader {
    type V = Seq<u8>;

    closed spec fn view(&self) -> Seq<u8> {
        self.inner@
    }
}

impl Reader {
    pub closed spec fn wf(&self) -> bool {
        self.inner.wf()
    }

    /// A reader over all eight bytes of `value`.
    pub fn from_u64(value: u64) -> (r: Reader)
        ensures
            r.wf(),
            r@ == be8(value),
    {
        Reader { inner: integer::Reader::from_u64(value) }
    }

    /// A reader over the first `bits` bits of `buffer`, rounded down to
    /// whole bytes.
    pub fn new(buffer: u64, bits: u8) -> (r: Reader)
        requires
            bits <= 64,
        ensures
            r.wf(),
            r@ == be8(buffer).take((bits / 8) as int),
    {
        Reader { inner: integer::Reader::new_masked(buffer, bits) }
    }

    /// The length left.
    pub fn len(&self) -> (r: Len)
        requires
            self.wf(),
        ensures
            r.wf(),
            r@ == self@.len(),
    {
        Len(self.inner.bits() as u8)
    }

    /// Take the next byte.
    pub fn next(&mut self) -> (r: Option<u8>)
        requires
            old(self).wf(),
        ensures
            final(self).wf(),
            old(self)@.len() == 0 ==> r.is_none() && final(self)@ == old(self)@,
            old(self)@.len() > 0 ==> r == Some(old(self)@[0]) && final(self)@ == old(self)@.skip(1),
    {
        self.inner.next()
    }

    /// Read up to `len` bits as an edge key (fewer when the key ends).
    pub fn read(&mut self, len: u8) -> (r: Be)
        requires
            old(self).wf(),
            len % 8 == 0,
            len <= 56,
        ensures
            final(self).wf(),
            ({
                let n = if (len / 8) as nat <= old(self)@.len() {
                    (len / 8) as nat
                } else {
                    old(self)@.len()
                };
                &&& r.wf()
                &&& r.key_view() == old(self)@.take(n as int)
                &&& final(self)@ == old(self)@.skip(n as int)
            }),
    {
        self.inner.read(len)
    }

    /// Drop the last `len` bytes.
    pub fn trim(&mut self, len: Len)
        requires
            old(self).wf(),
            len.wf(),
            len@ <= old(self)@.len(),
        ensures
            final(self).wf(),
            final(self)@ == old(self)@.take(old(self)@.len() - len@),
    {
        self.inner.trim(len.0)
    }

    /// The first `end` bytes.
    pub fn prefix(self, end: Len) -> (r: Reader)
        requires
            self.wf(),
            end.wf(),
            end@ <= self@.len(),
        ensures
            r.wf(),
            r@ == self@.take(end@ as int),
    {
        Reader { inner: self.inner.prefix(end.0) }
    }

    /// Everything after the first `start` bytes.
    pub fn suffix(self, start: Len) -> (r: Reader)
        requires
            self.wf(),
            start.wf(),
            start@ <= self@.len(),
        ensures
            r.wf(),
            r@ == self@.skip(start@ as int),
    {
        Reader { inner: self.inner.suffix(start.0) }
    }

    /// The longest common prefix of `self` and `other`.
    pub fn common_prefix(self, other: Reader) -> (r: Reader)
        requires
            self.wf(),
            other.wf(),
        ensures
            r.wf(),
            r@ == self@.take(common_len(self@, other@) as int),
    {
        Reader { inner: self.inner.common_prefix(other.inner) }
    }
}

/// An integer key rebuilt from a prefix and edge keys.
#[derive(Clone, Copy)]
pub struct Writer {
    inner: integer::Writer,
}

impl View for Writer {
    type V = Seq<u8>;

    /// All eight bytes, most significant first.
    closed spec fn view(&self) -> Seq<u8> {
        self.inner@
    }
}

impl Writer {
    /// The bytes `prefix` has left, followed by the bytes of `key`; returns
    /// the writer and its length. Bytes past that length are zero.
    pub fn new(prefix: Reader, key: Be) -> (r: (Writer, Len))
        requires
            prefix.wf(),
            key.wf(),
            prefix@.len() + key.key_len() <= 8,
        ensures
            r.1.wf(),
            r.1@ == prefix@.len() + key.key_len(),
            r.0@.take(r.1@ as int) == prefix@ + key.key_view(),
    {
        let len = prefix.len();
        let bits = len.bits();
        let base = prefix.inner.prefix(bits as u8);
        let mut w = integer::Writer::from_reader(base);
        proof {
            key.lemma_wf_len();
            assert(base@ =~= prefix@);
        }
        proof {
            w.lemma_len();
        }
        let total = w.write(bits, key);
        let r = (Writer { inner: w }, Len(total as u8));
        proof {
            w.lemma_len();
            assert forall|j: int| 0 <= j < r.1@ implies r.0@[j] == (prefix@ + key.key_view())[j] by {
                if j >= prefix@.len() {
                    integer::lemma_or_zero(key.key_view()[j - prefix@.len()]);
                    assert(be8(base.word())[j] == 0u8);
                }
            }
            assert(r.0@.take(r.1@ as int) =~= prefix@ + key.key_view());
        }
        r
    }

    /// Keep the first `start` bytes, then put `node` and the bytes of `edge`
    /// after them; returns the new length.
    pub fn replace(&mut self, start: Len, node: u8, edge: Be) -> (r: Len)
        requires
            start.wf(),
            edge.wf(),
            start@ + 1 + edge.key_len() <= 8,
        ensures
            r.wf(),
            r@ == start@ + 1 + edge.key_len(),
            final(self)@.take(r@ as int) == old(self)@.take(start@ as int).push(node)
                + edge.key_view(),
    {
        proof {
            self.inner.lemma_len();
        }
        let total = self.inner.replace(start.bits(), node, edge);
        proof {
            self.inner.lemma_len();
            edge.lemma_wf_len();
            assert(final(self)@.take((start@ + 1 + edge.key_len()) as int) =~= old(self)@.take(
                start@ as int,
            ).push(node) + edge.key_view());
        }
        Len(total as u8)
    }

    /// The key as an integer.
    pub fn into_u64(self) -> (r: u64)
        ensures
            be8(r) == self@,
    {
        self.inner.into_u64()
    }
}

} // verus!
