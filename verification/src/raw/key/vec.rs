//! Keys that are byte strings of any length (`Vec<u8>`, `String`), read
//! front to back into little-endian edge keys.
use vstd::prelude::*;
use vstd::slice::slice_subrange;
use crate::bytes::common_len;
use crate::bytes::lemma_common_len;
use crate::raw::edge::le::Le;

verus! {

/// A length in bytes.
#[derive(Clone, Copy, PartialEq, Eq, Structural)]
pub struct Len(usize);

impl View for Len {
    type V = nat;

    closed spec fn view(&self) -> nat {
        self.0 as nat
    }
}

impl Len {
    pub fn new(bytes: usize) -> (r: Len)
        ensures
            r@ == bytes,
    {
        Len(bytes)
    }

    pub fn zero() -> (r: Len)
        ensures
            r@ == 0,
    {
        Len(0)
    }

    /// One byte: the byte a node consumes.
    pub fn byte() -> (r: Len)
        ensures
            r@ == 1,
    {
        Len(1)
    }

    pub fn bits(self) -> (r: usize)
        requires
            self@ * 8 <= usize::MAX,
        ensures
            r == self@ * 8,
    {
        self.0 * 8
    }

    pub fn bytes(self) -> (r: usize)
        ensures
            r == self@,
    {
        self.0
    }

    pub fn add_len(self, rhs: Len) -> (r: Len)
        requires
            self@ + rhs@ <= usize::MAX,
        ensures
            r@ == self@ + rhs@,
    {
        Len(self.0 + rhs.0)
    }

    pub fn sub_len(self, rhs: Len) -> (r: Len)
        requires
            rhs@ <= self@,
        ensures
            r@ == self@ - rhs@,
    {
        Len(self.0 - rhs.0)
    }
}

/// Reads a byte-string key front to back.
#[derive(Clone, Copy)]
pub struct Reader<'k> {
    bytes: &'k [u8],
}

impl<'k> View for Reader<'k> {
    type V = Seq<u8>;

    /// The bytes not yet read.
    closed spec fn view(&self) -> Seq<u8> {
        self.bytes@
    }
}

impl<'k> Reader<'k> {
    pub fn new(bytes: &'k [u8]) -> (r: Reader<'k>)
        ensures
            r@ == bytes@,
    {
        Reader { bytes }
    }

    /// The empty key.
    pub fn empty() -> (r: Reader<'static>)
        ensures
            r@ == Seq::<u8>::empty(),
    {
        let e: &'static [u8] = &[];
        Reader { bytes: e }
    }

    /// The bytes not yet read.
    pub fn as_ref(&self) -> (r: &'k [u8])
        ensures
            r@ == self@,
    {
        self.bytes
    }

    /// Number of bytes left.
    pub fn len(&self) -> (r: Len)
        ensures
            r@ == self@.len(),
    {
        Len(self.bytes.len())
    }

    /// Take the next byte.
    pub fn next(&mut self) -> (r: Option<u8>)
        ensures
            old(self)@.len() == 0 ==> r.is_none() && final(self)@ == old(self)@,
            old(self)@.len() > 0 ==> r == Some(old(self)@[0]) && final(self)@ == old(self)@.skip(1),
    {
        let n = self.bytes.len();
        if n == 0 {
            return None;
        }
        let byte = self.bytes[0];
        self.bytes = slice_subrange(self.bytes, 1, n);
        Some(byte)
    }

    /// Read up to `len` bits (a multiple of eight, at most 56) into an edge key.
    /// Reads fewer bytes when fewer are left.
    pub fn read(&mut self, len: u8) -> (r: Le)
        requires
            len % 8 == 0,
            len <= 56,
        ensures
            ({
                let n = if (len / 8) as nat <= old(self)@.len() {
                    (len / 8) as nat
                } else {
                    old(self)@.len()
                };
                &&& r.wf()
                &&& r.key_view() == old(self)@.take(n as int)
                &&& !r.value_flag()
                &&& !r.frozen_flag()
                &&& final(self)@ == old(self)@.skip(n as int)
            }),
    {
        let total = self.bytes.len();
        let want = (len / 8) as usize;
        let n = if want <= total {
            want
        } else {
            total
        };
        let key = Le::new(slice_subrange(self.bytes, 0, n), false, false);
        self.bytes = slice_subrange(self.bytes, n, total);
        key
    }

    /// Read as many bytes as `edge` holds and report whether they match it.
    /// On a match, returns the length in bits.
    pub fn match_exact(&mut self, edge: Le) -> (r: Option<u8>)
        requires
            edge.wf(),
        ensures
            ({
                let n = edge.key_len();
                let m = if n <= old(self)@.len() {
                    n
                } else {
                    old(self)@.len()
                };
                &&& final(self)@ == old(self)@.skip(m as int)
                &&& (r is Some <==> (n <= old(self)@.len() && old(self)@.take(n as int)
                    == edge.key_view()))
                &&& r is Some ==> r->0 == 8 * n
            }),
    {
        let key = edge.key();
        let len = key.len();
        let read = self.read(len);
        proof {
            Le::lemma_eq(read, key);
            edge.lemma_wf_len();
            key.lemma_wf_len();
            read.lemma_wf_len();
        }
        if read == key {
            Some(len)
        } else {
            None
        }
    }

    /// Read as many bytes as `edge` holds; return them and whether they
    /// match the edge exactly.
    pub fn match_inexact(&mut self, edge: Le) -> (r: (Le, bool))
        requires
            edge.wf(),
        ensures
            ({
                let n = edge.key_len();
                let m = if n <= old(self)@.len() {
                    n
                } else {
                    old(self)@.len()
                };
                &&& final(self)@ == old(self)@.skip(m as int)
                &&& r.0.wf()
                &&& r.0.key_view() == old(self)@.take(m as int)
                &&& !r.0.value_flag()
                &&& !r.0.frozen_flag()
                &&& (r.1 <==> (n <= old(self)@.len() && old(self)@.take(n as int)
                    == edge.key_view()))
            }),
    {
        let key = edge.key();
        let len = key.len();
        let read = self.read(len);
        proof {
            Le::lemma_eq(read, key);
            edge.lemma_wf_len();
            key.lemma_wf_len();
            read.lemma_wf_len();
        }
        let exact = read == key;
        (read, exact)
    }

    /// Drop the last `len` bytes.
    pub fn trim(&mut self, len: Len)
        requires
            len@ <= old(self)@.len(),
        ensures
            final(self)@ == old(self)@.take(old(self)@.len() - len@),
    {
        let total = self.bytes.len();
        self.bytes = slice_subrange(self.bytes, 0, total - len.0);
    }

    /// The first `end` bytes.
    pub fn prefix(self, end: Len) -> (r: Reader<'k>)
        requires
            end@ <= self@.len(),
        ensures
            r@ == self@.take(end@ as int),
    {
        Reader { bytes: slice_subrange(self.bytes, 0, end.0) }
    }

    /// Everything after the first `start` bytes.
    pub fn suffix(self, start: Len) -> (r: Reader<'k>)
        requires
            start@ <= self@.len(),
        ensures
            r@ == self@.skip(start@ as int),
    {
        Reader { bytes: slice_subrange(self.bytes, start.0, self.bytes.len()) }
    }

    /// The longest common prefix of `self` and `other`.
    pub fn common_prefix(self, other: Reader<'k>) -> (r: Reader<'k>)
        ensures
            r@ == self@.take(common_len(self@, other@) as int),
    {
        let a = self.bytes;
        let b = other.bytes;
        let mut i: usize = 0;
        while i < a.len() && i < b.len() && a[i] == b[i]
            invariant
                i <= a@.len(),
                i <= b@.len(),
                forall|j: int| 0 <= j < i ==> a@[j] == b@[j],
            decreases a@.len() - i,
        {
            i += 1;
        }
        proof {
            lemma_common_len(a@, b@, i as nat);
        }
        Reader { bytes: slice_subrange(a, 0, i) }
    }
}

/// Accumulates the key of the entry an iterator is at.
pub struct Writer {
    bytes: Vec<u8>,
}

impl View for Writer {
    type V = Seq<u8>;

    closed spec fn view(&self) -> Seq<u8> {
        self.bytes@
    }
}

impl Writer {
    /// Start from `prefix` followed by the bytes of `key`.
    pub fn new(prefix: Reader, key: Le) -> (r: (Writer, Len))
        requires
            key.wf(),
        ensures
            r.0@ == prefix@ + key.key_view(),
            r.1@ == r.0@.len(),
    {
        let mut buffer: Vec<u8> = Vec::new();
        buffer.extend_from_slice(prefix.as_ref());
        let bytes = key.to_vec();
        let mut tail = bytes;
        buffer.append(&mut tail);
        let len = Len(buffer.len());
        proof {
            assert(buffer@ =~= prefix@ + key.key_view());
        }
        (Writer { bytes: buffer }, len)
    }

    /// Copy the bytes a reader has left.
    pub fn from_reader(reader: Reader) -> (r: Writer)
        ensures
            r@ == reader@,
    {
        let mut buffer: Vec<u8> = Vec::new();
        buffer.extend_from_slice(reader.as_ref());
        Writer { bytes: buffer }
    }

    /// Keep the first `start` bytes, then append `node` and the bytes of `edge`.
    pub fn replace(&mut self, start: Len, node: u8, edge: Le) -> (r: Len)
        requires
            start@ <= old(self)@.len(),
            edge.wf(),
        ensures
            final(self)@ == old(self)@.take(start@ as int).push(node) + edge.key_view(),
            r@ == final(self)@.len(),
    {
        self.bytes.truncate(start.0);
        self.bytes.push(node);
        let mut tail = edge.to_vec();
        self.bytes.append(&mut tail);
        Len(self.bytes.len())
    }

    pub fn as_slice(&self) -> (r: &[u8])
        ensures
            r@ == self@,
    {
        self.bytes.as_slice()
    }

    pub fn into_vec(self) -> (r: Vec<u8>)
        ensures
            r@ == self@,
    {
        self.bytes
    }
}

} // verus!
