//! Byte-string keys: long keys are read from the slice, and once at most
//! eight bytes are left they are packed into a fixed-width reader.
use vstd::prelude::*;
use vstd::slice::slice_subrange;
use crate::bytes::common_len;
use crate::bytes::lemma_common_len;
use crate::raw::edge::be::Be;
use crate::raw::key::integer::from_be_bytes;
use crate::sequential::key::fixed;

verus! {

/// A position in a byte-string key.
#[derive(Clone, Copy)]
pub enum Reader<'k> {
    /// More than eight bytes left.
    Large(&'k [u8]),
    /// At most eight bytes left.
    Small(fixed::Reader),
}

impl<'k> View for Reader<'k> {
    type V = Seq<u8>;

    open spec fn view(&self) -> Seq<u8> {
        match self {
            Reader::Large(large) => large@,
            Reader::Small(small) => small@,
        }
    }
}

/// The fixed-width reader over `bytes`, at most eight of them.
fn small(bytes: &[u8]) -> (r: fixed::Reader)
    requires
        bytes@.len() <= 8,
    ensures
        r.wf(),
        r@ == bytes@,
{
    let n = bytes.len();
    let mut buffer: Vec<u8> = Vec::new();
    let mut i: usize = 0;
    while i < 8
        invariant
            n == bytes@.len(),
            n <= 8,
            i <= 8,
            buffer@.len() == i,
            forall|j: int| 0 <= j < i ==> buffer@[j] == (if j < n { bytes@[j] } else { 0u8 }),
        decreases 8 - i,
    {
        if i < n {
            buffer.push(bytes[i]);
        } else {
            buffer.push(0);
        }
        i += 1;
    }
    let word = from_be_bytes(buffer.as_slice());
    let r = fixed::Reader::new_masked(word, (n * 8) as u8);
    proof {
        assert(r@ =~= bytes@);
    }
    r
}

impl<'k> Reader<'k> {
    pub open spec fn wf(&self) -> bool {
        match self {
            Reader::Large(large) => large@.len() > 8,
            Reader::Small(small) => small.wf(),
        }
    }

    /// A reader over all of `key`.
    pub fn from_slice(key: &'k [u8]) -> (r: Reader<'k>)
        ensures
            r.wf(),
            r@ == key@,
    {
        if key.len() > 8 {
            Reader::Large(key)
        } else {
            Reader::Small(small(key))
        }
    }

    /// Number of bits left.
    pub fn bits(&self) -> (r: usize)
        requires
            self.wf(),
            self@.len() * 8 <= usize::MAX,
        ensures
            r == self@.len() * 8,
    {
        match self {
            Reader::Large(large) => large.len() * 8,
            Reader::Small(small) => small.bits(),
        }
    }

    /// Number of bytes left.
    pub fn bytes(&self) -> (r: usize)
        requires
            self.wf(),
        ensures
            r == self@.len(),
    {
        match self {
            Reader::Large(large) => large.len(),
            Reader::Small(small) => small.bytes(),
        }
    }

    /// The next `len` bits as a key, without moving.
    pub fn peek(&self, len: u8) -> (r: Be)
        requires
            self.wf(),
            len % 8 == 0,
            len <= 56,
            len / 8 <= self@.len(),
        ensures
            r.wf(),
            r.key_view() == self@.take((len / 8) as int),
    {
        match self {
            Reader::Large(large) => {
                let n = (len / 8) as usize;
                let r = Be::new(slice_subrange(large, 0, n), false, false);
                proof {
                    assert(large@.subrange(0, n as int) =~= large@.take(n as int));
                }
                r
            },
            Reader::Small(small) => small.peek(len),
        }
    }

    /// The next `len` bits as a key.
    pub fn take(&mut self, len: u8) -> (r: Be)
        requires
            old(self).wf(),
            len % 8 == 0,
            len <= 56,
            len / 8 <= old(self)@.len(),
        ensures
            final(self).wf(),
            r.wf(),
            r.key_view() == old(self)@.take((len / 8) as int),
            final(self)@ == old(self)@.skip((len / 8) as int),
    {
        let array = self.peek(len);
        self.seek(len as usize);
        array
    }

    /// Take the next byte.
    pub fn next(&mut self) -> (r: Option<u8>)
        requires
            old(self).wf(),
        ensures
            final(self).wf(),
            old(self)@.len() == 0 ==> r.is_none() && final(self)@ == old(self)@,
            old(self)@.len() > 0 ==> r == Some(old(self)@[0]) && final(self)@ == old(self)@.skip(1),
    {
        match self {
            Reader::Large(large) => {
                let byte = large[0];
                let rest = slice_subrange(large, 1, large.len());
                proof {
                    assert(rest@ =~= large@.skip(1));
                }
                *self = Reader::from_slice(rest);
                Some(byte)
            },
            Reader::Small(small) => small.next(),
        }
    }

    /// Skip the next `bits` bits.
    pub fn seek(&mut self, bits: usize)
        requires
            old(self).wf(),
            bits % 8 == 0,
            bits / 8 <= old(self)@.len(),
        ensures
            final(self).wf(),
            final(self)@ == old(self)@.skip((bits / 8) as int),
    {
        match self {
            Reader::Large(large) => {
                let rest = slice_subrange(large, bits / 8, large.len());
                proof {
                    assert(rest@ =~= large@.skip((bits / 8) as int));
                }
                *self = Reader::from_slice(rest);
            },
            Reader::Small(small) => small.seek(bits),
        }
    }

    /// The first eight bytes, or all that are left.
    pub fn to_small(self) -> (r: fixed::Reader)
        requires
            self.wf(),
        ensures
            r.wf(),
            r@ == (if self@.len() <= 8 {
                self@
            } else {
                self@.take(8)
            }),
    {
        match self {
            Reader::Large(large) => {
                let head = slice_subrange(large, 0, 8);
                proof {
                    assert(head@ =~= large@.take(8));
                }
                small(head)
            },
            Reader::Small(small) => {
                proof {
                    small.lemma_len();
                }
                small
            },
        }
    }

    /// The longest common prefix of `self` and `other`.
    pub fn prefix(&self, other: &Reader<'k>) -> (r: Reader<'k>)
        requires
            self.wf(),
            other.wf(),
        ensures
            r.wf(),
            r@ == self@.take(common_len(self@, other@) as int),
    {
        match (self, other) {
            (Reader::Large(left), Reader::Large(right)) => {
                let mut i: usize = 0;
                while i < left.len() && i < right.len() && left[i] == right[i]
                    invariant
                        i <= left@.len(),
                        i <= right@.len(),
                        forall|j: int| 0 <= j < i ==> left@[j] == right@[j],
                    decreases left@.len() - i,
                {
                    i += 1;
                }
                proof {
                    lemma_common_len(left@, right@, i as nat);
                }
                let common = slice_subrange(left, 0, i);
                proof {
                    assert(common@ =~= left@.take(i as int));
                }
                Reader::from_slice(common)
            },
            _ => {
                let l = self.to_small();
                let r = other.to_small();
                let p = l.prefix(&r);
                proof {
                    if let Reader::Small(s) = self {
                        s.lemma_len();
                    }
                    if let Reader::Small(o) = other {
                        o.lemma_len();
                    }
                    assert(self@.len() <= 8 || other@.len() <= 8);
                    let c = common_len(l@, r@);
                    crate::bytes::lemma_common_len_props(l@, r@);
                    crate::bytes::lemma_common_len_props(self@, other@);
                    // One side has at most eight bytes, so the common prefix
                    // lies within the first eight of each.
                    assert forall|j: int| 0 <= j < c implies self@[j] == other@[j] by {
                        assert(l@[j] == self@[j]);
                        assert(r@[j] == other@[j]);
                    }
                    if c < l@.len() && c < r@.len() {
                        assert(l@[c as int] == self@[c as int]);
                        assert(r@[c as int] == other@[c as int]);
                    }
                    lemma_common_len(self@, other@, c);
                    assert(p@ =~= self@.take(c as int));
                }
                Reader::Small(p)
            },
        }
    }

    /// The first `bits` bits.
    pub fn slice(&self, bits: usize) -> (r: Reader<'k>)
        requires
            self.wf(),
            bits % 8 == 0,
            bits / 8 <= self@.len(),
        ensures
            r.wf(),
            r@ == self@.take((bits / 8) as int),
    {
        match self {
            Reader::Large(large) => {
                let head = slice_subrange(large, 0, bits / 8);
                proof {
                    assert(head@ =~= large@.take((bits / 8) as int));
                }
                Reader::from_slice(head)
            },
            Reader::Small(small) => Reader::Small(small.slice(bits)),
        }
    }
}

/// A byte-string key being rebuilt.
pub struct Writer {
    bytes: Vec<u8>,
}

impl View for Writer {
    type V = Seq<u8>;

    closed spec fn view(&self) -> Seq<u8> {
        self.bytes@
    }
}

impl Writer {
    /// The empty key.
    pub fn new() -> (r: Writer)
        ensures
            r@ == Seq::<u8>::empty(),
    {
        Writer { bytes: Vec::new() }
    }

    /// What `reader` has left.
    pub fn from_reader(reader: Reader) -> (r: Writer)
        requires
            reader.wf(),
        ensures
            r@ == reader@,
    {
        let mut bytes: Vec<u8> = Vec::new();
        let mut copy = reader;
        let n = copy.bytes();
        let mut i: usize = 0;
        while i < n
            invariant
                copy.wf(),
                n == reader@.len(),
                i <= n,
                bytes@ == reader@.take(i as int),
                copy@ == reader@.skip(i as int),
            decreases n - i,
        {
            let byte = copy.next();
            match byte {
                Some(b) => bytes.push(b),
                None => {},
            }
            i += 1;
            proof {
                assert(bytes@ =~= reader@.take(i as int));
                assert(copy@ =~= reader@.skip(i as int));
            }
        }
        proof {
            assert(bytes@ =~= reader@);
        }
        Writer { bytes }
    }

    /// Append the bytes of `array`; `bits` is the current length in bits.
    pub fn extend(&mut self, bits: usize, array: Be)
        requires
            bits == old(self)@.len() * 8,
            array.wf(),
        ensures
            final(self)@ == old(self)@ + array.key_view(),
    {
        let mut tail = array.to_vec();
        self.bytes.append(&mut tail);
    }

    /// Append `byte`; `bits` is the current length in bits.
    pub fn push(&mut self, bits: usize, byte: u8)
        requires
            bits == old(self)@.len() * 8,
        ensures
            final(self)@ == old(self)@.push(byte),
    {
        self.bytes.push(byte);
    }

    /// Keep the first `bits` bits.
    pub fn truncate(&mut self, bits: usize)
        ensures
            bits / 8 <= old(self)@.len() ==> final(self)@ == old(self)@.take((bits / 8) as int),
            bits / 8 > old(self)@.len() ==> final(self)@ == old(self)@,
    {
        self.bytes.truncate(bits / 8);
    }

    pub fn as_slice(&self) -> (r: &[u8])
        ensures
            r@ == self@,
    {
        self.bytes.as_slice()
    }

    pub fn into_vec(self) -> (r: Vec<u8>)
        ensures
            r@ == self@,
    {
        self.bytes
    }
}

} // verus!
