//! Big-endian edge keys, for fixed-width integer keys: up to seven key bytes
//! in the high bytes of a word, most significant first, so that words
//! compare like the keys they hold.
//!
//! The low byte is a tag: bits 0..5 hold the key length in bits (a
//! multiple of eight), bit 6 marks an edge that leads to a value and bit 7 a
//! frozen edge. Bytes between the key and the tag are zero.
use vstd::prelude::*;
use vstd::bytes::u64_from_le_bytes;
use vstd::bytes::u64_to_le_bytes;
use crate::bytes::be8;
use crate::bytes::common_len;
use crate::bytes::le8;
use crate::bytes::lemma_common_len;
use crate::bytes::lemma_le8;
use crate::bytes::lemma_le8_from;
use crate::bytes::lemma_le8_top;

verus! {

/// The tag byte for a key of `len` bytes with the given flags.
pub open spec fn be_tag(len: nat, value: bool, frozen: bool) -> u8 {
    ((len as u8) << 3u8) | (if value { 64u8 } else { 0u8 }) | (if frozen { 128u8 } else { 0u8 })
}

/// The eight bytes, most significant first, of a packed big-endian key.
pub open spec fn be_encode(key: Seq<u8>, value: bool, frozen: bool) -> Seq<u8> {
    Seq::new(
        8,
        |i: int|
            if i < 7 {
                if i < key.len() {
                    key[i]
                } else {
                    0u8
                }
            } else {
                be_tag(key.len(), value, frozen)
            },
    )
}

proof fn lemma_be_tag(n: u8, v: u8, f: u8)
    by (bit_vector)
    requires
        n < 8,
        v == 0 || v == 64,
        f == 0 || f == 128,
    ensures
        (((n << 3u8) | v | f) & 63u8) / 8 == n,
        ((n << 3u8) | v | f) & 64u8 == v,
        ((n << 3u8) | v | f) & 128u8 == f,
{
}

proof fn lemma_be_field(t: u8)
    by (bit_vector)
    ensures
        (t & 63u8) / 8 <= 7,
{
}

/// A packed big-endian edge key.
#[derive(Clone, Copy, PartialEq, Eq, Structural)]
pub struct Be {
    value: u64,
}

impl Be {
    /// Number of key bytes.
    pub closed spec fn key_len(self) -> nat {
        ((le8(self.value)[0] & 63u8) / 8) as nat
    }

    /// The key bytes.
    pub closed spec fn key_view(self) -> Seq<u8> {
        be8(self.value).take(self.key_len() as int)
    }

    /// Whether the edge leads to a value.
    pub closed spec fn value_flag(self) -> bool {
        le8(self.value)[0] & 64u8 == 64u8
    }

    /// Whether the edge is frozen.
    pub closed spec fn frozen_flag(self) -> bool {
        le8(self.value)[0] & 128u8 == 128u8
    }

    /// The packed word.
    pub closed spec fn raw_view(self) -> u64 {
        self.value
    }

    /// The word is in canonical form: bytes past the key are zero, the length
    /// is a whole number of bytes and at most seven.
    pub closed spec fn wf(self) -> bool {
        be8(self.value) == be_encode(self.key_view(), self.value_flag(), self.frozen_flag())
    }

    /// Two canonical keys are equal exactly when their views are.
    pub proof fn lemma_eq(a: Be, b: Be)
        requires
            a.wf(),
            b.wf(),
        ensures
            (a == b) <==> (a.key_view() == b.key_view() && a.value_flag() == b.value_flag()
                && a.frozen_flag() == b.frozen_flag()),
    {
        lemma_le8(a.value, b.value);
        if a.key_view() == b.key_view() && a.value_flag() == b.value_flag() && a.frozen_flag()
            == b.frozen_flag() {
            assert(be8(a.value) == be8(b.value));
            assert(le8(a.value) =~= be8(a.value).reverse());
            assert(le8(b.value) =~= be8(b.value).reverse());
        }
    }

    /// A key has at most seven bytes.
    pub proof fn lemma_wf_len(self)
        ensures
            self.key_len() <= 7,
            self.key_view().len() == self.key_len(),
    {
        lemma_le8(self.value, self.value);
        lemma_be_field(le8(self.value)[0]);
    }

    /// Pack `key` with the given flags.
    pub fn new(key: &[u8], value: bool, frozen: bool) -> (r: Be)
        requires
            key@.len() <= 7,
        ensures
            r.wf(),
            r.key_view() == key@,
            r.value_flag() == value,
            r.frozen_flag() == frozen,
    {
        let n = key.len();
        let v: u8 = if value { 64 } else { 0 };
        let f: u8 = if frozen { 128 } else { 0 };
        let t: u8 = ((n as u8) << 3u8) | v | f;
        let mut buf: Vec<u8> = Vec::with_capacity(8);
        buf.push(t);
        let mut i: usize = 1;
        while i < 8
            invariant
                n == key@.len(),
                n <= 7,
                1 <= i <= 8,
                buf@.len() == i,
                buf@[0] == t,
                forall|j: int|
                    1 <= j < i ==> buf@[j] == (if 7 - j < n {
                        key@[7 - j]
                    } else {
                        0u8
                    }),
            decreases 8 - i,
        {
            if 7 - i < n {
                buf.push(key[7 - i]);
            } else {
                buf.push(0);
            }
            i += 1;
        }
        let raw = u64_from_le_bytes(buf.as_slice());
        let r = Be { value: raw };
        proof {
            lemma_le8_from(buf@);
            lemma_be_tag(n as u8, v, f);
            assert(r.key_len() == n);
            assert(r.key_view() =~= key@);
            assert(be8(raw) =~= be_encode(key@, value, frozen));
        }
        r
    }

    /// The first `len` bits of `word`, most significant first, as a key
    /// without flags.
    pub fn key_from_u64_truncate(word: u64, len: u8) -> (r: Be)
        requires
            len % 8 == 0,
            len <= 56,
        ensures
            r.wf(),
            r.key_view() == be8(word).take((len / 8) as int),
            !r.value_flag(),
            !r.frozen_flag(),
    {
        let n = (len / 8) as usize;
        let bytes = u64_to_le_bytes(word);
        let mut key: Vec<u8> = Vec::new();
        let mut i: usize = 0;
        proof {
            lemma_le8(word, word);
        }
        while i < n
            invariant
                n <= 7,
                bytes@ == le8(word),
                bytes@.len() == 8,
                i <= n,
                key@ == be8(word).take(i as int),
            decreases n - i,
        {
            key.push(bytes[7 - i]);
            i += 1;
            proof {
                assert(be8(word)[i - 1] == le8(word)[8 - i]);
                assert(key@ =~= be8(word).take(i as int));
            }
        }
        Be::new(key.as_slice(), false, false)
    }

    /// The smaller of a length in bits and a number of bits available.
    pub fn min_len(len: u8, bits: usize) -> (r: u8)
        ensures
            r == (if (len as nat) <= bits {
                len as nat
            } else {
                bits as nat
            }),
    {
        if (len as usize) <= bits {
            len
        } else {
            bits as u8
        }
    }

    /// The empty key with no flags.
    pub fn empty() -> (r: Be)
        ensures
            r.wf(),
            r.key_view() == Seq::<u8>::empty(),
            !r.value_flag(),
            !r.frozen_flag(),
    {
        let e: [u8; 0] = [];
        Be::new(e.as_slice(), false, false)
    }

    /// The packed word.
    pub fn raw(self) -> (r: u64)
        ensures
            r == self.raw_view(),
    {
        self.value
    }

    fn tag_byte(self) -> (r: u8)
        ensures
            r == le8(self.value)[0],
    {
        proof {
            lemma_le8_top(self.value);
        }
        (self.value & 0xffu64) as u8
    }

    /// Length of the key in bits.
    pub fn len(self) -> (r: u8)
        ensures
            r == 8 * self.key_len(),
            r <= 56,
    {
        let t = self.tag_byte();
        proof {
            lemma_be_field(t);
        }
        ((t & 63u8) / 8) * 8
    }

    /// Number of key bytes.
    pub fn bytes(self) -> (r: usize)
        ensures
            r == self.key_len(),
            r <= 7,
    {
        let t = self.tag_byte();
        proof {
            lemma_be_field(t);
        }
        ((t & 63u8) / 8) as usize
    }

    pub fn is_value(self) -> (r: bool)
        ensures
            r == self.value_flag(),
    {
        self.tag_byte() & 64u8 == 64u8
    }

    pub fn is_frozen(self) -> (r: bool)
        ensures
            r == self.frozen_flag(),
    {
        self.tag_byte() & 128u8 == 128u8
    }

    /// The key bytes.
    pub fn to_vec(self) -> (r: Vec<u8>)
        requires
            self.wf(),
        ensures
            r@ == self.key_view(),
    {
        proof {
            self.lemma_wf_len();
            lemma_le8(self.value, self.value);
        }
        let n = self.bytes();
        let bytes = u64_to_le_bytes(self.value);
        let mut key: Vec<u8> = Vec::new();
        let mut i: usize = 0;
        while i < n
            invariant
                n == self.key_len(),
                n <= 7,
                bytes@ == le8(self.value),
                bytes@.len() == 8,
                i <= n,
                key@ == be8(self.value).take(i as int),
            decreases n - i,
        {
            key.push(bytes[7 - i]);
            i += 1;
            proof {
                assert(be8(self.value)[i - 1] == le8(self.value)[8 - i]);
                assert(key@ =~= be8(self.value).take(i as int));
            }
        }
        key
    }

    /// The same key with the value flag set to `value`.
    pub fn with_value(self, value: bool) -> (r: Be)
        requires
            self.wf(),
        ensures
            r.wf(),
            r.key_view() == self.key_view(),
            r.value_flag() == value,
            r.frozen_flag() == self.frozen_flag(),
    {
        proof {
            self.lemma_wf_len();
        }
        let key = self.to_vec();
        Be::new(key.as_slice(), value, self.is_frozen())
    }

    /// The same key with the frozen flag set to `frozen`.
    pub fn with_frozen(self, frozen: bool) -> (r: Be)
        requires
            self.wf(),
        ensures
            r.wf(),
            r.key_view() == self.key_view(),
            r.value_flag() == self.value_flag(),
            r.frozen_flag() == frozen,
    {
        proof {
            self.lemma_wf_len();
        }
        let key = self.to_vec();
        Be::new(key.as_slice(), self.is_value(), frozen)
    }

    /// The key alone, with both flags cleared.
    pub fn key(self) -> (r: Be)
        requires
            self.wf(),
        ensures
            r.wf(),
            r.key_view() == self.key_view(),
            !r.value_flag(),
            !r.frozen_flag(),
    {
        proof {
            self.lemma_wf_len();
        }
        let key = self.to_vec();
        Be::new(key.as_slice(), false, false)
    }

    /// Split `self` where it first differs from `new`, a key no longer than
    /// it: into the common start, the byte of `self` after it, and the rest of
    /// `self` (which keeps the value flag). Fails when the keys are equal.
    pub fn expand(self, new: Be) -> (r: Result<(Be, u8, Be), ()>)
        requires
            self.wf(),
            new.wf(),
            new.key_len() <= self.key_len(),
        ensures
            r is Err <==> self.key_view() == new.key_view(),
            r matches Ok((start, middle, end)) ==> {
                let c = common_len(self.key_view(), new.key_view());
                &&& c < self.key_len()
                &&& start.wf() && end.wf()
                &&& start.key_view() == self.key_view().take(c as int)
                &&& middle == self.key_view()[c as int]
                &&& end.key_view() == self.key_view().skip((c + 1) as int)
                &&& !start.value_flag() && !start.frozen_flag()
                &&& end.value_flag() == self.value_flag() && !end.frozen_flag()
            },
    {
        proof {
            self.lemma_wf_len();
            new.lemma_wf_len();
        }
        let a = self.to_vec();
        let b = new.to_vec();
        let mut c: usize = 0;
        while c < a.len() && c < b.len() && a[c] == b[c]
            invariant
                c <= a@.len(),
                c <= b@.len(),
                forall|j: int| 0 <= j < c ==> a@[j] == b@[j],
            decreases a@.len() - c,
        {
            c += 1;
        }
        proof {
            lemma_common_len(a@, b@, c as nat);
        }
        if c == a.len() {
            assert(a@ =~= b@);
            return Err(());
        }
        assert(a@ != b@) by {
            if a@ == b@ {
                assert(a@[c as int] == b@[c as int]);
            }
        }
        let start = Be::new(vstd::slice::slice_subrange(a.as_slice(), 0, c), false, false);
        let middle = a[c];
        let end = Be::new(
            vstd::slice::slice_subrange(a.as_slice(), c + 1, a.len()),
            self.is_value(),
            false,
        );
        Ok((start, middle, end))
    }
}

} // verus!
