//! Little-endian edge keys: up to seven key bytes packed into a word
//! together with the edge's flags.
//!
//! Byte `i < 7` of the word (least significant first) holds key byte `i`;
//! bytes past the key length are zero. The top byte is a tag: bit 0 marks an
//! edge that leads to a value, bit 1 a frozen edge, and bits 3..6 hold the
//! number of key bytes.
use vstd::prelude::*;
use vstd::bytes::u64_from_le_bytes;
use vstd::bytes::u64_to_le_bytes;
use crate::bytes::le8;
use crate::bytes::lemma_le8;
use crate::bytes::lemma_le8_from;
use crate::bytes::lemma_le8_top;

verus! {

/// Most key bytes a single edge holds.
pub const MAX_BYTES: usize = 7;

/// The tag byte for a key of `len` bytes with the given flags.
pub open spec fn tag(len: nat, value: bool, frozen: bool) -> u8 {
    ((len as u8) << 3u8) | (if value { 1u8 } else { 0u8 }) | (if frozen { 2u8 } else { 0u8 })
}

/// The eight bytes of a packed edge key.
pub open spec fn encode(key: Seq<u8>, value: bool, frozen: bool) -> Seq<u8> {
    Seq::new(
        8,
        |i: int|
            if i < 7 {
                if i < key.len() {
                    key[i]
                } else {
                    0u8
                }
            } else {
                tag(key.len(), value, frozen)
            },
    )
}

proof fn lemma_tag(n: u8, v: u8, f: u8)
    by (bit_vector)
    requires
        n < 8,
        v < 2,
        f == 0 || f == 2,
    ensures
        (((n << 3u8) | v | f) >> 3u8) & 7u8 == n,
        ((n << 3u8) | v | f) & 1u8 == v,
        ((n << 3u8) | v | f) & 2u8 == f,
{
}

proof fn lemma_field(t: u8)
    by (bit_vector)
    ensures
        (t >> 3u8) & 7u8 <= 7,
{
}

/// A packed little-endian edge key.
#[derive(Clone, Copy, PartialEq, Eq, Structural)]
pub struct Le {
    value: u64,
}

impl Le {
    /// Number of key bytes.
    pub closed spec fn key_len(self) -> nat {
        ((le8(self.value)[7] >> 3u8) & 7u8) as nat
    }

    /// The key bytes.
    pub closed spec fn key_view(self) -> Seq<u8> {
        le8(self.value).take(self.key_len() as int)
    }

    /// Whether the edge leads to a value.
    pub closed spec fn value_flag(self) -> bool {
        le8(self.value)[7] & 1u8 == 1u8
    }

    /// Whether the edge is frozen.
    pub closed spec fn frozen_flag(self) -> bool {
        le8(self.value)[7] & 2u8 == 2u8
    }

    /// The packed word.
    pub closed spec fn raw_view(self) -> u64 {
        self.value
    }

    /// The word is in canonical form: bytes past the key are zero and the tag
    /// has no stray bits.
    pub closed spec fn wf(self) -> bool {
        le8(self.value) == encode(self.key_view(), self.value_flag(), self.frozen_flag())
    }

    /// Two canonical keys are equal exactly when their views are.
    pub proof fn lemma_eq(a: Le, b: Le)
        requires
            a.wf(),
            b.wf(),
        ensures
            (a == b) <==> (a.key_view() == b.key_view() && a.value_flag() == b.value_flag()
                && a.frozen_flag() == b.frozen_flag()),
    {
        lemma_le8(a.value, b.value);
    }

    /// A key has at most seven bytes.
    pub proof fn lemma_wf_len(self)
        ensures
            self.key_len() <= 7,
            self.key_view().len() == self.key_len(),
    {
        lemma_le8(self.value, self.value);
        lemma_field(le8(self.value)[7]);
    }

    /// Pack `key` with the given flags.
    pub fn new(key: &[u8], value: bool, frozen: bool) -> (r: Le)
        requires
            key@.len() <= 7,
        ensures
            r.wf(),
            r.key_view() == key@,
            r.value_flag() == value,
            r.frozen_flag() == frozen,
    {
        let n = key.len();
        let mut buf: Vec<u8> = Vec::with_capacity(8);
        let mut i: usize = 0;
        while i < 7
            invariant
                n == key@.len(),
                n <= 7,
                i <= 7,
                buf@.len() == i,
                forall|j: int| 0 <= j < i ==> buf@[j] == (if j < n { key@[j] } else { 0u8 }),
            decreases 7 - i,
        {
            if i < n {
                buf.push(key[i]);
            } else {
                buf.push(0);
            }
            i += 1;
        }
        let v: u8 = if value { 1 } else { 0 };
        let f: u8 = if frozen { 2 } else { 0 };
        let t: u8 = ((n as u8) << 3u8) | v | f;
        buf.push(t);
        let raw = u64_from_le_bytes(buf.as_slice());
        let r = Le { value: raw };
        proof {
            lemma_le8_from(buf@);
            lemma_tag(n as u8, v, f);
            assert(r.key_len() == n);
            assert(r.key_view() =~= key@);
            assert(buf@ =~= encode(key@, value, frozen));
        }
        r
    }

    /// The empty key with no flags.
    pub fn empty() -> (r: Le)
        ensures
            r.wf(),
            r.key_view() == Seq::<u8>::empty(),
            !r.value_flag(),
            !r.frozen_flag(),
    {
        let e: [u8; 0] = [];
        Le::new(e.as_slice(), false, false)
    }

    /// The packed word.
    pub fn raw(self) -> (r: u64)
        ensures
            r == self.raw_view(),
    {
        self.value
    }

    fn tag_byte(self) -> (r: u8)
        ensures
            r == le8(self.value)[7],
    {
        proof {
            lemma_le8_top(self.value);
        }
        ((self.value >> 56u64) & 0xffu64) as u8
    }

    /// Length of the key in bits.
    pub fn len(self) -> (r: u8)
        ensures
            r == 8 * self.key_len(),
            r <= 56,
    {
        let t = self.tag_byte();
        proof {
            lemma_field(t);
        }
        (((t >> 3u8) & 7u8) * 8) as u8
    }

    /// Number of key bytes.
    pub fn bytes(self) -> (r: usize)
        ensures
            r == self.key_len(),
            r <= 7,
    {
        let t = self.tag_byte();
        proof {
            lemma_field(t);
        }
        ((t >> 3u8) & 7u8) as usize
    }

    pub fn is_value(self) -> (r: bool)
        ensures
            r == self.value_flag(),
    {
        self.tag_byte() & 1u8 == 1u8
    }

    pub fn is_frozen(self) -> (r: bool)
        ensures
            r == self.frozen_flag(),
    {
        self.tag_byte() & 2u8 == 2u8
    }

    /// The key bytes.
    pub fn to_vec(self) -> (r: Vec<u8>)
        requires
            self.wf(),
        ensures
            r@ == self.key_view(),
    {
        proof {
            self.lemma_wf_len();
        }
        let n = self.bytes();
        let mut all = u64_to_le_bytes(self.value);
        all.truncate(n);
        proof {
            assert(all@ =~= self.key_view());
        }
        all
    }

    /// The same key with the value flag set to `value`.
    pub fn with_value(self, value: bool) -> (r: Le)
        requires
            self.wf(),
        ensures
            r.wf(),
            r.key_view() == self.key_view(),
            r.value_flag() == value,
            r.frozen_flag() == self.frozen_flag(),
    {
        proof {
            self.lemma_wf_len();
        }
        let key = self.to_vec();
        Le::new(key.as_slice(), value, self.is_frozen())
    }

    /// The same key with the frozen flag set to `frozen`.
    pub fn with_frozen(self, frozen: bool) -> (r: Le)
        requires
            self.wf(),
        ensures
            r.wf(),
            r.key_view() == self.key_view(),
            r.value_flag() == self.value_flag(),
            r.frozen_flag() == frozen,
    {
        proof {
            self.lemma_wf_len();
        }
        let key = self.to_vec();
        Le::new(key.as_slice(), self.is_value(), frozen)
    }

    /// The key alone, with both flags cleared.
    pub fn key(self) -> (r: Le)
        requires
            self.wf(),
        ensures
            r.wf(),
            r.key_view() == self.key_view(),
            !r.value_flag(),
            !r.frozen_flag(),
    {
        proof {
            self.lemma_wf_len();
        }
        let key = self.to_vec();
        Le::new(key.as_slice(), false, false)
    }

    /// Merge a parent key, the byte of its node's only child and the child's
    /// key into one key, when they fit in one edge. The result keeps the
    /// child's value flag and is not frozen.
    pub fn compress(self, byte: u8, child: Le) -> (r: Option<Le>)
        requires
            self.wf(),
            child.wf(),
        ensures
            r is Some <==> self.key_len() + 1 + child.key_len() <= 7,
            r matches Some(m) ==> m.wf() && m.key_view() == self.key_view().push(byte)
                + child.key_view() && m.value_flag() == child.value_flag() && !m.frozen_flag(),
    {
        proof {
            self.lemma_wf_len();
            child.lemma_wf_len();
        }
        let parent = self.bytes();
        let len = child.bytes();
        if parent + 1 + len > MAX_BYTES {
            return None;
        }
        let mut key = self.to_vec();
        key.push(byte);
        let mut tail = child.to_vec();
        key.append(&mut tail);
        Some(Le::new(key.as_slice(), child.is_value(), false))
    }

    /// Split `self` where it first differs from `new`, a key no longer than
    /// it: into the common start, the byte of `self` after it, and the rest of
    /// `self` (which keeps the value flag). Fails when the keys are equal.
    pub fn expand(self, new: Le) -> (r: Result<(Le, u8, Le), ()>)
        requires
            self.wf(),
            new.wf(),
            new.key_len() <= self.key_len(),
        ensures
            r is Err <==> self.key_view() == new.key_view(),
            r matches Ok((start, middle, end)) ==> {
                let c = crate::bytes::common_len(self.key_view(), new.key_view());
                &&& c < self.key_len()
                &&& start.wf() && end.wf()
                &&& start.key_view() == self.key_view().take(c as int)
                &&& middle == self.key_view()[c as int]
                &&& end.key_view() == self.key_view().skip((c + 1) as int)
                &&& !start.value_flag() && !start.frozen_flag()
                &&& end.value_flag() == self.value_flag() && !end.frozen_flag()
            },
    {
        proof {
            self.lemma_wf_len();
            new.lemma_wf_len();
        }
        let a = self.to_vec();
        let b = new.to_vec();
        let mut c: usize = 0;
        while c < a.len() && c < b.len() && a[c] == b[c]
            invariant
                c <= a@.len(),
                c <= b@.len(),
                forall|j: int| 0 <= j < c ==> a@[j] == b@[j],
            decreases a@.len() - c,
        {
            c += 1;
        }
        proof {
            crate::bytes::lemma_common_len(a@, b@, c as nat);
        }
        if c == a.len() {
            assert(a@ =~= b@);
            return Err(());
        }
        assert(a@ != b@) by {
            if a@ == b@ {
                assert(a@[c as int] == b@[c as int]);
            }
        }
        let start = Le::new(vstd::slice::slice_subrange(a.as_slice(), 0, c), false, false);
        let middle = a[c];
        let end = Le::new(
            vstd::slice::slice_subrange(a.as_slice(), c + 1, a.len()),
            self.is_value(),
            false,
        );
        Ok((start, middle, end))
    }

    /// Splitting a key with `expand` and joining the parts again, as
    /// `compress` does, gives the key back; the parts always fit in one
    /// edge.
    pub proof fn lemma_expand_then_compress(old: Le, start: Le, middle: u8, end: Le, c: nat)
        requires
            old.wf(),
            c < old.key_len(),
            start.key_view() == old.key_view().take(c as int),
            middle == old.key_view()[c as int],
            end.key_view() == old.key_view().skip((c + 1) as int),
        ensures
            start.key_view().push(middle) + end.key_view() == old.key_view(),
            start.key_view().len() + 1 + end.key_view().len() <= 7,
    {
        old.lemma_wf_len();
        assert(start.key_view().push(middle) + end.key_view() =~= old.key_view());
    }

    /// Replace the key bytes of `self` by those of `key`, keeping the flags.
    pub fn with_key(self, key: Le) -> (r: Le)
        requires
            self.wf(),
            key.wf(),
        ensures
            r.wf(),
            r.key_view() == key.key_view(),
            r.value_flag() == self.value_flag(),
            r.frozen_flag() == self.frozen_flag(),
    {
        proof {
            key.lemma_wf_len();
        }
        let bytes = key.to_vec();
        Le::new(bytes.as_slice(), self.is_value(), self.is_frozen())
    }
}

} // verus!
