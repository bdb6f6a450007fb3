//! The header of a node with room for fifteen children: fifteen key bytes,
//! the number of keys and a frozen flag packed into 128 bits.
//!
//! Bytes 0..15 (least significant first) hold the keys in insertion order;
//! keys past the length are zero. Byte 15 holds the length in bits 0..4 and
//! the frozen flag in bit 4.
use vstd::prelude::*;
use vstd::bytes::spec_u128_to_le_bytes;
use vstd::bytes::u128_from_le_bytes;
use vstd::bytes::u128_to_le_bytes;
use vstd::bytes::lemma_auto_spec_u128_to_from_le_bytes;
use crate::bytes::first_index;
use crate::bytes::lemma_first_index;
use crate::bytes::lemma_first_index_at;
use crate::bytes::lemma_first_index_none;
use crate::bytes::lemma_first_index_take;
use crate::bytes::lemma_len_tag;
use crate::raw::node::simd::mask_byte_to_bit;
use crate::raw::node::simd::mask_eq;
use crate::raw::node::simd::mask_of;

verus! {

/// The sixteen bytes of `x`, least significant first.
pub open spec fn le16(x: u128) -> Seq<u8> {
    spec_u128_to_le_bytes(x)
}

/// Index of the first byte of `array` equal to `key`, read off the lane
/// mask of the bytes equal to it; 32 when there is none.
pub fn get_simd(array: u128, key: u8) -> (r: u8)
    ensures
        r == (match first_index(le16(array), key) {
            Some(i) => i as u8,
            None => 32u8,
        }),
{
    let m = mask_eq(array, key);
    let bits = mask_byte_to_bit(m);
    proof {
        lemma_auto_spec_u128_to_from_le_bytes();
        assert forall|i: u16| i < 16 implies (((bits >> i) & 1 == 1) <==> le16(array)[i as int] == key) by {
            assert(le16(m)[i as int] == mask_of(Seq::new(16, |j: int| le16(array)[j] == key))[i as int]);
        }
    }
    let mut i: u16 = 0;
    while i < 16 && (bits >> i) & 1 == 0
        invariant
            i <= 16,
            le16(array).len() == 16,
            forall|k: u16| k < 16 ==> (((bits >> k) & 1 == 1) <==> le16(array)[k as int] == key),
            forall|j: int| 0 <= j < i ==> le16(array)[j] != key,
        decreases 16 - i,
    {
        proof {
            assert(le16(array)[i as int] != key);
        }
        i += 1;
    }
    if i == 16 {
        proof {
            lemma_first_index_none(le16(array), key);
        }
        32
    } else {
        proof {
            assert((bits >> i) & 1 == 1) by (bit_vector)
                requires
                    (bits >> i) & 1 != 0,
            ;
            lemma_first_index_at(le16(array), key, i as nat);
        }
        i as u8
    }
}

/// Index of the first byte of `array` equal to `key`, or `u8::MAX`.
pub fn get_naive(array: u128, key: u8) -> (r: u8)
    ensures
        r == (match first_index(le16(array), key) {
            Some(i) => i as u8,
            None => 255u8,
        }),
{
    proof {
        lemma_auto_spec_u128_to_from_le_bytes();
    }
    let bytes = u128_to_le_bytes(array);
    let mut i: usize = 0;
    while i < 16
        invariant
            bytes@ == le16(array),
            bytes@.len() == 16,
            i <= 16,
            forall|j: int| 0 <= j < i ==> le16(array)[j] != key,
        decreases 16 - i,
    {
        if bytes[i] == key {
            proof {
                lemma_first_index_at(le16(array), key, i as nat);
            }
            return i as u8;
        }
        i += 1;
    }
    proof {
        lemma_first_index_none(le16(array), key);
    }
    255
}

/// The header word.
#[derive(Clone, Copy)]
pub struct Header {
    value: u128,
}

impl Header {
    pub closed spec fn bytes(self) -> Seq<u8> {
        le16(self.value)
    }

    /// Number of keys.
    pub closed spec fn len_view(self) -> nat {
        (self.bytes()[15] & 15u8) as nat
    }

    pub closed spec fn frozen_view(self) -> bool {
        self.bytes()[15] & 16u8 == 16u8
    }

    /// The keys, in insertion order.
    pub closed spec fn keys_view(self) -> Seq<u8> {
        self.bytes().take(self.len_view() as int)
    }

    pub closed spec fn wf(self) -> bool {
        &&& self.len_view() <= 15
        &&& forall|i: int| self.len_view() <= i < 15 ==> self.bytes()[i] == 0u8
        &&& self.bytes()[15] == ((self.len_view() as u8) | (if self.frozen_view() {
            16u8
        } else {
            0u8
        }))
    }

    pub proof fn lemma_wf(self)
        requires
            self.wf(),
        ensures
            self.keys_view().len() == self.len_view(),
            self.len_view() <= 15,
    {
        lemma_auto_spec_u128_to_from_le_bytes();
    }

    fn from_bytes(bytes: &Vec<u8>) -> (r: Header)
        requires
            bytes@.len() == 16,
        ensures
            r.bytes() == bytes@,
    {
        proof {
            lemma_auto_spec_u128_to_from_le_bytes();
        }
        Header { value: u128_from_le_bytes(bytes.as_slice()) }
    }

    fn to_bytes(self) -> (r: Vec<u8>)
        ensures
            r@ == self.bytes(),
            r@.len() == 16,
    {
        proof {
            lemma_auto_spec_u128_to_from_le_bytes();
        }
        u128_to_le_bytes(self.value)
    }

    /// A header holding `keys`, not frozen.
    pub fn new(keys: &[u8]) -> (r: Header)
        requires
            keys@.len() <= 15,
        ensures
            r.wf(),
            r.keys_view() == keys@,
            !r.frozen_view(),
    {
        let n = keys.len();
        let mut buf: Vec<u8> = Vec::with_capacity(16);
        let mut i: usize = 0;
        while i < 15
            invariant
                n == keys@.len(),
                n <= 15,
                i <= 15,
                buf@.len() == i,
                forall|j: int| 0 <= j < i ==> buf@[j] == (if j < n { keys@[j] } else { 0u8 }),
            decreases 15 - i,
        {
            if i < n {
                buf.push(keys[i]);
            } else {
                buf.push(0);
            }
            i += 1;
        }
        buf.push(n as u8);
        let r = Header::from_bytes(&buf);
        proof {
            lemma_len_tag(n as u8);
            assert(r.keys_view() =~= keys@);
        }
        r
    }

    pub fn len(self) -> (r: u8)
        ensures
            r == self.len_view(),
    {
        let bytes = self.to_bytes();
        bytes[15] & 15u8
    }

    pub fn is_frozen(self) -> (r: bool)
        ensures
            r == self.frozen_view(),
    {
        let bytes = self.to_bytes();
        bytes[15] & 16u8 == 16u8
    }

    /// The same header, frozen.
    pub fn freeze(self) -> (r: Header)
        requires
            self.wf(),
        ensures
            r.wf(),
            r.keys_view() == self.keys_view(),
            r.frozen_view(),
    {
        let mut bytes = self.to_bytes();
        let n = bytes[15] & 15u8;
        bytes.set(15, n | 16u8);
        proof {
            lemma_len_tag(n);
        }
        let r = Header::from_bytes(&bytes);
        assert(r.keys_view() =~= self.keys_view());
        r
    }

    /// Index of `key` among the keys.
    pub fn get(self, key: u8) -> (r: Option<u8>)
        requires
            self.wf(),
        ensures
            r == (match first_index(self.keys_view(), key) {
                Some(i) => Some(i as u8),
                None => None::<u8>,
            }),
    {
        proof {
            lemma_auto_spec_u128_to_from_le_bytes();
        }
        let index = get_naive(self.value, key);
        proof {
            lemma_first_index_take(self.bytes(), key, self.len_view());
            lemma_first_index(self.bytes(), key);
        }
        if index < self.len() {
            Some(index)
        } else {
            None
        }
    }

    /// The index of `key`, or else the header with `key` added, or else
    /// nothing when the header is full or frozen.
    pub fn get_or_insert(self, key: u8) -> (r: Result<u8, Option<Header>>)
        requires
            self.wf(),
        ensures
            match first_index(self.keys_view(), key) {
                Some(i) => r == Ok::<u8, Option<Header>>(i as u8),
                None => if self.len_view() >= 15 || self.frozen_view() {
                    r == Err::<u8, Option<Header>>(None)
                } else {
                    r matches Err(Some(h)) && h.wf() && h.keys_view() == self.keys_view().push(key)
                        && !h.frozen_view()
                },
            },
    {
        if let Some(index) = self.get(key) {
            return Ok(index);
        }
        let len = self.len();
        if len >= 15 || self.is_frozen() {
            return Err(None);
        }
        let mut bytes = self.to_bytes();
        bytes.set(len as usize, key);
        bytes.set(15, len + 1);
        let h = Header::from_bytes(&bytes);
        proof {
            lemma_len_tag((len + 1) as u8);
            assert(h.keys_view() =~= self.keys_view().push(key));
        }
        Err(Some(h))
    }
}

} // verus!
