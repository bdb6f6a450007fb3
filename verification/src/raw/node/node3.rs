//! The header of a node with room for three children: three key bytes, the
//! number of keys and a frozen flag packed into 32 bits.
//!
//! Bytes 0..3 (least significant first) hold the keys in insertion order;
//! keys past the length are zero. Byte 3 holds the length in bits 0..4 and
//! the frozen flag in bit 4.
use vstd::prelude::*;
use vstd::std_specs::bits::u32_trailing_ones;
use vstd::std_specs::bits::axiom_u32_trailing_ones;
use crate::bytes::first_index;
use crate::bytes::lemma_first_index;
use crate::bytes::lemma_first_index_at;
use crate::bytes::lemma_first_index_none;
use crate::bytes::lemma_first_index_take;
use crate::bytes::lemma_len_tag;

verus! {

/// The four bytes of `x`, least significant first.
pub open spec fn le4(x: u32) -> Seq<u8> {
    seq![
        (x & 0xff) as u8,
        ((x >> 8u32) & 0xff) as u8,
        ((x >> 16u32) & 0xff) as u8,
        ((x >> 24u32) & 0xff) as u8,
    ]
}

proof fn lemma_pack4(b0: u32, b1: u32, b2: u32, b3: u32)
    by (bit_vector)
    requires
        b0 < 256,
        b1 < 256,
        b2 < 256,
        b3 < 256,
    ensures
        (b0 | (b1 << 8u32) | (b2 << 16u32) | (b3 << 24u32)) & 0xff == b0,
        ((b0 | (b1 << 8u32) | (b2 << 16u32) | (b3 << 24u32)) >> 8u32) & 0xff == b1,
        ((b0 | (b1 << 8u32) | (b2 << 16u32) | (b3 << 24u32)) >> 16u32) & 0xff == b2,
        ((b0 | (b1 << 8u32) | (b2 << 16u32) | (b3 << 24u32)) >> 24u32) & 0xff == b3,
{
}

/// The word with bytes `b0, b1, b2, b3`, least significant first.
fn pack4(b0: u8, b1: u8, b2: u8, b3: u8) -> (r: u32)
    ensures
        le4(r) == seq![b0, b1, b2, b3],
{
    proof {
        lemma_pack4(b0 as u32, b1 as u32, b2 as u32, b3 as u32);
    }
    let r = (b0 as u32) | ((b1 as u32) << 8u32) | ((b2 as u32) << 16u32) | ((b3 as u32) << 24u32);
    assert(le4(r) =~= seq![b0, b1, b2, b3]);
    r
}

/// Byte `i` of `x`, least significant first.
fn byte4(x: u32, i: usize) -> (r: u8)
    requires
        i < 4,
    ensures
        r == le4(x)[i as int],
{
    if i == 0 {
        (x & 0xff) as u8
    } else if i == 1 {
        ((x >> 8u32) & 0xff) as u8
    } else if i == 2 {
        ((x >> 16u32) & 0xff) as u8
    } else {
        ((x >> 24u32) & 0xff) as u8
    }
}

/// Index of the first byte of `array` equal to `key`, or `u8::MAX`.
pub fn get_naive(array: u32, key: u8) -> (r: u8)
    ensures
        r == (match first_index(le4(array), key) {
            Some(i) => i as u8,
            None => 255u8,
        }),
{
    let mut i: usize = 0;
    while i < 4
        invariant
            i <= 4,
            forall|j: int| 0 <= j < i ==> le4(array)[j] != key,
        decreases 4 - i,
    {
        if byte4(array, i) == key {
            proof {
                lemma_first_index_at(le4(array), key, i as nat);
            }
            return i as u8;
        }
        i += 1;
    }
    proof {
        lemma_first_index_none(le4(array), key);
    }
    255
}

proof fn lemma_swar(array: u32, key: u32)
    by (bit_vector)
    requires
        key < 256,
    ensures
        ((array ^ (key | (key << 8u32) | (key << 16u32))) & 0x007f7f7fu32) <= 0x007f7f7fu32,
        array & 0xff < 256,
        (array >> 8u32) & 0xff < 256,
        (array >> 16u32) & 0xff < 256,
        ({
            let diff = array ^ (key | (key << 8u32) | (key << 16u32));
            let x = (diff | (((diff & 0x007f7f7fu32) + 0x007f7f7fu32) as u32)) | 0x007f7f7fu32;
            &&& (array & 0xff) == key ==> x & (((1u32 << 7u32) - 1) as u32) == (((1u32 << 7u32)
                - 1) as u32) && x & (1u32 << 7u32) == 0
            &&& (array & 0xff) != key && ((array >> 8u32) & 0xff) == key ==> x & (((1u32
                << 15u32) - 1) as u32) == (((1u32 << 15u32) - 1) as u32) && x & (1u32 << 15u32)
                == 0
            &&& (array & 0xff) != key && ((array >> 8u32) & 0xff) != key && ((array >> 16u32)
                & 0xff) == key ==> x & (((1u32 << 23u32) - 1) as u32) == (((1u32 << 23u32) - 1)
                as u32) && x & (1u32 << 23u32) == 0
            &&& (array & 0xff) != key && ((array >> 8u32) & 0xff) != key && ((array >> 16u32)
                & 0xff) != key ==> x & (((1u32 << 24u32) - 1) as u32) == (((1u32 << 24u32) - 1)
                as u32) && (x == 0xffff_ffffu32 <==> ((array >> 24u32) & 0xff) == 0xff)
        }),
{
}

proof fn lemma_low_ones(x: u32, p: u32, t: u32)
    by (bit_vector)
    requires
        p < 32,
        t < p,
        x & (((1u32 << p) - 1) as u32) == (((1u32 << p) - 1) as u32),
    ensures
        (x >> t) & 1u32 == 1u32,
{
}

proof fn lemma_zero_bit(x: u32, p: u32)
    by (bit_vector)
    requires
        p < 32,
        x & (1u32 << p) == 0,
    ensures
        (x >> p) & 1u32 == 0u32,
{
}

/// With the low `p` bits of `x` set and bit `p` clear, `x` has exactly `p`
/// trailing ones.
proof fn lemma_trailing_ones_at(x: u32, p: u32)
    requires
        p < 32,
        x & (((1u32 << p) - 1) as u32) == (((1u32 << p) - 1) as u32),
        x & (1u32 << p) == 0,
    ensures
        u32_trailing_ones(x) == p,
{
    axiom_u32_trailing_ones(x);
    let t = u32_trailing_ones(x);
    if t < p {
        lemma_low_ones(x, p, t);
    }
    if t > p {
        assert((x >> p) & 1u32 == 1u32);
        lemma_zero_bit(x, p);
    }
}

/// Index of the first of the three low bytes of `array` that equals `key`,
/// found with word arithmetic. When none does, the result is 3, or 4 when
/// the top byte is `0xff`.
pub fn get_swar(array: u32, key: u8) -> (r: u8)
    ensures
        match first_index(le4(array).take(3), key) {
            Some(i) => r == i,
            None => r == (if le4(array)[3] == 0xff {
                4u8
            } else {
                3u8
            }),
        },
{
    let k = key as u32;
    let broadcast = k | (k << 8u32) | (k << 16u32);
    let diff = array ^ broadcast;
    proof {
        lemma_swar(array, k);
    }
    // Carry the low seven bits of each byte into its top bit.
    let any_one_lower = (diff & 0x007f7f7fu32) + 0x007f7f7fu32;
    let any_one = diff | any_one_lower;
    let x = any_one | 0x007f7f7fu32;
    let t = x.trailing_ones();
    proof {
        let s = le4(array).take(3);
        lemma_first_index(s, key);
        if (array & 0xff) == k {
            lemma_trailing_ones_at(x, 7);
            lemma_first_index_at(s, key, 0);
        } else if ((array >> 8u32) & 0xff) == k {
            lemma_trailing_ones_at(x, 15);
            lemma_first_index_at(s, key, 1);
        } else if ((array >> 16u32) & 0xff) == k {
            lemma_trailing_ones_at(x, 23);
            lemma_first_index_at(s, key, 2);
        } else {
            axiom_u32_trailing_ones(x);
            if u32_trailing_ones(x) < 24 {
                lemma_low_ones(x, 24, u32_trailing_ones(x));
            }
            lemma_first_index_none(s, key);
            assert(x == 0xffff_ffffu32 <==> ((array >> 24u32) & 0xff) == 0xff);
            assert(((array >> 24u32) & 0xff) < 256) by (bit_vector);
            assert(le4(array)[3] == ((array >> 24u32) & 0xff) as u8);
            assert(u32_trailing_ones(x) == 32 <==> le4(array)[3] == 0xff);
        }
    }
    (t / 8) as u8
}

/// The header word.
#[derive(Clone, Copy)]
pub struct Header {
    value: u32,
}

impl Header {
    pub closed spec fn bytes(self) -> Seq<u8> {
        le4(self.value)
    }

    /// Number of keys.
    pub closed spec fn len_view(self) -> nat {
        (self.bytes()[3] & 15u8) as nat
    }

    pub closed spec fn frozen_view(self) -> bool {
        self.bytes()[3] & 16u8 == 16u8
    }

    /// The keys, in insertion order.
    pub closed spec fn keys_view(self) -> Seq<u8> {
        self.bytes().take(self.len_view() as int)
    }

    pub closed spec fn wf(self) -> bool {
        &&& self.len_view() <= 3
        &&& forall|i: int| self.len_view() <= i < 3 ==> self.bytes()[i] == 0u8
        &&& self.bytes()[3] == ((self.len_view() as u8) | (if self.frozen_view() {
            16u8
        } else {
            0u8
        }))
    }

    pub proof fn lemma_wf(self)
        requires
            self.wf(),
        ensures
            self.keys_view().len() == self.len_view(),
            self.len_view() <= 3,
    {
    }

    /// A header holding `keys`, not frozen.
    pub fn new(keys: &[u8]) -> (r: Header)
        requires
            keys@.len() <= 3,
        ensures
            r.wf(),
            r.keys_view() == keys@,
            !r.frozen_view(),
    {
        let n = keys.len();
        let b0 = if n > 0 { keys[0] } else { 0 };
        let b1 = if n > 1 { keys[1] } else { 0 };
        let b2 = if n > 2 { keys[2] } else { 0 };
        let b3 = n as u8;
        let r = Header { value: pack4(b0, b1, b2, b3) };
        proof {
            lemma_len_tag(b3);
            assert(r.keys_view() =~= keys@);
        }
        r
    }

    pub fn len(self) -> (r: u8)
        requires
            self.wf(),
        ensures
            r == self.len_view(),
    {
        byte4(self.value, 3) & 15u8
    }

    pub fn is_frozen(self) -> (r: bool)
        ensures
            r == self.frozen_view(),
    {
        byte4(self.value, 3) & 16u8 == 16u8
    }

    /// The same header, frozen.
    pub fn freeze(self) -> (r: Header)
        requires
            self.wf(),
        ensures
            r.wf(),
            r.keys_view() == self.keys_view(),
            r.frozen_view(),
    {
        let b3 = byte4(self.value, 3);
        let n = b3 & 15u8;
        proof {
            lemma_len_tag(n);
        }
        let r = Header {
            value: pack4(byte4(self.value, 0), byte4(self.value, 1), byte4(self.value, 2), n | 16u8),
        };
        assert(r.keys_view() =~= self.keys_view());
        r
    }

    /// Index of `key` among the keys.
    pub fn get(self, key: u8) -> (r: Option<u8>)
        requires
            self.wf(),
        ensures
            r == (match first_index(self.keys_view(), key) {
                Some(i) => Some(i as u8),
                None => None::<u8>,
            }),
    {
        let index = get_naive(self.value, key);
        proof {
            lemma_first_index_take(self.bytes(), key, self.len_view());
            lemma_first_index(self.bytes(), key);
        }
        if index < self.len() {
            Some(index)
        } else {
            None
        }
    }

    /// The index of `key`, or else the header with `key` added, or else
    /// nothing when the header is full or frozen.
    pub fn get_or_insert(self, key: u8) -> (r: Result<u8, Option<Header>>)
        requires
            self.wf(),
        ensures
            match first_index(self.keys_view(), key) {
                Some(i) => r == Ok::<u8, Option<Header>>(i as u8),
                None => if self.len_view() >= 3 || self.frozen_view() {
                    r == Err::<u8, Option<Header>>(None)
                } else {
                    r matches Err(Some(h)) && h.wf() && h.keys_view() == self.keys_view().push(key)
                        && !h.frozen_view()
                },
            },
    {
        if let Some(index) = self.get(key) {
            return Ok(index);
        }
        let len = self.len();
        if len >= 3 || self.is_frozen() {
            return Err(None);
        }
        let b0 = if len == 0 { key } else { byte4(self.value, 0) };
        let b1 = if len == 1 { key } else { byte4(self.value, 1) };
        let b2 = if len == 2 { key } else { byte4(self.value, 2) };
        let b3 = len + 1;
        let h = Header { value: pack4(b0, b1, b2, b3) };
        proof {
            lemma_len_tag(b3);
            assert(h.keys_view() =~= self.keys_view().push(key));
        }
        Err(Some(h))
    }
}

} // verus!
