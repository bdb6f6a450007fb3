//! Masks over the sixteen byte lanes of a `u128`, lane 0 being the least
//! significant byte. A lane of a mask is `0xff` where the test holds and
//! zero elsewhere; `mask_byte_to_bit` packs a mask into one bit per lane.
use vstd::prelude::*;
use vstd::bytes::u128_from_le_bytes;
use vstd::bytes::u128_to_le_bytes;
use vstd::bytes::lemma_auto_spec_u128_to_from_le_bytes;
use crate::raw::node::node15::le16;

verus! {

/// The mask whose lane `i` is set exactly when `test[i]` holds.
pub open spec fn mask_of(test: Seq<bool>) -> Seq<u8> {
    Seq::new(16, |i: int| if test[i] { 0xffu8 } else { 0u8 })
}

/// The word whose lanes are `lanes`, which holds sixteen bytes.
fn from_lanes(lanes: &Vec<u8>) -> (r: u128)
    requires
        lanes@.len() == 16,
    ensures
        le16(r) == lanes@,
{
    proof {
        lemma_auto_spec_u128_to_from_le_bytes();
    }
    u128_from_le_bytes(lanes.as_slice())
}

/// Lanes of `array` equal to `byte`.
pub fn mask_eq(array: u128, byte: u8) -> (r: u128)
    ensures
        le16(r) == mask_of(Seq::new(16, |i: int| le16(array)[i] == byte)),
{
    proof {
        lemma_auto_spec_u128_to_from_le_bytes();
    }
    let a = u128_to_le_bytes(array);
    let mut out: Vec<u8> = Vec::new();
    let mut i: usize = 0;
    while i < 16
        invariant
            a@ == le16(array),
            a@.len() == 16,
            i <= 16,
            out@.len() == i,
            forall|j: int| 0 <= j < i ==> out@[j] == (if le16(array)[j] == byte { 0xffu8 } else { 0u8 }),
        decreases 16 - i,
    {
        out.push(if a[i] == byte { 0xff } else { 0 });
        i += 1;
    }
    proof {
        assert(out@ =~= mask_of(Seq::new(16, |i: int| le16(array)[i] == byte)));
    }
    from_lanes(&out)
}

/// Lanes of `array` below `byte`, both read as signed bytes.
pub fn mask_lt(array: u128, byte: i8) -> (r: u128)
    ensures
        le16(r) == mask_of(Seq::new(16, |i: int| (le16(array)[i] as i8) < byte)),
{
    proof {
        lemma_auto_spec_u128_to_from_le_bytes();
    }
    let a = u128_to_le_bytes(array);
    let mut out: Vec<u8> = Vec::new();
    let mut i: usize = 0;
    while i < 16
        invariant
            a@ == le16(array),
            a@.len() == 16,
            i <= 16,
            out@.len() == i,
            forall|j: int|
                0 <= j < i ==> out@[j] == (if (le16(array)[j] as i8) < byte { 0xffu8 } else { 0u8 }),
        decreases 16 - i,
    {
        out.push(if (a[i] as i8) < byte { 0xff } else { 0 });
        i += 1;
    }
    proof {
        assert(out@ =~= mask_of(Seq::new(16, |i: int| (le16(array)[i] as i8) < byte)));
    }
    from_lanes(&out)
}

/// Lanes of `array` from `min` to `max`, both included.
pub fn mask_range(array: u128, min: u8, max: u8) -> (r: u128)
    ensures
        le16(r) == mask_of(Seq::new(16, |i: int| min <= le16(array)[i] <= max)),
{
    proof {
        lemma_auto_spec_u128_to_from_le_bytes();
    }
    let a = u128_to_le_bytes(array);
    let mut out: Vec<u8> = Vec::new();
    let mut i: usize = 0;
    while i < 16
        invariant
            a@ == le16(array),
            a@.len() == 16,
            i <= 16,
            out@.len() == i,
            forall|j: int|
                0 <= j < i ==> out@[j] == (if min <= le16(array)[j] <= max { 0xffu8 } else { 0u8 }),
        decreases 16 - i,
    {
        out.push(if min <= a[i] && a[i] <= max { 0xff } else { 0 });
        i += 1;
    }
    proof {
        assert(out@ =~= mask_of(Seq::new(16, |i: int| min <= le16(array)[i] <= max)));
    }
    from_lanes(&out)
}

/// Lanes whose index is below `len`: all sixteen once `len` reaches 16.
pub fn mask_len(len: u8) -> (r: u128)
    ensures
        le16(r) == mask_of(Seq::new(16, |i: int| i < len)),
{
    let mut out: Vec<u8> = Vec::new();
    let mut i: usize = 0;
    while i < 16
        invariant
            i <= 16,
            out@.len() == i,
            forall|j: int| 0 <= j < i ==> out@[j] == (if j < len { 0xffu8 } else { 0u8 }),
        decreases 16 - i,
    {
        out.push(if (i as u8) < len { 0xff } else { 0 });
        i += 1;
    }
    proof {
        assert(out@ =~= mask_of(Seq::new(16, |i: int| i < len)));
    }
    from_lanes(&out)
}

/// Setting bit `i` of a word that has no bit from `i` up.
proof fn lemma_set_bit(r: u32, i: u32, b: u32)
    by (bit_vector)
    requires
        i < 16,
        b <= 1,
        r < (1u32 << i),
    ensures
        (r | (b << i)) < (1u32 << (i + 1)),
        forall|j: u32| j < i ==> #[trigger] (((r | (b << i)) >> j) & 1) == ((r >> j) & 1),
        (((r | (b << i)) >> i) & 1) == b,
{
}

/// A word below `2^16` keeps its bits as a `u16`.
proof fn lemma_narrow(r: u32)
    by (bit_vector)
    requires
        r < 0x1_0000,
    ensures
        forall|j: u16| j < 16 ==> #[trigger] (((r as u16) >> j) & 1) as u32 == ((r >> (j as u32)) & 1),
{
}

/// One bit per lane of `mask`, lane `i` giving bit `i`: the top bit of the
/// lane.
pub fn mask_byte_to_bit(mask: u128) -> (r: u16)
    ensures
        forall|i: u16| i < 16 ==> (((r >> i) & 1 == 1) <==> le16(mask)[i as int] >= 0x80),
{
    proof {
        lemma_auto_spec_u128_to_from_le_bytes();
    }
    let a = u128_to_le_bytes(mask);
    let mut bits: u32 = 0;
    let mut i: u32 = 0;
    assert(0u32 < (1u32 << 0u32)) by (bit_vector);
    while i < 16
        invariant
            a@ == le16(mask),
            a@.len() == 16,
            i <= 16,
            bits < (1u32 << i),
            forall|j: u32| j < i ==> (((bits >> j) & 1 == 1) <==> le16(mask)[j as int] >= 0x80),
        decreases 16 - i,
    {
        let top: u32 = if a[i as usize] >= 0x80 { 1 } else { 0 };
        proof {
            lemma_set_bit(bits, i, top);
        }
        bits = bits | (top << i);
        i += 1;
    }
    proof {
        assert(bits < 0x1_0000) by (bit_vector)
            requires
                bits < (1u32 << 16u32),
        ;
        lemma_narrow(bits);
    }
    bits as u16
}

} // verus!
