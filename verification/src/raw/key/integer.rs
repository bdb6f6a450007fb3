//! Fixed-width integer keys: a `u64` read from its most significant byte
//! down, so that keys sort like the integers they hold.
use vstd::prelude::*;
use vstd::bytes::u64_from_le_bytes;
use vstd::bytes::u64_to_le_bytes;
use crate::bytes::be8;
use crate::bytes::common_len;
use crate::bytes::le8;
use crate::bytes::lemma_be8_shl8;
use crate::bytes::lemma_common_len;
use crate::bytes::lemma_le8;
use crate::bytes::lemma_le8_from;
use crate::bytes::lemma_le8_top;
use crate::raw::edge::be::Be;
use crate::raw::edge::le::Le;

verus! {

/// `n` zero bytes.
pub open spec fn zeros(n: nat) -> Seq<u8> {
    Seq::new(n, |i: int| 0u8)
}

/// `v` shifted left by `n` bytes.
pub fn shl_bytes(v: u64, n: u8) -> (r: u64)
    requires
        n <= 8,
    ensures
        be8(r) == be8(v).skip(n as int) + zeros(n as nat),
{
    let mut r = v;
    let mut i: u8 = 0;
    proof {
        lemma_be8_shl8(v);
        assert(be8(v).skip(0) + zeros(0) =~= be8(v));
    }
    while i < n
        invariant
            i <= n <= 8,
            be8(r) == be8(v).skip(i as int) + zeros(i as nat),
            be8(v).len() == 8,
        decreases n - i,
    {
        proof {
            lemma_be8_shl8(r);
        }
        r = r << 8u64;
        i += 1;
        proof {
            assert(be8(r) =~= be8(v).skip(i as int) + zeros(i as nat));
        }
    }
    r
}

/// The word whose bytes, most significant first, are `bytes`.
pub fn from_be_bytes(bytes: &[u8]) -> (r: u64)
    requires
        bytes@.len() == 8,
    ensures
        be8(r) == bytes@,
{
    let mut le: Vec<u8> = Vec::new();
    let mut i: usize = 0;
    while i < 8
        invariant
            bytes@.len() == 8,
            i <= 8,
            le@ == bytes@.reverse().take(i as int),
        decreases 8 - i,
    {
        le.push(bytes[7 - i]);
        i += 1;
        proof {
            assert(le@ =~= bytes@.reverse().take(i as int));
        }
    }
    let r = u64_from_le_bytes(le.as_slice());
    proof {
        lemma_le8_from(le@);
        assert(le@ =~= bytes@.reverse());
        assert(be8(r) =~= bytes@);
    }
    r
}

/// The bytes of `v`, most significant first.
pub fn to_be_bytes(v: u64) -> (r: Vec<u8>)
    ensures
        r@ == be8(v),
{
    let le = u64_to_le_bytes(v);
    proof {
        lemma_le8(v, v);
    }
    let mut out: Vec<u8> = Vec::new();
    let mut i: usize = 0;
    while i < 8
        invariant
            le@ == le8(v),
            le@.len() == 8,
            i <= 8,
            out@ == be8(v).take(i as int),
        decreases 8 - i,
    {
        out.push(le[7 - i]);
        i += 1;
        proof {
            assert(out@ =~= be8(v).take(i as int));
        }
    }
    proof {
        assert(out@ =~= be8(v));
    }
    out
}

/// The first `n` bytes of `v`, most significant first, the rest cleared.
pub fn most_significant(v: u64, n: u8) -> (r: u64)
    requires
        n <= 8,
    ensures
        be8(r) == be8(v).take(n as int) + zeros((8 - n) as nat),
{
    let bytes = to_be_bytes(v);
    proof {
        lemma_le8(v, v);
    }
    let mut out: Vec<u8> = Vec::new();
    let mut i: usize = 0;
    while i < 8
        invariant
            bytes@ == be8(v),
            bytes@.len() == 8,
            n <= 8,
            i <= 8,
            out@.len() == i,
            forall|j: int| 0 <= j < i ==> out@[j] == (if j < n { bytes@[j] } else { 0u8 }),
        decreases 8 - i,
    {
        if i < n as usize {
            out.push(bytes[i]);
        } else {
            out.push(0);
        }
        i += 1;
    }
    let r = from_be_bytes(out.as_slice());
    proof {
        assert(out@ =~= be8(v).take(n as int) + zeros((8 - n) as nat));
    }
    r
}

/// A position in an integer key, counted in bits from the most significant
/// end; always a multiple of eight.
#[derive(Clone, Copy)]
pub struct Reader {
    buffer: u64,
    bits: u8,
}

impl View for Reader {
    type V = Seq<u8>;

    closed spec fn view(&self) -> Seq<u8> {
        be8(self.buffer).take((self.bits / 8) as int)
    }
}

impl Reader {
    pub closed spec fn wf(&self) -> bool {
        self.bits % 8 == 0 && self.bits <= 64
    }

    /// The word read from.
    pub closed spec fn word(&self) -> u64 {
        self.buffer
    }

    /// At most eight bytes are left.
    pub proof fn lemma_len(&self)
        requires
            self.wf(),
        ensures
            self@.len() <= 8,
    {
        lemma_le8(self.buffer, self.buffer);
    }

    /// A reader over all eight bytes of `value`.
    pub fn from_u64(value: u64) -> (r: Reader)
        ensures
            r.wf(),
            r@ == be8(value),
            r.word() == value,
    {
        let r = Reader { buffer: value, bits: 64 };
        proof {
            lemma_le8(value, value);
            assert(r@ =~= be8(value));
        }
        r
    }

    /// A reader over the two bytes of `value`, held in the top of the word.
    pub fn from_u16(value: u16) -> (r: Reader)
        ensures
            r.wf(),
            r.word() == (value as u64) << 48u64,
            r@ == be8(r.word()).take(2),
    {
        Reader { buffer: (value as u64) << 48u64, bits: 16 }
    }

    /// A reader over the four bytes of `value`, held in the top of the word.
    pub fn from_u32(value: u32) -> (r: Reader)
        ensures
            r.wf(),
            r.word() == (value as u64) << 32u64,
            r@ == be8(r.word()).take(4),
    {
        Reader { buffer: (value as u64) << 32u64, bits: 32 }
    }

    /// A reader over the first `bits` bits of `buffer`, rounded down to
    /// whole bytes; the rest of the word is cleared.
    pub fn new_masked(buffer: u64, bits: u8) -> (r: Reader)
        requires
            bits <= 64,
        ensures
            r.wf(),
            r@ == be8(buffer).take((bits / 8) as int),
    {
        let n = bits / 8;
        let masked = most_significant(buffer, n);
        let r = Reader { buffer: masked, bits: n * 8 };
        proof {
            lemma_le8(buffer, buffer);
            assert(r@ =~= be8(buffer).take(n as int));
        }
        r
    }

    /// Number of bits left.
    pub fn bits(&self) -> (r: usize)
        requires
            self.wf(),
        ensures
            r == self@.len() * 8,
            r <= 64,
    {
        proof {
            lemma_le8(self.buffer, self.buffer);
        }
        self.bits as usize
    }

    /// Number of bytes left.
    pub fn bytes(&self) -> (r: usize)
        requires
            self.wf(),
        ensures
            r == self@.len(),
    {
        proof {
            lemma_le8(self.buffer, self.buffer);
        }
        (self.bits / 8) as usize
    }

    /// Take the next byte.
    pub fn next(&mut self) -> (r: Option<u8>)
        requires
            old(self).wf(),
        ensures
            final(self).wf(),
            old(self)@.len() == 0 ==> r.is_none() && final(self)@ == old(self)@,
            old(self)@.len() > 0 ==> r == Some(old(self)@[0]) && final(self)@ == old(self)@.skip(1),
    {
        proof {
            lemma_le8(self.buffer, self.buffer);
        }
        if self.bits == 0 {
            return None;
        }
        proof {
            lemma_le8_top(self.buffer);
            lemma_be8_shl8(self.buffer);
        }
        let byte = ((self.buffer >> 56u64) & 0xffu64) as u8;
        let ghost before = *self;
        self.buffer = self.buffer << 8u64;
        self.bits = self.bits - 8;
        proof {
            assert(self@ =~= before@.skip(1));
        }
        Some(byte)
    }

    /// Read up to `len` bits as an edge key (fewer when the key ends).
    pub fn read(&mut self, len: u8) -> (r: Be)
        requires
            old(self).wf(),
            len % 8 == 0,
            len <= 56,
        ensures
            final(self).wf(),
            ({
                let n = if (len / 8) as nat <= old(self)@.len() {
                    (len / 8) as nat
                } else {
                    old(self)@.len()
                };
                &&& r.wf()
                &&& r.key_view() == old(self)@.take(n as int)
                &&& !r.value_flag()
                &&& !r.frozen_flag()
                &&& final(self)@ == old(self)@.skip(n as int)
            }),
    {
        proof {
            lemma_le8(self.buffer, self.buffer);
        }
        let len = Be::min_len(len, self.bits as usize);
        let key = Be::key_from_u64_truncate(self.buffer, len);
        let ghost before = *self;
        self.buffer = shl_bytes(self.buffer, len / 8);
        self.bits = self.bits - len;
        proof {
            assert(key.key_view() =~= before@.take((len / 8) as int));
            assert(self@ =~= before@.skip((len / 8) as int));
        }
        key
    }

    /// Read as many bytes as `edge` holds; on a match return their length in
    /// bits.
    pub fn match_exact(&mut self, edge: Be) -> (r: Option<u8>)
        requires
            old(self).wf(),
            edge.wf(),
        ensures
            final(self).wf(),
            ({
                let n = edge.key_len();
                let m = if n <= old(self)@.len() {
                    n
                } else {
                    old(self)@.len()
                };
                &&& final(self)@ == old(self)@.skip(m as int)
                &&& (r is Some <==> (n <= old(self)@.len() && old(self)@.take(n as int)
                    == edge.key_view()))
                &&& r is Some ==> r->0 == 8 * n
            }),
    {
        let (read, exact) = self.match_inexact(edge);
        if exact {
            Some(read.len())
        } else {
            None
        }
    }

    /// Read as many bytes as `edge` holds; return them and whether they
    /// match the edge exactly.
    pub fn match_inexact(&mut self, edge: Be) -> (r: (Be, bool))
        requires
            old(self).wf(),
            edge.wf(),
        ensures
            final(self).wf(),
            ({
                let n = edge.key_len();
                let m = if n <= old(self)@.len() {
                    n
                } else {
                    old(self)@.len()
                };
                &&& final(self)@ == old(self)@.skip(m as int)
                &&& r.0.wf()
                &&& r.0.key_view() == old(self)@.take(m as int)
                &&& !r.0.value_flag()
                &&& !r.0.frozen_flag()
                &&& (r.1 <==> (n <= old(self)@.len() && old(self)@.take(n as int)
                    == edge.key_view()))
                &&& r.1 ==> r.0.key_len() == n
            }),
    {
        let key = edge.key();
        let len = key.len();
        let read = self.read(len);
        proof {
            Be::lemma_eq(read, key);
            edge.lemma_wf_len();
            key.lemma_wf_len();
            read.lemma_wf_len();
        }
        let exact = read == key;
        (read, exact)
    }

    /// Drop the last `bits` bits.
    pub fn trim(&mut self, bits: u8)
        requires
            old(self).wf(),
            bits % 8 == 0,
            bits / 8 <= old(self)@.len(),
        ensures
            final(self).wf(),
            final(self)@ == old(self)@.take(old(self)@.len() - bits / 8),
    {
        proof {
            lemma_le8(self.buffer, self.buffer);
        }
        let ghost before = *self;
        self.bits = self.bits - bits;
        proof {
            assert(self@ =~= before@.take(before@.len() - bits / 8));
        }
    }

    /// The first `bits` bits, the rest of the word cleared.
    pub fn prefix(self, bits: u8) -> (r: Reader)
        requires
            self.wf(),
            bits % 8 == 0,
            bits / 8 <= self@.len(),
        ensures
            r.wf(),
            r@ == self@.take((bits / 8) as int),
            be8(r.word()) == r@ + zeros((8 - bits / 8) as nat),
    {
        proof {
            lemma_le8(self.buffer, self.buffer);
        }
        let r = Reader { buffer: most_significant(self.buffer, bits / 8), bits };
        proof {
            assert(r@ =~= self@.take((bits / 8) as int));
            assert(be8(r.word()) =~= r@ + zeros((8 - bits / 8) as nat));
        }
        r
    }

    /// Everything after the first `bits` bits.
    pub fn suffix(self, bits: u8) -> (r: Reader)
        requires
            self.wf(),
            bits % 8 == 0,
            bits / 8 <= self@.len(),
        ensures
            r.wf(),
            r@ == self@.skip((bits / 8) as int),
    {
        proof {
            lemma_le8(self.buffer, self.buffer);
        }
        let r = Reader { buffer: shl_bytes(self.buffer, bits / 8), bits: self.bits - bits };
        proof {
            assert(r@ =~= self@.skip((bits / 8) as int));
        }
        r
    }

    /// The longest common prefix of `self` and `other`.
    pub fn common_prefix(self, other: Reader) -> (r: Reader)
        requires
            self.wf(),
            other.wf(),
        ensures
            r.wf(),
            r@ == self@.take(common_len(self@, other@) as int),
    {
        proof {
            lemma_le8(self.buffer, self.buffer);
            lemma_le8(other.buffer, other.buffer);
        }
        let a = to_be_bytes(self.buffer);
        let b = to_be_bytes(other.buffer);
        let na = (self.bits / 8) as usize;
        let nb = (other.bits / 8) as usize;
        let mut c: usize = 0;
        while c < na && c < nb && a[c] == b[c]
            invariant
                a@ == be8(self.buffer),
                b@ == be8(other.buffer),
                a@.len() == 8,
                b@.len() == 8,
                na == self@.len(),
                nb == other@.len(),
                na == self.bits / 8,
                nb == other.bits / 8,
                self.wf(),
                other.wf(),
                na <= 8,
                nb <= 8,
                c <= na,
                c <= nb,
                forall|j: int| 0 <= j < c ==> self@[j] == other@[j],
            decreases na - c,
        {
            proof {
                assert(self@[c as int] == a@[c as int]);
                assert(other@[c as int] == b@[c as int]);
            }
            c += 1;
        }
        proof {
            lemma_common_len(self@, other@, c as nat);
        }
        self.prefix((c * 8) as u8)
    }
}

/// A zero byte leaves the other operand of `|` unchanged.
pub proof fn lemma_or_zero(x: u8)
    ensures
        0u8 | x == x,
{
    assert(0u8 | x == x) by (bit_vector);
}

/// An integer key being rebuilt from edge keys, most significant byte first.
#[derive(Clone, Copy)]
pub struct Writer {
    word: u64,
}

impl View for Writer {
    type V = Seq<u8>;

    /// All eight bytes, most significant first.
    closed spec fn view(&self) -> Seq<u8> {
        be8(self.word)
    }
}

impl Writer {
    /// The word written so far.
    pub closed spec fn word(&self) -> u64 {
        self.word
    }

    /// A writer holds eight bytes.
    pub proof fn lemma_len(&self)
        ensures
            self@.len() == 8,
    {
        lemma_le8(self.word, self.word);
    }

    /// The key with every byte zero.
    pub fn new() -> (r: Writer)
        ensures
            r@ == zeros(8),
    {
        let z: Vec<u8> = vec![0u8, 0u8, 0u8, 0u8, 0u8, 0u8, 0u8, 0u8];
        let r = Writer { word: from_be_bytes(z.as_slice()) };
        proof {
            assert(z@ =~= zeros(8));
        }
        r
    }

    /// The word of `reader`, as far as it was read or not.
    pub fn from_reader(reader: Reader) -> (r: Writer)
        ensures
            r.word() == reader.word(),
            r@ == be8(reader.word()),
            reader.wf() ==> r@.take(reader@.len() as int) == reader@,
    {
        let r = Writer { word: reader.buffer };
        proof {
            lemma_le8(reader.buffer, reader.buffer);
        }
        r
    }

    /// Keep the first `bits` bits and clear the rest.
    pub fn truncate(&mut self, bits: usize)
        requires
            bits % 8 == 0,
            bits <= 64,
        ensures
            final(self)@ == old(self)@.take((bits / 8) as int) + zeros((8 - bits / 8) as nat),
    {
        self.word = most_significant(self.word, (bits / 8) as u8);
    }

    /// The key as an integer.
    pub fn into_u64(self) -> (r: u64)
        ensures
            r == self.word(),
            be8(r) == self@,
    {
        self.word
    }

    /// The key of a two-byte integer, held in the top of the word.
    pub fn into_u16(self) -> (r: u16)
        ensures
            r == (self.word() >> 48u64) as u16,
    {
        (self.word >> 48u64) as u16
    }

    /// The key of a four-byte integer, held in the top of the word.
    pub fn into_u32(self) -> (r: u32)
        ensures
            r == (self.word() >> 32u64) as u32,
    {
        (self.word >> 32u64) as u32
    }

    /// Lengths of this writer are counted in bits.
    pub fn len_from_bits(bits: usize) -> (r: usize)
        ensures
            r == bits,
    {
        bits
    }

    /// Merge the bytes of `edge` into the key from bit `bits` on; returns the
    /// length in bits after them.
    pub fn write(&mut self, bits: usize, edge: Be) -> (r: usize)
        requires
            edge.wf(),
            bits % 8 == 0,
            bits / 8 + edge.key_len() <= 8,
        ensures
            r == bits + 8 * edge.key_len(),
            forall|j: int|
                0 <= j < 8 ==> #[trigger] final(self)@[j] == (if bits / 8 <= j < bits / 8
                    + edge.key_len() {
                    old(self)@[j] | edge.key_view()[j - bits / 8]
                } else {
                    old(self)@[j]
                }),
    {
        proof {
            edge.lemma_wf_len();
            lemma_le8(self.word, self.word);
        }
        let start = bits / 8;
        let key = edge.to_vec();
        let m = key.len();
        let old_bytes = to_be_bytes(self.word);
        let mut out: Vec<u8> = Vec::new();
        let mut i: usize = 0;
        while i < 8
            invariant
                old_bytes@ == old(self)@,
                old_bytes@.len() == 8,
                key@ == edge.key_view(),
                m == key@.len(),
                start + m <= 8,
                i <= 8,
                out@.len() == i,
                forall|j: int|
                    0 <= j < i ==> out@[j] == (if start <= j < start + m {
                        old_bytes@[j] | key@[j - start]
                    } else {
                        old_bytes@[j]
                    }),
            decreases 8 - i,
        {
            if start <= i && i < start + m {
                out.push(old_bytes[i] | key[i - start]);
            } else {
                out.push(old_bytes[i]);
            }
            i += 1;
        }
        self.word = from_be_bytes(out.as_slice());
        bits + 8 * m
    }

    /// Keep the first `start` bits, then put `node` and the bytes of `edge`
    /// after them and clear the rest; returns the length in bits after them.
    pub fn replace(&mut self, start: usize, node: u8, edge: Be) -> (r: usize)
        requires
            edge.wf(),
            start % 8 == 0,
            start / 8 + 1 + edge.key_len() <= 8,
        ensures
            r == start + 8 + 8 * edge.key_len(),
            final(self)@ == old(self)@.take((start / 8) as int).push(node) + edge.key_view()
                + zeros((8 - (start / 8 + 1 + edge.key_len())) as nat),
    {
        proof {
            edge.lemma_wf_len();
            lemma_le8(self.word, self.word);
        }
        let s = start / 8;
        let key = edge.to_vec();
        let m = key.len();
        let old_bytes = to_be_bytes(self.word);
        let mut out: Vec<u8> = Vec::new();
        let mut i: usize = 0;
        while i < s
            invariant
                old_bytes@ == old(self)@,
                old_bytes@.len() == 8,
                s < 8,
                i <= s,
                out@ == old_bytes@.take(i as int),
            decreases s - i,
        {
            out.push(old_bytes[i]);
            i += 1;
            proof {
                assert(out@ =~= old_bytes@.take(i as int));
            }
        }
        out.push(node);
        let mut tail = key;
        out.append(&mut tail);
        while out.len() < 8
            invariant
                out@.len() <= 8,
                out@.len() >= s + 1 + m,
                out@.take((s + 1 + m) as int) == old_bytes@.take(s as int).push(node)
                    + edge.key_view(),
                forall|j: int| s + 1 + m <= j < out@.len() ==> out@[j] == 0u8,
            decreases 8 - out@.len(),
        {
            let ghost before = out@;
            out.push(0);
            proof {
                assert(out@.take((s + 1 + m) as int) =~= before.take((s + 1 + m) as int));
            }
        }
        proof {
            assert(out@ =~= old_bytes@.take(s as int).push(node) + edge.key_view() + zeros(
                (8 - (s + 1 + m)) as nat,
            )) by {
                assert forall|j: int| 0 <= j < 8 implies out@[j] == (old_bytes@.take(s as int).push(
                    node,
                ) + edge.key_view() + zeros((8 - (s + 1 + m)) as nat))[j] by {
                    if j < s + 1 + m {
                        assert(out@.take((s + 1 + m) as int)[j] == out@[j]);
                    }
                }
            }
        }
        self.word = from_be_bytes(out.as_slice());
        start + 8 + 8 * m
    }
}

/// An integer key held as an array of bytes, read against little-endian
/// edge keys.
#[derive(Clone, Copy)]
pub struct Slow {
    buffer: [u8; 8],
    len: usize,
}

impl View for Slow {
    type V = Seq<u8>;

    closed spec fn view(&self) -> Seq<u8> {
        self.buffer@.take(self.len as int)
    }
}

impl Slow {
    pub closed spec fn wf(&self) -> bool {
        self.len <= 8
    }

    /// A reader over the first `bits` bits of `buffer`, most significant
    /// first.
    pub fn new(buffer: u64, bits: u8) -> (r: Slow)
        requires
            bits <= 64,
            bits % 8 == 0,
        ensures
            r.wf(),
            r@ == be8(buffer).take((bits / 8) as int),
    {
        let bytes = to_be_bytes(buffer);
        proof {
            lemma_le8(buffer, buffer);
        }
        let mut array: [u8; 8] = [0u8; 8];
        let mut i: usize = 0;
        while i < 8
            invariant
                bytes@ == be8(buffer),
                bytes@.len() == 8,
                i <= 8,
                array@.len() == 8,
                forall|j: int| 0 <= j < i ==> array@[j] == bytes@[j],
            decreases 8 - i,
        {
            array[i] = bytes[i];
            i += 1;
        }
        let r = Slow { buffer: array, len: (bits / 8) as usize };
        proof {
            assert(r@ =~= be8(buffer).take((bits / 8) as int));
        }
        r
    }

    /// A reader over all eight bytes of `value`.
    pub fn from_u64(value: u64) -> (r: Slow)
        ensures
            r.wf(),
            r@ == be8(value),
    {
        proof {
            lemma_le8(value, value);
            assert(be8(value).take(8) =~= be8(value));
        }
        Slow::new(value, 64)
    }

    /// Number of bits left.
    pub fn bits(&self) -> (r: usize)
        requires
            self.wf(),
        ensures
            r == self@.len() * 8,
    {
        self.len * 8
    }

    /// Number of bytes left.
    pub fn bytes(&self) -> (r: usize)
        requires
            self.wf(),
        ensures
            r == self@.len(),
    {
        self.len
    }

    /// Drop the first `n` bytes, moving the rest to the front.
    fn advance(&mut self, n: usize)
        requires
            old(self).wf(),
            n <= old(self).len,
        ensures
            final(self).wf(),
            final(self)@ == old(self)@.skip(n as int),
    {
        let ghost before = self@;
        let mut i: usize = 0;
        while i + n < 8
            invariant
                n <= old(self).len <= 8,
                self.len == old(self).len,
                self.buffer@.len() == 8,
                i + n <= 8,
                forall|j: int| 0 <= j < i ==> self.buffer@[j] == old(self).buffer@[j + n],
                forall|j: int| i <= j < 8 ==> self.buffer@[j] == old(self).buffer@[j],
            decreases 8 - i - n,
        {
            let b = self.buffer[i + n];
            self.buffer[i] = b;
            i += 1;
        }
        self.len = self.len - n;
        proof {
            assert(self@ =~= before.skip(n as int));
        }
    }

    /// Take the next byte.
    pub fn next(&mut self) -> (r: Option<u8>)
        requires
            old(self).wf(),
        ensures
            final(self).wf(),
            old(self)@.len() == 0 ==> r.is_none() && final(self)@ == old(self)@,
            old(self)@.len() > 0 ==> r == Some(old(self)@[0]) && final(self)@ == old(self)@.skip(1),
    {
        if self.len == 0 {
            return None;
        }
        let byte = self.buffer[0];
        self.advance(1);
        Some(byte)
    }

    /// Read up to `len` bits as a little-endian edge key (fewer when the key
    /// ends).
    pub fn read(&mut self, len: u8) -> (r: Le)
        requires
            old(self).wf(),
            len % 8 == 0,
            len <= 56,
        ensures
            final(self).wf(),
            ({
                let n = if (len / 8) as nat <= old(self)@.len() {
                    (len / 8) as nat
                } else {
                    old(self)@.len()
                };
                &&& r.wf()
                &&& r.key_view() == old(self)@.take(n as int)
                &&& !r.value_flag()
                &&& !r.frozen_flag()
                &&& final(self)@ == old(self)@.skip(n as int)
            }),
    {
        let want = (len / 8) as usize;
        let n = if want <= self.len {
            want
        } else {
            self.len
        };
        let key = Le::new(vstd::slice::slice_subrange(self.buffer.as_slice(), 0, n), false, false);
        proof {
            assert(self.buffer@.subrange(0, n as int) =~= self@.take(n as int));
        }
        self.advance(n);
        key
    }

    /// Read as many bytes as `edge` holds; return them and whether they
    /// match the edge exactly.
    pub fn match_inexact(&mut self, edge: Le) -> (r: (Le, bool))
        requires
            old(self).wf(),
            edge.wf(),
        ensures
            final(self).wf(),
            ({
                let n = edge.key_len();
                let m = if n <= old(self)@.len() {
                    n
                } else {
                    old(self)@.len()
                };
                &&& final(self)@ == old(self)@.skip(m as int)
                &&& r.0.wf()
                &&& r.0.key_view() == old(self)@.take(m as int)
                &&& (r.1 <==> (n <= old(self)@.len() && old(self)@.take(n as int)
                    == edge.key_view()))
            }),
    {
        let key = edge.key();
        let len = key.len();
        let read = self.read(len);
        proof {
            Le::lemma_eq(read, key);
            edge.lemma_wf_len();
            key.lemma_wf_len();
            read.lemma_wf_len();
        }
        let exact = read == key;
        (read, exact)
    }

    /// Read as many bytes as `edge` holds; on a match return their length in
    /// bits.
    pub fn match_exact(&mut self, edge: Le) -> (r: Option<u8>)
        requires
            old(self).wf(),
            edge.wf(),
        ensures
            final(self).wf(),
            ({
                let n = edge.key_len();
                let m = if n <= old(self)@.len() {
                    n
                } else {
                    old(self)@.len()
                };
                &&& final(self)@ == old(self)@.skip(m as int)
                &&& (r is Some <==> (n <= old(self)@.len() && old(self)@.take(n as int)
                    == edge.key_view()))
                &&& r is Some ==> r->0 == 8 * n
            }),
    {
        proof {
            edge.lemma_wf_len();
        }
        let (key, exact) = self.match_inexact(edge);
        if exact {
            proof {
                key.lemma_wf_len();
            }
            Some(key.len())
        } else {
            None
        }
    }
}

} // verus!
