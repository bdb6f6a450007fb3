//! Integer keys held as an array of bytes, most significant first, read
//! against little-endian edge keys without moving.
use vstd::prelude::*;
use crate::bytes::be8;
use crate::bytes::common_len;
use crate::bytes::lemma_common_len;
use crate::raw::edge::le::Le;
use crate::raw::key::integer::to_be_bytes;
use crate::raw::key::integer::zeros;
use crate::raw::key::vec::Len;

verus! {

/// An integer key as bytes, with the number of bytes still to read.
#[derive(Clone, Copy)]
pub struct Reader {
    buffer: [u8; 8],
    len: usize,
}

impl View for Reader {
    type V = Seq<u8>;

    /// The bytes still to read.
    closed spec fn view(&self) -> Seq<u8> {
        self.buffer@.take(self.len as int)
    }
}

impl Reader {
    pub closed spec fn wf(&self) -> bool {
        self.len <= 8
    }

    /// All eight bytes, read or not.
    pub closed spec fn buffer_view(&self) -> Seq<u8> {
        self.buffer@
    }

    /// A reader over the first `bits` bits of `buffer`, most significant
    /// first; the bytes after them are kept as they are.
    pub fn new(buffer: u64, bits: u8) -> (r: Reader)
        requires
            bits <= 64,
            bits % 8 == 0,
        ensures
            r.wf(),
            r@ == be8(buffer).take((bits / 8) as int),
            r.buffer_view() == be8(buffer),
    {
        let bytes = to_be_bytes(buffer);
        proof {
            crate::bytes::lemma_le8(buffer, buffer);
        }
        let mut array: [u8; 8] = [0u8; 8];
        let mut i: usize = 0;
        while i < 8
            invariant
                bytes@ == be8(buffer),
                bytes@.len() == 8,
                i <= 8,
                array@.len() == 8,
                forall|j: int| 0 <= j < i ==> array@[j] == bytes@[j],
            decreases 8 - i,
        {
            array[i] = bytes[i];
            i += 1;
        }
        let r = Reader { buffer: array, len: (bits / 8) as usize };
        proof {
            assert(r.buffer_view() =~= be8(buffer));
            assert(r@ =~= be8(buffer).take((bits / 8) as int));
        }
        r
    }

    /// The number of bytes still to read.
    pub fn len(&self) -> (r: Len)
        requires
            self.wf(),
        ensures
            r@ == self@.len(),
    {
        Len::new(self.len)
    }

    /// The next `len` bits, or as many as are left, as an edge key.
    pub fn get_edge(&self, len: u8) -> (r: Le)
        requires
            self.wf(),
            len % 8 == 0,
            len <= 56,
        ensures
            r.wf(),
            r.key_view() == self@.take(if (len / 8) as nat <= self@.len() {
                (len / 8) as int
            } else {
                self@.len() as int
            }),
            !r.value_flag(),
            !r.frozen_flag(),
    {
        let want = (len / 8) as usize;
        let n = if want <= self.len {
            want
        } else {
            self.len
        };
        let key = Le::new(vstd::slice::slice_subrange(self.buffer.as_slice(), 0, n), false, false);
        proof {
            assert(self.buffer@.subrange(0, n as int) =~= self@.take(n as int));
        }
        key
    }

    /// The byte at bit `index` of the array, read or not.
    pub fn get_byte(&self, index: u8) -> (r: Option<u8>)
        ensures
            r == (if (index / 8) < 8 {
                Some(self.buffer_view()[(index / 8) as int])
            } else {
                None::<u8>
            }),
    {
        let i = (index / 8) as usize;
        if i < 8 {
            Some(self.buffer[i])
        } else {
            None
        }
    }

    /// How many of the bytes still to read agree with the start of `edge`.
    pub fn match_prefix(&self, edge: Le) -> (r: Len)
        requires
            self.wf(),
            edge.wf(),
        ensures
            r@ == common_len(self@, edge.key_view()),
    {
        let key = edge.to_vec();
        let mut i: usize = 0;
        while i < self.len && i < key.len() && self.buffer[i] == key[i]
            invariant
                self.wf(),
                key@ == edge.key_view(),
                i <= self.len,
                i <= key@.len(),
                forall|j: int| 0 <= j < i ==> self@[j] == key@[j],
            decreases self.len - i,
        {
            proof {
                assert(self@[i as int] == self.buffer@[i as int]);
            }
            i += 1;
        }
        proof {
            if i < self.len && i < key@.len() {
                assert(self@[i as int] == self.buffer@[i as int]);
            }
            lemma_common_len(self@, key@, i as nat);
        }
        Len::new(i)
    }

    /// Split against `edge` where the bytes still to read first differ from
    /// its key: the common start, the edge's byte there, the reader's byte
    /// there, and the rest of the reader's bytes. Fails when the edge's key
    /// is a prefix of the bytes still to read.
    pub fn expand(&self, edge: Le) -> (r: Result<(Le, u8, u8, Le), ()>)
        requires
            self.wf(),
            edge.wf(),
            common_len(self@, edge.key_view()) < edge.key_len() ==> common_len(
                self@,
                edge.key_view(),
            ) < self@.len(),
        ensures
            r is Err <==> common_len(self@, edge.key_view()) >= edge.key_len(),
            r matches Ok((start, old_middle, new_middle, end)) ==> {
                let c = common_len(self@, edge.key_view());
                &&& start.wf() && end.wf()
                &&& start.key_view() == self@.take(c as int)
                &&& old_middle == edge.key_view()[c as int]
                &&& new_middle == self@[c as int]
                &&& end.key_view() == self@.skip((c + 1) as int)
                &&& !start.value_flag() && !start.frozen_flag()
                &&& !end.value_flag() && !end.frozen_flag()
            },
    {
        proof {
            edge.lemma_wf_len();
        }
        let c = self.match_prefix(edge).bytes();
        if c >= edge.bytes() {
            return Err(());
        }
        let key = edge.to_vec();
        let start = Le::new(vstd::slice::slice_subrange(self.buffer.as_slice(), 0, c), false, false);
        let old_middle = key[c];
        let new_middle = self.buffer[c];
        let end = Le::new(
            vstd::slice::slice_subrange(self.buffer.as_slice(), c + 1, self.len),
            false,
            false,
        );
        proof {
            assert(self.buffer@.subrange(0, c as int) =~= self@.take(c as int));
            assert(self.buffer@.subrange(c + 1, self.len as int) =~= self@.skip((c + 1) as int));
        }
        Ok((start, old_middle, new_middle, end))
    }

    /// Drop the last `len` bytes.
    pub fn trim(&mut self, len: Len)
        requires
            old(self).wf(),
            len@ <= old(self)@.len(),
        ensures
            final(self).wf(),
            final(self)@ == old(self)@.take(old(self)@.len() - len@),
    {
        let ghost before = self@;
        self.len = self.len - len.bytes();
        proof {
            assert(self@ =~= before.take(before.len() - len@));
        }
    }

    /// The first `end` bytes, the rest of the array cleared.
    pub fn prefix(self, end: Len) -> (r: Reader)
        requires
            self.wf(),
            end@ <= self@.len(),
        ensures
            r.wf(),
            r@ == self@.take(end@ as int),
            r.buffer_view() == r@ + zeros((8 - r@.len()) as nat),
    {
        let n = end.bytes();
        let mut array: [u8; 8] = [0u8; 8];
        let mut i: usize = 0;
        while i < n
            invariant
                n <= self.len <= 8,
                i <= n,
                array@.len() == 8,
                forall|j: int| 0 <= j < i ==> array@[j] == self.buffer@[j],
                forall|j: int| i <= j < 8 ==> array@[j] == 0,
            decreases n - i,
        {
            array[i] = self.buffer[i];
            i += 1;
        }
        let r = Reader { buffer: array, len: n };
        proof {
            assert(r@ =~= self@.take(n as int));
            assert(r.buffer_view() =~= r@ + zeros((8 - r@.len()) as nat));
        }
        r
    }

    /// Everything after the first `start` bytes, moved to the front.
    pub fn suffix(self, start: Len) -> (r: Reader)
        requires
            self.wf(),
            start@ <= self@.len(),
        ensures
            r.wf(),
            r@ == self@.skip(start@ as int),
            r.buffer_view() == r@ + zeros((8 - r@.len()) as nat),
    {
        let s = start.bytes();
        let n = self.len - s;
        let mut array: [u8; 8] = [0u8; 8];
        let mut i: usize = 0;
        while i < n
            invariant
                s + n == self.len <= 8,
                i <= n,
                array@.len() == 8,
                forall|j: int| 0 <= j < i ==> array@[j] == self.buffer@[j + s],
                forall|j: int| i <= j < 8 ==> array@[j] == 0,
            decreases n - i,
        {
            array[i] = self.buffer[i + s];
            i += 1;
        }
        let r = Reader { buffer: array, len: n };
        proof {
            assert(r@ =~= self@.skip(s as int));
            assert(r.buffer_view() =~= r@ + zeros((8 - r@.len()) as nat));
        }
        r
    }

    /// The longest common prefix of `self` and `other`.
    pub fn common_prefix(self, other: Reader) -> (r: Reader)
        requires
            self.wf(),
            other.wf(),
        ensures
            r.wf(),
            r@ == self@.take(common_len(self@, other@) as int),
            r.buffer_view() == r@ + zeros((8 - r@.len()) as nat),
    {
        let mut i: usize = 0;
        while i < self.len && i < other.len && self.buffer[i] == other.buffer[i]
            invariant
                self.wf(),
                other.wf(),
                i <= self.len,
                i <= other.len,
                forall|j: int| 0 <= j < i ==> self@[j] == other@[j],
            decreases self.len - i,
        {
            proof {
                assert(self@[i as int] == self.buffer@[i as int]);
                assert(other@[i as int] == other.buffer@[i as int]);
            }
            i += 1;
        }
        proof {
            if i < self.len && i < other.len {
                assert(self@[i as int] == self.buffer@[i as int]);
                assert(other@[i as int] == other.buffer@[i as int]);
            }
            lemma_common_len(self@, other@, i as nat);
        }
        self.prefix(Len::new(i))
    }
}

/// The common prefix of two readers is the same either way round: the same
/// bytes to read, and the same cleared array behind them.
pub proof fn lemma_common_prefix_sym(a: Reader, b: Reader, ab: Reader, ba: Reader)
    requires
        ab@ == a@.take(common_len(a@, b@) as int),
        ab.buffer_view() == ab@ + zeros((8 - ab@.len()) as nat),
        ba@ == b@.take(common_len(b@, a@) as int),
        ba.buffer_view() == ba@ + zeros((8 - ba@.len()) as nat),
    ensures
        ab@ == ba@,
        ab.buffer_view() == ba.buffer_view(),
{
    crate::bytes::lemma_common_len_sym(a@, b@);
    crate::bytes::lemma_common_len_props(a@, b@);
    let c = common_len(a@, b@) as int;
    assert(ab@ =~= ba@) by {
        assert forall|j: int| 0 <= j < c implies a@[j] == b@[j] by {}
    }
}

} // verus!
