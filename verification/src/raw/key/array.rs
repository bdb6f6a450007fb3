//! Keys that are byte arrays of a fixed length.
use vstd::prelude::*;
use crate::raw::edge::le::Le;
use crate::raw::key::vec::Len;
use crate::raw::key::vec::Reader;

verus! {

/// A key of `N` bytes being rebuilt from a prefix and edge keys.
pub struct Writer<const N: usize> {
    bytes: [u8; N],
}

impl<const N: usize> View for Writer<N> {
    type V = Seq<u8>;

    closed spec fn view(&self) -> Seq<u8> {
        self.bytes@
    }
}

impl<const N: usize> Writer<N> {
    /// The bytes `prefix` has left, then the bytes of `key`, then zeros;
    /// returns the writer and the length written.
    pub fn new(prefix: Reader, key: Le) -> (r: (Writer<N>, Len))
        requires
            key.wf(),
            prefix@.len() + key.key_len() <= N,
        ensures
            r.1@ == prefix@.len() + key.key_len(),
            r.0@.len() == N,
            r.0@.take(r.1@ as int) == prefix@ + key.key_view(),
            forall|j: int| r.1@ <= j < N ==> r.0@[j] == 0u8,
    {
        proof {
            key.lemma_wf_len();
        }
        let head = prefix.as_ref();
        let tail = key.to_vec();
        let total = head.len() + tail.len();
        let mut bytes: [u8; N] = [0u8; N];
        let mut i: usize = 0;
        while i < N
            invariant
                head@ == prefix@,
                tail@ == key.key_view(),
                total == head@.len() + tail@.len(),
                total <= N,
                i <= N,
                bytes@.len() == N,
                forall|j: int|
                    0 <= j < i ==> bytes@[j] == (if j < head@.len() {
                        head@[j]
                    } else if j < total {
                        tail@[j - head@.len()]
                    } else {
                        0u8
                    }),
            decreases N - i,
        {
            if i < head.len() {
                bytes[i] = head[i];
            } else if i < total {
                bytes[i] = tail[i - head.len()];
            } else {
                bytes[i] = 0;
            }
            i += 1;
        }
        let r = (Writer { bytes }, Len::new(total));
        proof {
            assert(r.0@.take(total as int) =~= prefix@ + key.key_view());
        }
        r
    }

    /// Put `node` at byte `start` and the bytes of `edge` after it; returns
    /// the length after them.
    pub fn replace(&mut self, start: Len, node: u8, edge: Le) -> (r: Len)
        requires
            edge.wf(),
            start@ + 1 + edge.key_len() <= N,
        ensures
            r@ == start@ + 1 + edge.key_len(),
            final(self)@ == old(self)@.take(start@ as int).push(node) + edge.key_view() + old(
                self,
            )@.skip(r@ as int),
    {
        proof {
            edge.lemma_wf_len();
        }
        let s = start.bytes();
        let tail = edge.to_vec();
        let end = s + 1 + tail.len();
        self.bytes[s] = node;
        let mut i: usize = 0;
        while i < tail.len()
            invariant
                s + 1 + tail@.len() == end,
                end <= N,
                tail@ == edge.key_view(),
                i <= tail@.len(),
                self.bytes@.len() == N,
                forall|j: int| 0 <= j < s ==> self.bytes@[j] == old(self).bytes@[j],
                self.bytes@[s as int] == node,
                forall|j: int| 0 <= j < i ==> self.bytes@[s + 1 + j] == tail@[j],
                forall|j: int| s + 1 + i <= j < N ==> self.bytes@[j] == old(self).bytes@[j],
            decreases tail@.len() - i,
        {
            self.bytes[s + 1 + i] = tail[i];
            i += 1;
        }
        proof {
            assert(self@ =~= old(self)@.take(s as int).push(node) + edge.key_view() + old(
                self,
            )@.skip(end as int));
        }
        Len::new(end)
    }

    pub fn as_slice(&self) -> (r: &[u8])
        ensures
            r@ == self@,
    {
        self.bytes.as_slice()
    }
}

} // verus!
