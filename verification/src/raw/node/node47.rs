//! The header of a node with room for 47 children: a table from key byte to
//! slot, plus the number of slots in use and a frozen flag.
//!
//! Entry `k` of the table is zero when `k` has no slot, and `s + 1` when its
//! child lives in slot `s`.
use vstd::prelude::*;

verus! {

/// Slots in a node of this kind.
pub const CAPACITY: u8 = 47;

pub struct Header {
    index: Vec<u8>,
    len: u8,
    frozen: bool,
}

impl Header {
    /// The slot of `key`, if it has one.
    pub closed spec fn slot(&self, key: u8) -> Option<nat> {
        let entry = self.index@[key as int];
        if entry > 0 {
            Some((entry - 1) as nat)
        } else {
            None
        }
    }

    /// Number of slots in use.
    pub closed spec fn len_view(&self) -> nat {
        self.len as nat
    }

    pub closed spec fn frozen_view(&self) -> bool {
        self.frozen
    }

    pub closed spec fn wf(&self) -> bool {
        &&& self.index@.len() == 256
        &&& self.len <= 47
        &&& forall|k: int| 0 <= k < 256 ==> self.index@[k] <= self.len
        &&& forall|k1: int, k2: int|
            0 <= k1 < 256 && 0 <= k2 < 256 && k1 != k2 && self.index@[k1] > 0 ==> self.index@[k1]
                != self.index@[k2]
    }

    /// Slots in use lie below the length, and distinct keys have distinct slots.
    pub proof fn lemma_wf(&self)
        requires
            self.wf(),
        ensures
            self.len_view() <= 47,
            forall|k: u8| #[trigger] self.slot(k) matches Some(s) ==> s < self.len_view(),
            forall|k1: u8, k2: u8|
                k1 != k2 && #[trigger] self.slot(k1) is Some ==> self.slot(k1) != #[trigger] self.slot(
                    k2,
                ),
    {
        assert forall|k1: u8, k2: u8|
            k1 != k2 && #[trigger] self.slot(k1) is Some implies self.slot(k1) != #[trigger] self.slot(
            k2,
        ) by {
            assert(self.index@[k1 as int] != self.index@[k2 as int]);
        }
    }

    /// An empty header.
    pub fn new() -> (r: Header)
        ensures
            r.wf(),
            r.len_view() == 0,
            !r.frozen_view(),
            forall|k: u8| r.slot(k) is None,
    {
        let mut index: Vec<u8> = Vec::with_capacity(256);
        let mut i: usize = 0;
        while i < 256
            invariant
                i <= 256,
                index@.len() == i,
                forall|k: int| 0 <= k < i ==> index@[k] == 0,
            decreases 256 - i,
        {
            index.push(0);
            i += 1;
        }
        Header { index, len: 0, frozen: false }
    }

    pub fn len(&self) -> (r: u8)
        ensures
            r == self.len_view(),
    {
        self.len
    }

    pub fn is_frozen(&self) -> (r: bool)
        ensures
            r == self.frozen_view(),
    {
        self.frozen
    }

    pub fn freeze(&mut self)
        ensures
            final(self).frozen_view(),
            final(self).len_view() == old(self).len_view(),
            forall|k: u8| final(self).slot(k) == old(self).slot(k),
            old(self).wf() ==> final(self).wf(),
    {
        self.frozen = true;
    }

    /// The slot of `key`.
    pub fn get(&self, key: u8) -> (r: Option<u8>)
        requires
            self.wf(),
        ensures
            r == (match self.slot(key) {
                Some(s) => Some(s as u8),
                None => None::<u8>,
            }),
    {
        let index = self.index[key as usize].wrapping_sub(1);
        if index < CAPACITY {
            Some(index)
        } else {
            None
        }
    }

    /// Give `key`, which has no slot, the next free one. Fails when all
    /// slots are in use.
    pub fn insert(&mut self, key: u8) -> (r: Option<u8>)
        requires
            old(self).wf(),
            old(self).slot(key) is None,
        ensures
            final(self).wf(),
            final(self).frozen_view() == old(self).frozen_view(),
            old(self).len_view() == 47 ==> r is None && *final(self) == *old(self),
            old(self).len_view() < 47 ==> r == Some(old(self).len_view() as u8) && final(self).slot(
                key,
            ) == Some(old(self).len_view()) && final(self).len_view() == old(self).len_view() + 1,
            forall|k: u8| k != key ==> final(self).slot(k) == old(self).slot(k),
    {
        let old_len = self.len;
        if old_len == CAPACITY {
            return None;
        }
        let new_len = old_len + 1;
        self.len = new_len;
        self.index.set(key as usize, new_len);
        proof {
            assert forall|k1: int, k2: int|
                0 <= k1 < 256 && 0 <= k2 < 256 && k1 != k2 && self.index@[k1] > 0 implies self.index@[k1]
                != self.index@[k2] by {
                if k1 != key as int && k2 != key as int {
                    assert(old(self).index@[k1] != old(self).index@[k2]);
                }
            }
        }
        Some(old_len)
    }
}

} // verus!
