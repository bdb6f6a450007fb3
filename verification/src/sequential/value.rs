//! Values of the single-owner map, stored as `u64` words.
use vstd::prelude::*;

verus! {

/// A value that the map stores as a `u64` word and hands back from it.
pub trait Value: Sized {
    /// The word `self` is stored as.
    spec fn raw_spec(self) -> u64;

    /// Different values are stored as different words.
    proof fn lemma_raw_injective(a: Self, b: Self)
        ensures
            a.raw_spec() == b.raw_spec() ==> a == b,
    ;

    fn into_raw(self) -> (r: u64)
        ensures
            r == self.raw_spec(),
    ;

    /// The value stored as `raw`, a word that some value is stored as.
    fn from_raw(raw: u64) -> (r: Self)
        requires
            exists|v: Self| #[trigger] v.raw_spec() == raw,
        ensures
            r.raw_spec() == raw,
    ;
}

impl Value for u64 {
    open spec fn raw_spec(self) -> u64 {
        self
    }

    proof fn lemma_raw_injective(a: Self, b: Self) {
    }

    fn into_raw(self) -> (r: u64) {
        self
    }

    fn from_raw(raw: u64) -> (r: Self) {
        raw
    }
}

impl Value for i64 {
    open spec fn raw_spec(self) -> u64 {
        self as u64
    }

    proof fn lemma_raw_injective(a: Self, b: Self) {
        assert((a as u64) == (b as u64) ==> a == b) by (bit_vector);
    }

    fn into_raw(self) -> (r: u64) {
        self as u64
    }

    fn from_raw(raw: u64) -> (r: Self) {
        let r = raw as i64;
        assert((raw as i64) as u64 == raw) by (bit_vector);
        r
    }
}

} // verus!
