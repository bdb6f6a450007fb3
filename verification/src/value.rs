//! Values stored in the tree: every value travels as a `u64` word.
use vstd::prelude::*;

verus! {

/// A value that can be stored as a `u64` word and recovered from it.
pub trait Value: Sized {
    /// The word `self` is stored as.
    spec fn raw_spec(self) -> u64;

    /// Different values are stored as different words.
    proof fn lemma_raw_injective(a: Self, b: Self)
        ensures
            a.raw_spec() == b.raw_spec() ==> a == b,
    ;

    fn into_raw(self) -> (r: u64)
        ensures
            r == self.raw_spec(),
    ;

    /// The value stored as `raw`, a word that some value is stored as.
    fn from_raw(raw: u64) -> (r: Self)
        requires
            exists|v: Self| #[trigger] v.raw_spec() == raw,
        ensures
            r.raw_spec() == raw,
    ;
}

impl Value for u64 {
    open spec fn raw_spec(self) -> u64 {
        self
    }

    proof fn lemma_raw_injective(a: Self, b: Self) {
    }

    fn into_raw(self) -> (r: u64) {
        self
    }

    fn from_raw(raw: u64) -> (r: Self) {
        raw
    }
}

impl Value for i64 {
    open spec fn raw_spec(self) -> u64 {
        self as u64
    }

    proof fn lemma_raw_injective(a: Self, b: Self) {
        assert((a as u64) == (b as u64) ==> a == b) by (bit_vector);
    }

    fn into_raw(self) -> (r: u64) {
        self as u64
    }

    fn from_raw(raw: u64) -> (r: Self) {
        let r = raw as i64;
        assert((raw as i64) as u64 == raw) by (bit_vector);
        r
    }
}

/// Storing a value and reading it back gives the value.
pub proof fn lemma_round_trip<V: Value>(v: V, back: V)
    requires
        back.raw_spec() == v.raw_spec(),
    ensures
        back == v,
{
    V::lemma_raw_injective(back, v);
}

} // verus!
