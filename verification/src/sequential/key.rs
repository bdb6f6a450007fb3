//! Key readers and writers used by the map's traversals.
pub mod dynamic;
pub mod fixed;

use vstd::prelude::*;
use crate::raw::edge::be::Be;

verus! {

/// A writer that keeps nothing, for traversals that need no keys.
#[derive(Clone, Copy, PartialEq, Eq, Structural)]
pub struct Ignore;

impl Ignore {
    pub fn new() -> (r: Ignore)
        ensures
            r == Ignore,
    {
        Ignore
    }

    /// Appending is ignored.
    pub fn extend(&mut self, bits: usize, array: Be)
        ensures
            *final(self) == *old(self),
    {
    }

    /// Appending is ignored.
    pub fn push(&mut self, bits: usize, byte: u8)
        ensures
            *final(self) == *old(self),
    {
    }

    /// Truncating is ignored.
    pub fn truncate(&mut self, bits: usize)
        ensures
            *final(self) == *old(self),
    {
    }
}

} // verus!
