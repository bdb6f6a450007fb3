//! A verified adaptive radix tree over byte-string keys.

pub mod bytes;
pub mod raw;
pub mod sequential;
pub mod stat;
pub mod value;
