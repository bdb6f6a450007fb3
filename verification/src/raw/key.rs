pub mod array;
pub mod dynamic;
pub mod integer;
pub mod slow;
pub mod uint;
pub mod vec;
