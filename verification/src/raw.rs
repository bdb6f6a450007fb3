pub mod cursor;
pub mod edge;
pub mod iter;
pub mod key;
pub mod node;
