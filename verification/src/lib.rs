pub mod qtree;
pub mod rect;
