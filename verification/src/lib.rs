pub mod grid;
pub mod image;
pub mod rect;
