pub mod geometry;
pub mod sort;
pub mod packer;
pub mod texture;
pub mod font;
