pub mod property;
pub mod tree;
pub mod encode;
pub mod blob;
pub mod laws;
pub mod dtb;
