//! The structures that page tables are made of, and the bitmap block that
//! tracks the frames they live in.
pub mod entry;
pub mod mem;
pub mod table;
