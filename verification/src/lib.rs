//! A small storage engine: 8 KB slotted pages, B+ tree leaf and internal nodes built on
//! them, an in-memory pager, and a B+ tree that ties them together.
pub mod btree;
pub mod page;
pub mod pager;
pub mod utils;
