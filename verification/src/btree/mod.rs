pub mod chain;
pub mod internal;
pub mod key;
pub mod leaf;
pub mod ranges;
pub mod split;
pub mod structure;
pub mod tree;
pub mod tuple;
