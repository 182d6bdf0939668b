//! A small color-scheme library: a keyed store of schemes, flavors and
//! palettes, together with a fuzzy filter over flavor names.

pub mod assoc;
pub mod store;
pub mod filter;

