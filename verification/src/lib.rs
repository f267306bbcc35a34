//! Single-pattern substring search over bytes: a matcher that indexes the
//! pattern's bytes and scans the content block by block, and a linear
//! scan that serves as its reference.

pub mod search;
