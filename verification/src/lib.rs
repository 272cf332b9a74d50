//! cjson: a verified JSON library (version 1.7.19): parsing, printing,
//! tree manipulation, RFC 6901 pointers, RFC 6902 patches and
//! RFC 7396 merge patches.
//!
//! The document tree is an owned value (`model::CJson`) whose children are
//! held in a vector. Number values are carried as IEEE-754 bit patterns; the
//! two operations on them that need floating point (decimal text to double,
//! and the epsilon comparison of two doubles) are supplied by the caller as
//! functions, and every contract is stated relative to them.

pub mod model;
pub mod text;
pub mod number;
pub mod parse;
pub mod float;
pub mod print;
pub mod manip;
pub mod fixtures;
pub mod utils;
pub mod roundtrip;
pub mod mergelaw;
pub mod patchlaw;
