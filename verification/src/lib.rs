//! A small JSON codec: a byte-level tokenizer, a recursive-descent parser into a
//! value tree, and a streaming writer with pretty and compact output.
//!
//! Floating-point numbers are carried as their IEEE-754 bit pattern together with
//! the decimal text that stands for them in JSON output; turning text into a float
//! and a float into text is left to the caller, who hands a decoder to the reader.
use vstd::prelude::*;

pub mod dialect;
pub mod laws;
pub mod lex;
pub mod num;
pub mod parse;
pub mod read;
pub mod render;
pub mod roundtrip;
pub mod text;
pub mod value;
pub mod write;

pub use dialect::Dialect;
pub use read::{Error, Reader};
pub use value::Value;

verus! {

/// A value that owns all of its text.
pub type ValOwn = Value<'static>;

} // verus!
