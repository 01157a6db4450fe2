//! Byte-level BPE tokenizer and the JSON reader that loads it.
use vstd::prelude::*;

pub mod bpe;
pub mod json;
pub mod json_laws;
pub mod laws;
pub mod merge_laws;
pub mod vocab_laws;
pub mod words;

pub use bpe::{Error, Tokenizer};

verus! {

} // verus!
