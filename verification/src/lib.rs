//! Model-loading and tokenization core of a local LLM inference engine.
//!
//! The crate parses a binary model-container format into typed metadata and
//! tensor descriptors, and converts between text and the integer token
//! sequences an inference engine consumes: a vocabulary built by sequential
//! appends, a dynamic-programming tokenizer with its inverse decoder, a
//! sparse token-bias table, and a facade that can also dispatch to an
//! external tokenizer backend.

use vstd::prelude::*;

pub mod bias;
pub mod embedded;
pub mod facade;
pub mod gguf;

verus! {

/// The identifier of a token in a tokenizer.
pub type TokenId = u32;

} // verus!
