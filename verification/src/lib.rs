//! A byte-pair-encoding (BPE) tokenization core.
//!
//! The library owns a vocabulary (a bijection between token strings and
//! 32-bit ids), an ordered table of merge rules, and a bounded cache of
//! word tokenizations.  It exposes building an engine from a vocabulary
//! and a merge list, tokenizing one word by greedy rank-ordered merging,
//! encoding a pre-split sequence of words, and decoding ids back to text.

pub mod bytes;
pub mod cache;
pub mod config;
pub mod encoding;
pub mod engine;
pub mod errors;
pub mod laws;
pub mod merges;
pub mod merges_text;
pub mod prng;
pub mod symbols;
pub mod vocab;

pub use config::BpeConfig;
pub use encoding::CEncoding;
pub use engine::BpeEngine;
pub use errors::BpeError;
pub use errors::LastError;
pub use vocab::Vocab;
