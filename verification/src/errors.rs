//! Error values reported by the engine, and an explicit last-error slot
//! that an embedding layer may thread through its calls.

use vstd::prelude::*;

verus! {

/// Everything that can go wrong while building an engine or while
/// tokenizing or decoding with one.  Build-time errors are fatal to that
/// construction attempt; per-call errors leave the engine usable.
#[derive(Clone, Copy, Debug, PartialEq, Eq, Structural)]
pub enum BpeError {
    /// A merge rule whose left token, right token, or merged result is
    /// absent from the vocabulary; carries the rule's rank (its position
    /// in the merge list).
    InvalidMergeRule(usize),
    /// The configured unknown token is not in the vocabulary.
    UnknownTokenNotInVocab,
    /// A dropout setting outside the accepted range.
    InvalidDropout,
    /// A word holds a character that no vocabulary entry covers, and
    /// neither byte fallback nor an unknown token is configured.
    UnmappableCharacter,
    /// A decode id with no vocabulary entry; carries that id.
    UnknownId(u32),
}

impl BpeError {
    /// A human-readable description of the error.
    pub fn message(&self) -> String {
        match self {
            BpeError::InvalidMergeRule(_) => String::from_str(
                "merge rule references a token absent from the vocabulary",
            ),
            BpeError::UnknownTokenNotInVocab => String::from_str(
                "unknown token is not in the vocabulary",
            ),
            BpeError::InvalidDropout => String::from_str("dropout must lie between 0 and 1"),
            BpeError::UnmappableCharacter => String::from_str(
                "word holds a character the vocabulary cannot map",
            ),
            BpeError::UnknownId(_) => String::from_str("id has no vocabulary entry"),
        }
    }
}

/// An explicit slot for the message of the most recent error, for an
/// embedding layer that reports errors out of band.  The core itself
/// never reads it; every core operation reports errors in its result.
pub struct LastError {
    pub message: Option<String>,
}

impl LastError {
    /// A slot holding no message.
    pub fn new() -> (r: LastError)
        ensures
            r.message is None,
    {
        LastError { message: None }
    }

    /// True when a message is present.
    pub fn is_set(&self) -> (r: bool)
        ensures
            r == (self.message is Some),
    {
        self.message.is_some()
    }

    /// The stored message, if any.
    pub fn get(&self) -> (r: Option<&String>)
        ensures
            match r {
                Some(m) => self.message == Some(*m),
                None => self.message is None,
            },
    {
        self.message.as_ref()
    }
}

/// Records `message` as the most recent error.
pub fn set_last_error(slot: &mut LastError, message: String)
    ensures
        final (slot).message == Some(message),
{
    slot.message = Some(message);
}

/// Empties the slot.
pub fn clear_last_error(slot: &mut LastError)
    ensures
        final (slot).message is None,
{
    slot.message = None;
}

} // verus!
