//! The immutable model configuration, fixed at build time.

use vstd::prelude::*;

verus! {

/// Dropout probabilities are fractions with this denominator: a setting
/// of `DROPOUT_SCALE` means 1.0, dropping every candidate merge.
pub const DROPOUT_SCALE: u32 = 10000;

/// Cache capacity used when the caller does not pick one.
pub const DEFAULT_CACHE_CAPACITY: usize = 10000;

/// Build-time configuration of the engine.  Encode and decode calls
/// read it and never change it.
pub struct BpeConfig {
    /// Token substituted for an unmappable character, when set.
    pub unk_token: Option<String>,
    /// Marker put before every symbol but the word's first.
    pub continuing_subword_prefix: Option<String>,
    /// Marker put after the word's last symbol.
    pub end_of_word_suffix: Option<String>,
    /// Collapse a run of consecutive unknown substitutions into one.
    pub fuse_unk: bool,
    /// Decompose an unmappable character into its UTF-8 bytes, each
    /// looked up as a `<0xXX>` token.
    pub byte_fallback: bool,
    /// Probability of skipping a candidate merge, in units of
    /// 1/`DROPOUT_SCALE`; `None` and `Some(0)` disable dropout.
    pub dropout: Option<u32>,
    /// Greatest number of resident cache entries.
    pub cache_capacity: usize,
}

impl BpeConfig {
    /// The continuing-subword prefix as a character sequence; empty
    /// when none is configured.
    pub open spec fn prefix_view(self) -> Seq<char> {
        match self.continuing_subword_prefix {
            None => Seq::empty(),
            Some(p) => p@,
        }
    }

    /// The end-of-word suffix as a character sequence; empty when none
    /// is configured.
    pub open spec fn suffix_view(self) -> Seq<char> {
        match self.end_of_word_suffix {
            None => Seq::empty(),
            Some(s) => s@,
        }
    }

    /// The dropout setting lies in range.
    pub open spec fn dropout_valid(self) -> bool {
        match self.dropout {
            None => true,
            Some(d) => d <= DROPOUT_SCALE,
        }
    }

    /// Dropout actually takes effect: set and not zero.
    pub open spec fn dropout_active(self) -> bool {
        match self.dropout {
            None => false,
            Some(d) => d > 0,
        }
    }

    /// A configuration with no markers, no unknown token, no byte
    /// fallback, no dropout, and the default cache capacity.
    pub fn new() -> (r: BpeConfig)
        ensures
            r.unk_token is None,
            r.continuing_subword_prefix is None,
            r.end_of_word_suffix is None,
            !r.fuse_unk,
            !r.byte_fallback,
            r.dropout is None,
            r.cache_capacity == DEFAULT_CACHE_CAPACITY,
    {
        BpeConfig {
            unk_token: None,
            continuing_subword_prefix: None,
            end_of_word_suffix: None,
            fuse_unk: false,
            byte_fallback: false,
            dropout: None,
            cache_capacity: DEFAULT_CACHE_CAPACITY,
        }
    }
}

} // verus!
