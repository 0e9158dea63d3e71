//! The encoding container: what one tokenized sequence carries to a
//! caller — ids, token strings, character offsets and the usual masks.

use vstd::prelude::*;

verus! {

/// Character offset of token `k` within the concatenation of the
/// first `k` token strings.
pub open spec fn char_offset(pairs: Seq<(u32, String)>, k: int) -> int
    decreases k,
{
    if k <= 0 {
        0
    } else {
        char_offset(pairs, k - 1) + pairs[k - 1].1@.len()
    }
}

proof fn lemma_char_offset_mono(pairs: Seq<(u32, String)>, a: int, b: int)
    requires
        0 <= a <= b,
    ensures
        char_offset(pairs, a) <= char_offset(pairs, b),
    decreases b - a,
{
    if a < b {
        lemma_char_offset_mono(pairs, a, b - 1);
    }
}

/// One tokenized sequence, presented to callers: ids and token
/// strings side by side, each token's character span within the
/// concatenated text, and the per-token annotations.
pub struct CEncoding {
    pub ids: Vec<u32>,
    pub tokens: Vec<String>,
    pub offsets: Vec<(u32, u32)>,
    pub type_ids: Vec<u32>,
    pub attention_mask: Vec<u32>,
    pub special_tokens_mask: Vec<u32>,
    pub word_ids: Vec<Option<u32>>,
    pub sequence_ids: Vec<Option<usize>>,
    pub overflowing: Vec<CEncoding>,
}

impl CEncoding {
    /// An encoding of nothing.
    pub fn new() -> (r: CEncoding)
        ensures
            r.ids@.len() == 0,
            r.tokens@.len() == 0,
            r.offsets@.len() == 0,
            r.overflowing@.len() == 0,
    {
        CEncoding {
            ids: Vec::new(),
            tokens: Vec::new(),
            offsets: Vec::new(),
            type_ids: Vec::new(),
            attention_mask: Vec::new(),
            special_tokens_mask: Vec::new(),
            word_ids: Vec::new(),
            sequence_ids: Vec::new(),
            overflowing: Vec::new(),
        }
    }

    /// Wraps the `(id, token)` pairs of one tokenized sequence: each
    /// token's offsets span its characters in the concatenated text,
    /// every position is attended to, and no position is special,
    /// typed, or tied to a word or sequence.
    pub fn from_pairs(pairs: &Vec<(u32, String)>) -> (r: CEncoding)
        requires
            char_offset(pairs@, pairs@.len() as int) <= u32::MAX,
        ensures
            r.ids@.len() == pairs@.len(),
            r.tokens@.len() == pairs@.len(),
            r.offsets@.len() == pairs@.len(),
            r.type_ids@.len() == pairs@.len(),
            r.attention_mask@.len() == pairs@.len(),
            r.special_tokens_mask@.len() == pairs@.len(),
            r.word_ids@.len() == pairs@.len(),
            r.sequence_ids@.len() == pairs@.len(),
            r.overflowing@.len() == 0,
            forall|i: int|
                0 <= i < pairs@.len() ==> #[trigger] r.ids@[i] == pairs@[i].0 && r.tokens@[i]@
                    == pairs@[i].1@ && r.offsets@[i].0 == char_offset(pairs@, i)
                    && r.offsets@[i].1 == char_offset(pairs@, i + 1) && r.type_ids@[i] == 0
                    && r.attention_mask@[i] == 1 && r.special_tokens_mask@[i] == 0
                    && r.word_ids@[i] is None && r.sequence_ids@[i] is None,
    {
        let n = pairs.len();
        let mut ids: Vec<u32> = Vec::new();
        let mut tokens: Vec<String> = Vec::new();
        let mut offsets: Vec<(u32, u32)> = Vec::new();
        let mut type_ids: Vec<u32> = Vec::new();
        let mut attention_mask: Vec<u32> = Vec::new();
        let mut special_tokens_mask: Vec<u32> = Vec::new();
        let mut word_ids: Vec<Option<u32>> = Vec::new();
        let mut sequence_ids: Vec<Option<usize>> = Vec::new();
        let mut pos: u32 = 0;
        let mut i: usize = 0;
        while i < n
            invariant
                n == pairs@.len(),
                char_offset(pairs@, n as int) <= u32::MAX,
                0 <= i <= n,
                pos == char_offset(pairs@, i as int),
                ids@.len() == i,
                tokens@.len() == i,
                offsets@.len() == i,
                type_ids@.len() == i,
                attention_mask@.len() == i,
                special_tokens_mask@.len() == i,
                word_ids@.len() == i,
                sequence_ids@.len() == i,
                forall|k: int|
                    0 <= k < i ==> #[trigger] ids@[k] == pairs@[k].0 && tokens@[k]@ == pairs@[k].1@
                        && offsets@[k].0 == char_offset(pairs@, k) && offsets@[k].1 == char_offset(
                        pairs@,
                        k + 1,
                    ) && type_ids@[k] == 0 && attention_mask@[k] == 1 && special_tokens_mask@[k]
                        == 0 && word_ids@[k] is None && sequence_ids@[k] is None,
            decreases n - i,
        {
            let entry_token: &str = pairs[i].1.as_str();
            proof {
                assert(entry_token@ == pairs@[i as int].1@);
            }
            let tok_len = entry_token.unicode_len();
            proof {
                lemma_char_offset_mono(pairs@, i as int + 1, n as int);
                assert(char_offset(pairs@, i as int + 1) == char_offset(pairs@, i as int)
                    + pairs@[i as int].1@.len());
            }
            let end: u32 = pos + (tok_len as u32);
            proof {
                assert(end == char_offset(pairs@, i as int + 1));
            }
            ids.push(pairs[i].0);
            tokens.push(pairs[i].1.clone());
            offsets.push((pos, end));
            type_ids.push(0);
            attention_mask.push(1);
            special_tokens_mask.push(0);
            word_ids.push(None);
            sequence_ids.push(None);
            pos = end;
            i += 1;
        }
        CEncoding {
            ids,
            tokens,
            offsets,
            type_ids,
            attention_mask,
            special_tokens_mask,
            word_ids,
            sequence_ids,
            overflowing: Vec::new(),
        }
    }

    /// Number of tokens.
    pub fn len(&self) -> (r: usize)
        ensures
            r == self.ids@.len(),
    {
        self.ids.len()
    }
}

} // verus!
