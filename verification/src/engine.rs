//! The engine: vocabulary, merge table, configuration and cache,
//! built once and immutable afterwards but for the cache and the
//! dropout generator.

use vstd::prelude::*;
use crate::cache::Cache;
use crate::cache::cache_lookup;
use crate::config::BpeConfig;
use crate::config::DROPOUT_SCALE;
use crate::errors::BpeError;
use crate::merges::MergeEntry;
use crate::merges::merge_all;
use crate::merges::merges_wf;
use crate::merges::strip_prefix;
use crate::prng::XorShift;
use crate::symbols::SymEnv;
use crate::symbols::fuse_symbols;
use crate::symbols::init_symbols;
use crate::vocab::Vocab;
use crate::vocab::lemma_token_then_id;
use crate::vocab::lookup_id;
use crate::vocab::lookup_token;
use crate::vocab::spec_decode;

verus! {

/// The rule `(l, r)` can enter the table: both sides and the merged
/// result are vocabulary tokens.
pub open spec fn rule_valid(v: Seq<(String, u32)>, prefix: Seq<char>, l: Seq<char>, r: Seq<
    char,
>) -> bool {
    lookup_token(v, l) is Some && lookup_token(v, r) is Some && lookup_token(
        v,
        l + strip_prefix(prefix, r),
    ) is Some
}

/// The table entry that the rule `(l, r)` becomes.
pub open spec fn rule_entry(v: Seq<(String, u32)>, prefix: Seq<char>, l: Seq<char>, r: Seq<
    char,
>) -> MergeEntry {
    MergeEntry {
        left: lookup_token(v, l)->Some_0,
        right: lookup_token(v, r)->Some_0,
        merged: lookup_token(v, l + strip_prefix(prefix, r))->Some_0,
    }
}

/// The configured unknown token, if any, is a vocabulary token.
pub open spec fn unk_ok(v: Seq<(String, u32)>, config: BpeConfig) -> bool {
    match config.unk_token {
        None => true,
        Some(t) => lookup_token(v, t@) is Some,
    }
}

/// The immutable part of an engine, which tokenization is a function
/// of: the cache and the dropout generator are deliberately absent.
pub struct ModelView {
    pub vocab: Seq<(String, u32)>,
    pub merges: Seq<MergeEntry>,
    pub prefix: Seq<char>,
    pub suffix: Seq<char>,
    pub unk_id: Option<u32>,
    pub fuse_unk: bool,
    pub byte_fallback: bool,
}

impl ModelView {
    /// The model's symbol-resolution environment.
    pub open spec fn sym_env(self) -> SymEnv {
        SymEnv {
            vocab: self.vocab,
            prefix: self.prefix,
            suffix: self.suffix,
            unk_id: self.unk_id,
            byte_fallback: self.byte_fallback,
        }
    }

    /// The unknown id's value, zero when none is configured (the value
    /// is never read in that case: no unknown marker arises).
    pub open spec fn unk_value(self) -> u32 {
        match self.unk_id {
            None => 0,
            Some(u) => u,
        }
    }
}

/// What one word tokenizes to: initial symbols, unknown fusing, then
/// the merge loop to its fixed point.  Dropout plays no part here;
/// this is the deterministic tokenization that the cache may remember.
pub open spec fn spec_tokenize(m: ModelView, w: Seq<char>) -> Result<Seq<u32>, BpeError> {
    match init_symbols(m.sym_env(), w) {
        Err(e) => Err(e),
        Ok(syms) => Ok(merge_all(m.merges, fuse_symbols(m.unk_value(), m.fuse_unk, syms))),
    }
}

/// The ids of a pair list, in order.
pub open spec fn pair_ids(ps: Seq<(u32, String)>) -> Seq<u32> {
    Seq::new(ps.len(), |i: int| ps[i].0)
}

/// Every resident cache entry stores exactly what tokenization would
/// recompute for its key.
pub open spec fn cache_consistent(m: ModelView, entries: Seq<(String, Vec<u32>)>) -> bool {
    forall|w: Seq<char>|
        (#[trigger] cache_lookup(entries, w)) is Some ==> spec_tokenize(m, w) == Ok::<
            Seq<u32>,
            BpeError,
        >(cache_lookup(entries, w)->Some_0)
}

/// The engine.
pub struct BpeEngine {
    pub vocab: Vocab,
    pub merges: Vec<MergeEntry>,
    pub config: BpeConfig,
    pub unk_id: Option<u32>,
    pub cache: Cache,
    pub rng: XorShift,
}

impl BpeEngine {
    /// The immutable model that this engine's contracts speak of.
    pub open spec fn model(self) -> ModelView {
        ModelView {
            vocab: self.vocab@,
            merges: self.merges@,
            prefix: self.config.prefix_view(),
            suffix: self.config.suffix_view(),
            unk_id: self.unk_id,
            fuse_unk: self.config.fuse_unk,
            byte_fallback: self.config.byte_fallback,
        }
    }

    /// The engine's invariant: a bijective vocabulary, a merge table
    /// that agrees with it, a resolved unknown id, a dropout setting
    /// in range, and a consistent cache.
    pub open spec fn wf(self) -> bool {
        &&& self.vocab.wf()
        &&& merges_wf(self.vocab@, self.config.prefix_view(), self.merges@)
        &&& match self.config.unk_token {
            None => self.unk_id is None,
            Some(t) => self.unk_id is Some && lookup_token(self.vocab@, t@) == self.unk_id,
        }
        &&& self.config.dropout_valid()
        &&& self.cache.wf()
        &&& self.cache.capacity == self.config.cache_capacity
        &&& cache_consistent(self.model(), self.cache.entries@)
    }

    /// Builds an engine.  The checks run in this order: the dropout
    /// range, then the unknown token's presence, then each merge rule
    /// in rank order; the first failure is returned.  On success the
    /// cache starts empty.
    pub fn build(vocab: Vocab, merges: Vec<(String, String)>, config: BpeConfig) -> (r: Result<
        BpeEngine,
        BpeError,
    >)
        requires
            vocab.wf(),
        ensures
            match r {
                Err(BpeError::InvalidDropout) => !config.dropout_valid(),
                Err(BpeError::UnknownTokenNotInVocab) => config.dropout_valid() && !unk_ok(
                    vocab@,
                    config,
                ),
                Err(BpeError::InvalidMergeRule(i)) => config.dropout_valid() && unk_ok(
                    vocab@,
                    config,
                ) && 0 <= i < merges@.len() && !rule_valid(
                    vocab@,
                    config.prefix_view(),
                    merges@[i as int].0@,
                    merges@[i as int].1@,
                ) && (forall|j: int|
                    0 <= j < i ==> rule_valid(
                        vocab@,
                        config.prefix_view(),
                        (#[trigger] merges@[j]).0@,
                        merges@[j].1@,
                    )),
                Err(BpeError::UnmappableCharacter) => false,
                Err(BpeError::UnknownId(_)) => false,
                Ok(e) => {
                    &&& config.dropout_valid()
                    &&& unk_ok(vocab@, config)
                    &&& forall|j: int|
                        0 <= j < merges@.len() ==> rule_valid(
                            vocab@,
                            config.prefix_view(),
                            (#[trigger] merges@[j]).0@,
                            merges@[j].1@,
                        )
                    &&& e.wf()
                    &&& e.vocab@ == vocab@
                    &&& e.config == config
                    &&& e.unk_id == (match config.unk_token {
                        None => None::<u32>,
                        Some(t) => lookup_token(vocab@, t@),
                    })
                    &&& e.merges@.len() == merges@.len()
                    &&& forall|j: int|
                        0 <= j < merges@.len() ==> #[trigger] e.merges@[j] == rule_entry(
                            vocab@,
                            config.prefix_view(),
                            merges@[j].0@,
                            merges@[j].1@,
                        )
                    &&& e.cache.entries@.len() == 0
                },
            },
    {
        match config.dropout {
            Some(d) => if d > DROPOUT_SCALE {
                return Err(BpeError::InvalidDropout);
            },
            None => {},
        }
        let unk_id: Option<u32> = match &config.unk_token {
            None => None,
            Some(t) => match vocab.token_to_id(t.as_str()) {
                Some(id) => Some(id),
                None => {
                    return Err(BpeError::UnknownTokenNotInVocab);
                },
            },
        };
        proof {
            reveal_strlit("");
        }
        let pfx: &str = match &config.continuing_subword_prefix {
            Some(p) => p.as_str(),
            None => "",
        };
        proof {
            assert(""@ =~= Seq::<char>::empty());
            assert(pfx@ == config.prefix_view());
        }
        let mut table: Vec<MergeEntry> = Vec::new();
        let mut i: usize = 0;
        while i < merges.len()
            invariant
                vocab.wf(),
                config.dropout_valid(),
                unk_ok(vocab@, config),
                pfx@ == config.prefix_view(),
                0 <= i <= merges@.len(),
                table@.len() == i,
                forall|j: int|
                    0 <= j < i ==> rule_valid(
                        vocab@,
                        config.prefix_view(),
                        (#[trigger] merges@[j]).0@,
                        merges@[j].1@,
                    ),
                forall|j: int|
                    0 <= j < i ==> #[trigger] table@[j] == rule_entry(
                        vocab@,
                        config.prefix_view(),
                        merges@[j].0@,
                        merges@[j].1@,
                    ),
            decreases merges@.len() - i,
        {
            let left = match vocab.token_to_id(merges[i].0.as_str()) {
                Some(id) => id,
                None => {
                    return Err(BpeError::InvalidMergeRule(i));
                },
            };
            let right = match vocab.token_to_id(merges[i].1.as_str()) {
                Some(id) => id,
                None => {
                    return Err(BpeError::InvalidMergeRule(i));
                },
            };
            let mt = merged_token(&merges[i].0, pfx, &merges[i].1);
            let merged = match vocab.token_to_id(mt.as_str()) {
                Some(id) => id,
                None => {
                    return Err(BpeError::InvalidMergeRule(i));
                },
            };
            table.push(MergeEntry { left, right, merged });
            i += 1;
        }
        let cap = config.cache_capacity;
        let engine = BpeEngine {
            vocab,
            merges: table,
            config,
            unk_id,
            cache: Cache::new(cap),
            rng: XorShift::new(0),
        };
        proof {
            assert forall|k: int| 0 <= k < engine.merges@.len() implies {
                let e = #[trigger] engine.merges@[k];
                lookup_id(engine.vocab@, e.left) is Some && lookup_id(engine.vocab@, e.right)
                    is Some && lookup_id(engine.vocab@, e.merged) == Some(
                    lookup_id(engine.vocab@, e.left)->Some_0 + strip_prefix(
                        engine.config.prefix_view(),
                        lookup_id(engine.vocab@, e.right)->Some_0,
                    ),
                )
            } by {
                let l = engine.merges@[k];
                lemma_token_then_id(engine.vocab@, merges@[k].0@);
                lemma_token_then_id(engine.vocab@, merges@[k].1@);
                lemma_token_then_id(
                    engine.vocab@,
                    merges@[k].0@ + strip_prefix(engine.config.prefix_view(), merges@[k].1@),
                );
            }
            assert(cache_consistent(engine.model(), engine.cache.entries@));
        }
        Ok(engine)
    }

    /// The id of `token`, if it is a vocabulary token.
    pub fn token_to_id(&self, token: &str) -> (r: Option<u32>)
        ensures
            r == lookup_token(self.vocab@, token@),
    {
        self.vocab.token_to_id(token)
    }

    /// The token of `id`, if `id` is a vocabulary id.
    pub fn id_to_token(&self, id: u32) -> (r: Option<String>)
        ensures
            match r {
                Some(t) => lookup_id(self.vocab@, id) == Some(t@),
                None => lookup_id(self.vocab@, id) is None,
            },
    {
        self.vocab.id_to_token(id)
    }

    /// Number of vocabulary entries.
    pub fn vocab_size(&self) -> (r: usize)
        ensures
            r == self.vocab@.len(),
    {
        self.vocab.len()
    }

    /// Empties the cache; the model and the configuration stay as they
    /// are, so later results do not change.
    pub fn clear_cache(&mut self)
        requires
            old(self).wf(),
        ensures
            final (self).wf(),
            final (self).model() == old(self).model(),
            final (self).config == old(self).config,
            final (self).rng == old(self).rng,
            final (self).cache.entries@.len() == 0,
    {
        self.cache.clear();
    }

    /// Restarts the dropout generator from `seed`; nothing else
    /// changes.
    pub fn reseed(&mut self, seed: u32)
        requires
            old(self).wf(),
        ensures
            final (self).wf(),
            final (self).model() == old(self).model(),
            final (self).config == old(self).config,
            final (self).cache == old(self).cache,
    {
        self.rng = XorShift::new(seed);
    }

    /// Decodes `ids` to text: each id's token, concatenated in order;
    /// the first id without a vocabulary entry is the error.
    pub fn decode(&self, ids: &Vec<u32>) -> (r: Result<String, BpeError>)
        ensures
            match r {
                Ok(s) => spec_decode(self.vocab@, ids@) == Ok::<Seq<char>, BpeError>(s@),
                Err(e) => spec_decode(self.vocab@, ids@) == Err::<Seq<char>, BpeError>(e),
            },
    {
        let ghost v = self.vocab@;
        let ghost s = ids@;
        let mut out = String::new();
        let mut k: usize = 0;
        proof {
            assert(s.skip(0) =~= s);
        }
        while k < ids.len()
            invariant
                self.vocab@ == v,
                ids@ == s,
                0 <= k <= s.len(),
                match spec_decode(v, s.skip(k as int)) {
                    Ok(rest) => spec_decode(v, s) == Ok::<Seq<char>, BpeError>(out@ + rest),
                    Err(e) => spec_decode(v, s) == Err::<Seq<char>, BpeError>(e),
                },
            decreases s.len() - k,
        {
            proof {
                assert(s.skip(k as int)[0] == s[k as int]);
            }
            match self.vocab.id_to_token(ids[k]) {
                None => {
                    return Err(BpeError::UnknownId(ids[k]));
                },
                Some(t) => {
                    let ghost out0 = out@;
                    out.append(t.as_str());
                    proof {
                        assert(s.skip(k as int).drop_first() =~= s.skip(k as int + 1));
                        if spec_decode(v, s.skip(k as int + 1)) is Ok {
                            let rest = spec_decode(v, s.skip(k as int + 1))->Ok_0;
                            assert(out0 + (t@ + rest) =~= (out0 + t@) + rest);
                        }
                    }
                },
            }
            k += 1;
        }
        proof {
            assert(s.skip(s.len() as int) =~= Seq::<u32>::empty());
            assert(out@ + Seq::<char>::empty() =~= out@);
        }
        Ok(out)
    }

    /// Tokenizes one pre-split word to its `(id, token)` pairs.
    ///
    /// With dropout disabled the result is exactly
    /// [`spec_tokenize`] of the engine's immutable model — the same for
    /// every call and whatever the cache holds — and is remembered in
    /// the cache.  With dropout active the cache is left alone and the
    /// chosen merges vary, but the word errs exactly when it would
    /// without dropout, and every returned id is a vocabulary id paired
    /// with its token.
    pub fn tokenize_word(&mut self, word: &str) -> (r: Result<Vec<(u32, String)>, BpeError>)
        requires
            old(self).wf(),
        ensures
            final (self).wf(),
            final (self).model() == old(self).model(),
            final (self).config == old(self).config,
            match r {
                Err(e) => spec_tokenize(old(self).model(), word@) == Err::<Seq<u32>, BpeError>(e),
                Ok(pairs) => {
                    &&& spec_tokenize(old(self).model(), word@) is Ok
                    &&& forall|i: int|
                        0 <= i < pairs@.len() ==> lookup_id(
                            old(self).model().vocab,
                            (#[trigger] pairs@[i]).0,
                        ) == Some(pairs@[i].1@)
                    &&& !old(self).config.dropout_active() ==> {
                        let ids = spec_tokenize(old(self).model(), word@)->Ok_0;
                        pairs@.len() == ids.len() && forall|i: int|
                            0 <= i < ids.len() ==> (#[trigger] pairs@[i]).0 == ids[i]
                    }
                },
            },
            old(self).config.dropout_active() ==> final (self).cache == old(self).cache,
            old(self).config.dropout_active() && old(self).model().prefix == Seq::<char>::empty()
                ==> match r {
                Ok(pairs) => spec_decode(old(self).model().vocab, pair_ids(pairs@)) == spec_decode(
                    old(self).model().vocab,
                    spec_tokenize(old(self).model(), word@)->Ok_0,
                ),
                Err(_) => true,
            },
    {
        let ghost m = self.model();
        proof {
            reveal_strlit("");
            assert(""@ =~= Seq::<char>::empty());
            match m.unk_id {
                Some(u) => {
                    match &self.config.unk_token {
                        Some(t) => {
                            lemma_token_then_id(self.vocab@, t@);
                        },
                        None => {},
                    }
                },
                None => {},
            }
        }
        let threshold: u32 = match self.config.dropout {
            Some(d) => d,
            None => 0,
        };
        proof {
            assert(self.config.dropout_active() == (threshold > 0));
        }
        if threshold == 0 {
            let mut cached: Option<Vec<u32>> = None;
            match self.cache.get(word) {
                Some(v) => {
                    cached = Some(copy_ids(v));
                },
                None => {},
            }
            match cached {
                Some(ids) => {
                    proof {
                        assert(spec_tokenize(m, word@) == Ok::<Seq<u32>, BpeError>(ids@));
                        crate::laws::lemma_tokenize_ids_in_vocab(m, word@);
                    }
                    return Ok(ids_to_pairs(&self.vocab, &ids));
                },
                None => {},
            }
            let pfx: &str = match &self.config.continuing_subword_prefix {
                Some(p) => p.as_str(),
                None => "",
            };
            let sfx: &str = match &self.config.end_of_word_suffix {
                Some(sx) => sx.as_str(),
                None => "",
            };
            proof {
                assert(m.sym_env() == (SymEnv {
                    vocab: self.vocab@,
                    prefix: pfx@,
                    suffix: sfx@,
                    unk_id: self.unk_id,
                    byte_fallback: self.config.byte_fallback,
                }));
            }
            let syms = match crate::symbols::initial_symbols(
                &self.vocab,
                pfx,
                sfx,
                self.unk_id,
                self.config.byte_fallback,
                word,
            ) {
                Err(e) => {
                    return Err(e);
                },
                Ok(s) => s,
            };
            let unk_val: u32 = match self.unk_id {
                Some(u) => u,
                None => 0,
            };
            let mut ids = crate::symbols::fuse_symbols_exec(unk_val, self.config.fuse_unk, &syms);
            crate::merges::merge_word(&self.merges, &mut ids);
            proof {
                assert(spec_tokenize(m, word@) == Ok::<Seq<u32>, BpeError>(ids@));
            }
            let ids_copy = copy_ids(&ids);
            self.cache.insert(word, ids_copy);
            proof {
                assert(self.model() == m);
                assert forall|w2: Seq<char>|
                    (#[trigger] cache_lookup(self.cache.entries@, w2)) is Some implies
                    spec_tokenize(m, w2) == Ok::<Seq<u32>, BpeError>(
                    cache_lookup(self.cache.entries@, w2)->Some_0,
                ) by {
                    if w2 == word@ && (cache_lookup(old(self).cache.entries@, word@) is Some
                        || old(self).cache.entries@.len() < old(self).cache.capacity) {
                    } else {
                        assert(cache_lookup(self.cache.entries@, w2) == cache_lookup(
                            old(self).cache.entries@,
                            w2,
                        ));
                    }
                }
                crate::laws::lemma_tokenize_ids_in_vocab(m, word@);
            }
            Ok(ids_to_pairs(&self.vocab, &ids))
        } else {
            let pfx: &str = match &self.config.continuing_subword_prefix {
                Some(p) => p.as_str(),
                None => "",
            };
            let sfx: &str = match &self.config.end_of_word_suffix {
                Some(sx) => sx.as_str(),
                None => "",
            };
            proof {
                assert(m.sym_env() == (SymEnv {
                    vocab: self.vocab@,
                    prefix: pfx@,
                    suffix: sfx@,
                    unk_id: self.unk_id,
                    byte_fallback: self.config.byte_fallback,
                }));
            }
            let syms = match crate::symbols::initial_symbols(
                &self.vocab,
                pfx,
                sfx,
                self.unk_id,
                self.config.byte_fallback,
                word,
            ) {
                Err(e) => {
                    return Err(e);
                },
                Ok(s) => s,
            };
            let unk_val: u32 = match self.unk_id {
                Some(u) => u,
                None => 0,
            };
            let mut ids = crate::symbols::fuse_symbols_exec(unk_val, self.config.fuse_unk, &syms);
            let ghost fused = ids@;
            proof {
                crate::laws::lemma_fused_ids_in_vocab(m, word@);
            }
            crate::merges::merge_word_dropout(
                &self.merges,
                &mut ids,
                &mut self.rng,
                threshold,
                Ghost(self.vocab@),
            );
            proof {
                assert forall|i: int| 0 <= i < ids@.len() implies lookup_id(
                    m.vocab,
                    #[trigger] ids@[i],
                ) is Some by {
                    if fused.contains(ids@[i]) {
                        let j = choose|j: int| 0 <= j < fused.len() && fused[j] == ids@[i];
                        assert(lookup_id(m.vocab, fused[j]) is Some);
                    } else {
                        let k = choose|k: int|
                            0 <= k < self.merges@.len() && self.merges@[k].merged == ids@[i];
                        assert(lookup_id(m.vocab, self.merges@[k].merged) is Some);
                    }
                }
                assert(spec_tokenize(m, word@) is Ok);
                if m.prefix == Seq::<char>::empty() {
                    crate::laws::lemma_merge_all_decode(m.vocab, m.merges, fused);
                }
            }
            let pairs = ids_to_pairs(&self.vocab, &ids);
            proof {
                if m.prefix == Seq::<char>::empty() {
                    assert(pair_ids(pairs@) =~= ids@);
                }
            }
            Ok(pairs)
        }
    }

    /// Encodes a pre-tokenized word sequence: each word's ids in
    /// order.  With dropout disabled the result is exactly
    /// [`spec_encode`] of the model; with dropout active the sequence
    /// errs exactly when it would without dropout, and every id is a
    /// vocabulary id.
    pub fn encode_sequence(&mut self, words: &Vec<String>) -> (r: Result<Vec<u32>, BpeError>)
        requires
            old(self).wf(),
        ensures
            final (self).wf(),
            final (self).model() == old(self).model(),
            final (self).config == old(self).config,
            match r {
                Err(e) => spec_encode(old(self).model(), words@) == Err::<Seq<u32>, BpeError>(e),
                Ok(ids) => {
                    &&& spec_encode(old(self).model(), words@) is Ok
                    &&& forall|i: int|
                        0 <= i < ids@.len() ==> lookup_id(
                            old(self).model().vocab,
                            #[trigger] ids@[i],
                        ) is Some
                    &&& !old(self).config.dropout_active() ==> spec_encode(
                        old(self).model(),
                        words@,
                    ) == Ok::<Seq<u32>, BpeError>(ids@)
                },
            },
    {
        let ghost m = self.model();
        let ghost ws = words@;
        let mut acc: Vec<u32> = Vec::new();
        let mut k: usize = 0;
        while k < words.len()
            invariant
                self.wf(),
                m == old(self).model(),
                self.model() == m,
                self.config == old(self).config,
                old(self).config.dropout_active() == self.config.dropout_active(),
                words@ == ws,
                0 <= k <= ws.len(),
                forall|i: int| 0 <= i < acc@.len() ==> lookup_id(m.vocab, #[trigger] acc@[i]) is Some,
                match spec_encode_from(m, ws, k as int) {
                    Err(e) => spec_encode(m, ws) == Err::<Seq<u32>, BpeError>(e),
                    Ok(rest) => spec_encode(m, ws) is Ok && (!self.config.dropout_active()
                        ==> spec_encode(m, ws) == Ok::<Seq<u32>, BpeError>(acc@ + rest)),
                },
            decreases ws.len() - k,
        {
            let ghost acc0 = acc@;
            match self.tokenize_word(words[k].as_str()) {
                Err(e) => {
                    return Err(e);
                },
                Ok(pairs) => {
                    let ghost word_ids = spec_tokenize(m, ws[k as int]@)->Ok_0;
                    let mut t: usize = 0;
                    while t < pairs.len()
                        invariant
                            0 <= t <= pairs@.len(),
                            acc@.len() == acc0.len() + t,
                            forall|i: int|
                                0 <= i < acc0.len() ==> #[trigger] acc@[i] == acc0[i],
                            forall|i: int|
                                0 <= i < t ==> #[trigger] acc@[acc0.len() + i] == pairs@[i].0,
                        decreases pairs@.len() - t,
                    {
                        acc.push(pairs[t].0);
                        t += 1;
                    }
                    proof {
                        assert forall|i: int| 0 <= i < acc@.len() implies lookup_id(
                            m.vocab,
                            #[trigger] acc@[i],
                        ) is Some by {
                            if i >= acc0.len() {
                                assert(acc@[acc0.len() + (i - acc0.len())] == pairs@[i
                                    - acc0.len()].0);
                                assert(lookup_id(m.vocab, pairs@[i - acc0.len()].0) == Some(
                                    pairs@[i - acc0.len()].1@,
                                ));
                            }
                        }
                        if !self.config.dropout_active() {
                            assert forall|i: int| 0 <= i < word_ids.len() implies acc@[acc0.len()
                                + i] == word_ids[i] by {
                                assert(acc@[acc0.len() + i] == pairs@[i].0);
                            }
                            assert(acc@ =~= acc0 + word_ids);
                            if spec_encode_from(m, ws, k as int + 1) is Ok {
                                let rest = spec_encode_from(m, ws, k as int + 1)->Ok_0;
                                assert(acc0 + (word_ids + rest) =~= (acc0 + word_ids) + rest);
                            }
                        }
                    }
                },
            }
            k += 1;
        }
        proof {
            assert(spec_encode_from(m, ws, ws.len() as int) == Ok::<Seq<u32>, BpeError>(
                Seq::empty(),
            ));
            assert(acc@ + Seq::<u32>::empty() =~= acc@);
        }
        Ok(acc)
    }
}

/// The ids of a word sequence: each word's tokenization, concatenated
/// in order, from word `k` on.
pub open spec fn spec_encode_from(m: ModelView, ws: Seq<String>, k: int) -> Result<
    Seq<u32>,
    BpeError,
>
    decreases ws.len() - k,
{
    if k < 0 || k >= ws.len() {
        Ok(Seq::empty())
    } else {
        match spec_tokenize(m, ws[k]@) {
            Err(e) => Err(e),
            Ok(ids) => match spec_encode_from(m, ws, k + 1) {
                Err(e) => Err(e),
                Ok(rest) => Ok(ids + rest),
            },
        }
    }
}

/// The ids of a whole word sequence.
pub open spec fn spec_encode(m: ModelView, ws: Seq<String>) -> Result<Seq<u32>, BpeError> {
    spec_encode_from(m, ws, 0)
}

/// A fresh vector with the same ids.
fn copy_ids(v: &Vec<u32>) -> (r: Vec<u32>)
    ensures
        r@ == v@,
{
    let mut r: Vec<u32> = Vec::new();
    let mut i: usize = 0;
    while i < v.len()
        invariant
            0 <= i <= v@.len(),
            r@ == v@.subrange(0, i as int),
        decreases v@.len() - i,
    {
        r.push(v[i]);
        proof {
            assert(r@ =~= v@.subrange(0, i as int + 1));
        }
        i += 1;
    }
    proof {
        assert(v@.subrange(0, v@.len() as int) =~= v@);
    }
    r
}

/// Pairs each id with its token string; every id must be a vocabulary
/// id, which tokenization guarantees of its own output.
fn ids_to_pairs(vocab: &Vocab, ids: &Vec<u32>) -> (r: Vec<(u32, String)>)
    requires
        forall|i: int| 0 <= i < ids@.len() ==> lookup_id(vocab@, #[trigger] ids@[i]) is Some,
    ensures
        r@.len() == ids@.len(),
        forall|i: int|
            0 <= i < ids@.len() ==> (#[trigger] r@[i]).0 == ids@[i] && lookup_id(vocab@, ids@[i])
                == Some(r@[i].1@),
{
    let mut r: Vec<(u32, String)> = Vec::new();
    let mut i: usize = 0;
    while i < ids.len()
        invariant
            0 <= i <= ids@.len(),
            forall|k: int| 0 <= k < ids@.len() ==> lookup_id(vocab@, #[trigger] ids@[k]) is Some,
            r@.len() == i,
            forall|k: int|
                0 <= k < i ==> (#[trigger] r@[k]).0 == ids@[k] && lookup_id(vocab@, ids@[k])
                    == Some(r@[k].1@),
        decreases ids@.len() - i,
    {
        let id = ids[i];
        match vocab.id_to_token(id) {
            Some(t) => {
                r.push((id, t));
            },
            None => {
                proof {
                    assert(false);
                }
            },
        }
        i += 1;
    }
    r
}

/// The token string that the rule `(l, r)` must merge into: `l`, then
/// `r` with the continuing-subword prefix stripped from its front.
fn merged_token(l: &String, prefix: &str, r: &String) -> (m: String)
    ensures
        m@ == l@ + strip_prefix(prefix@, r@),
{
    let p = prefix.unicode_len();
    let rn = r.as_str().unicode_len();
    let mut starts: bool = p <= rn;
    let ghost mut bad: int = 0int;
    let mut i: usize = 0;
    while i < p && starts
        invariant
            p == prefix@.len(),
            rn == r@.len(),
            0 <= i <= p,
            starts ==> (p <= rn && forall|k: int| 0 <= k < i ==> r@[k] == prefix@[k]),
            !starts ==> (p > rn || (0 <= bad < p && bad < rn && r@[bad] != prefix@[bad])),
        decreases p - i, (if starts {
            1int
        } else {
            0int
        }),
    {
        if r.as_str().get_char(i) != prefix.get_char(i) {
            proof {
                bad = i as int;
            }
            starts = false;
        } else {
            i += 1;
        }
    }
    let mut m = (*l).clone();
    if starts {
        let tail = r.as_str().substring_char(p, rn);
        m.append(tail);
        proof {
            assert(r@.take(p as int) =~= prefix@);
            assert(r@.subrange(p as int, rn as int) =~= r@.skip(p as int));
            assert(m@ =~= l@ + strip_prefix(prefix@, r@));
        }
    } else {
        m.append(r.as_str());
        proof {
            if p <= rn {
                assert(r@.take(p as int)[bad] != prefix@[bad]);
                assert(r@.take(p as int) != prefix@);
            }
            assert(strip_prefix(prefix@, r@) == r@);
            assert(m@ =~= l@ + r@);
        }
    }
    m
}

} // verus!
