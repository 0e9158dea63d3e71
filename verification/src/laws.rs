//! The library's laws: every id a tokenization emits is a vocabulary
//! id, the merge loop never changes what a word decodes back to when
//! no continuing-subword prefix rewrites merged tokens, and the
//! round-trip, determinism and cache-transparency statements built on
//! those.

use vstd::prelude::*;
use crate::engine::ModelView;
use crate::engine::spec_tokenize;
use crate::errors::BpeError;
use crate::merges::MergeEntry;
use crate::merges::apply_merge_spec;
use crate::merges::best_pair;
use crate::merges::lemma_best_pair_minimal;
use crate::merges::lemma_lookup_merge_mem;
use crate::merges::lemma_merge_step_decode;
use crate::merges::merge_all;
use crate::merges::merges_wf;
use crate::symbols::InitialSymbol;
use crate::symbols::SymEnv;
use crate::symbols::byte_fallback_ids;
use crate::symbols::fuse_from;
use crate::symbols::fuse_symbols;
use crate::symbols::init_symbols;
use crate::symbols::init_symbols_from;
use crate::symbols::known_syms;
use crate::vocab::entries_distinct;
use crate::vocab::lemma_token_then_id;
use crate::vocab::lookup_id;
use crate::vocab::lookup_token;
use crate::vocab::spec_decode;

verus! {

/// Ids resolved through byte fallback are vocabulary ids.
proof fn lemma_byte_fallback_ids_in_vocab(v: Seq<(String, u32)>, bytes: Seq<u8>)
    requires
        entries_distinct(v),
        byte_fallback_ids(v, bytes) is Some,
    ensures
        forall|i: int|
            0 <= i < byte_fallback_ids(v, bytes)->Some_0.len() ==> lookup_id(
                v,
                #[trigger] byte_fallback_ids(v, bytes)->Some_0[i],
            ) is Some,
    decreases bytes.len(),
{
    if bytes.len() > 0 {
        let ids = byte_fallback_ids(v, bytes)->Some_0;
        lemma_token_then_id(v, crate::bytes::byte_token_chars(bytes[0]));
        lemma_byte_fallback_ids_in_vocab(v, bytes.drop_first());
        let rest = byte_fallback_ids(v, bytes.drop_first())->Some_0;
        assert forall|i: int| 0 <= i < ids.len() implies lookup_id(v, #[trigger] ids[i]) is Some by {
            if i > 0 {
                assert(ids[i] == rest[i - 1]);
            }
        }
    }
}

/// Every known initial symbol resolves to a vocabulary id.
proof fn lemma_init_ids_in_vocab(env: SymEnv, w: Seq<char>, k: int)
    requires
        entries_distinct(env.vocab),
        init_symbols_from(env, w, k) is Ok,
    ensures
        forall|i: int|
            0 <= i < init_symbols_from(env, w, k)->Ok_0.len() && (
            #[trigger] init_symbols_from(env, w, k)->Ok_0[i]) is Known ==> lookup_id(
                env.vocab,
                init_symbols_from(env, w, k)->Ok_0[i]->Known_0,
            ) is Some,
        forall|i: int|
            0 <= i < init_symbols_from(env, w, k)->Ok_0.len() && (
            #[trigger] init_symbols_from(env, w, k)->Ok_0[i]) is Unknown ==> env.unk_id is Some,
    decreases w.len() - k,
{
    if !(k < 0 || k >= w.len()) {
        let syms = init_symbols_from(env, w, k)->Ok_0;
        lemma_init_ids_in_vocab(env, w, k + 1);
        let rest = init_symbols_from(env, w, k + 1)->Ok_0;
        match lookup_token(env.vocab, crate::symbols::decorated_char(env, w, k)) {
            Some(id) => {
                lemma_token_then_id(env.vocab, crate::symbols::decorated_char(env, w, k));
                assert forall|i: int|
                    0 <= i < syms.len() && (#[trigger] syms[i]) is Known implies lookup_id(
                    env.vocab,
                    syms[i]->Known_0,
                ) is Some by {
                    if i > 0 {
                        assert(syms[i] == rest[i - 1]);
                    }
                }
            },
            None => {
                let fb = if env.byte_fallback {
                    byte_fallback_ids(env.vocab, vstd::utf8::encode_scalar(w[k] as u32))
                } else {
                    None
                };
                match fb {
                    Some(ids) => {
                        lemma_byte_fallback_ids_in_vocab(
                            env.vocab,
                            vstd::utf8::encode_scalar(w[k] as u32),
                        );
                        assert forall|i: int|
                            0 <= i < syms.len() && (#[trigger] syms[i]) is Known implies lookup_id(
                            env.vocab,
                            syms[i]->Known_0,
                        ) is Some by {
                            if i < ids.len() {
                                assert(syms[i] == known_syms(ids)[i]);
                                assert(syms[i] == InitialSymbol::Known(ids[i]));
                            } else {
                                assert(syms[i] == rest[i - ids.len()]);
                            }
                        }
                    },
                    None => {
                        assert forall|i: int|
                            0 <= i < syms.len() && (#[trigger] syms[i]) is Known implies lookup_id(
                            env.vocab,
                            syms[i]->Known_0,
                        ) is Some by {
                            if i > 0 {
                                assert(syms[i] == rest[i - 1]);
                            }
                        }
                    },
                }
            },
        }
    }
}

/// Every fused id either replaces an unknown marker by the unknown id
/// or copies a known symbol's id.
proof fn lemma_fuse_ids(unk_id: u32, fuse_unk: bool, syms: Seq<InitialSymbol>, k: int, prev: bool)
    ensures
        forall|i: int|
            0 <= i < fuse_from(unk_id, fuse_unk, syms, k, prev).len() ==> exists|j: int|
                k <= j < syms.len() && ((syms[j] == InitialSymbol::Unknown && #[trigger] fuse_from(
                    unk_id,
                    fuse_unk,
                    syms,
                    k,
                    prev,
                )[i] == unk_id) || syms[j] == InitialSymbol::Known(
                    fuse_from(unk_id, fuse_unk, syms, k, prev)[i],
                )),
    decreases syms.len() - k,
{
    if !(k < 0 || k >= syms.len()) {
        let cur = fuse_from(unk_id, fuse_unk, syms, k, prev);
        match syms[k] {
            InitialSymbol::Known(id) => {
                lemma_fuse_ids(unk_id, fuse_unk, syms, k + 1, false);
                let rest = fuse_from(unk_id, fuse_unk, syms, k + 1, false);
                assert forall|i: int| 0 <= i < cur.len() implies exists|j: int|
                    k <= j < syms.len() && ((syms[j] == InitialSymbol::Unknown && #[trigger] cur[i]
                        == unk_id) || syms[j] == InitialSymbol::Known(cur[i])) by {
                    if i == 0 {
                        assert(syms[k] == InitialSymbol::Known(cur[0]));
                    } else {
                        assert(cur[i] == rest[i - 1]);
                        let x = rest[i - 1];
                        let j = choose|j: int|
                            k + 1 <= j < syms.len() && ((syms[j] == InitialSymbol::Unknown && x
                                == unk_id) || syms[j] == InitialSymbol::Known(x));
                        assert(k <= j < syms.len() && ((syms[j] == InitialSymbol::Unknown && cur[i]
                            == unk_id) || syms[j] == InitialSymbol::Known(cur[i])));
                    }
                }
            },
            InitialSymbol::Unknown => {
                lemma_fuse_ids(unk_id, fuse_unk, syms, k + 1, true);
                let rest = fuse_from(unk_id, fuse_unk, syms, k + 1, true);
                assert forall|i: int| 0 <= i < cur.len() implies exists|j: int|
                    k <= j < syms.len() && ((syms[j] == InitialSymbol::Unknown && #[trigger] cur[i]
                        == unk_id) || syms[j] == InitialSymbol::Known(cur[i])) by {
                    let off: int = if prev && fuse_unk {
                        0
                    } else {
                        1
                    };
                    if i < off {
                        assert(syms[k] == InitialSymbol::Unknown && cur[0] == unk_id);
                    } else {
                        assert(cur[i] == rest[i - off]);
                        let x = rest[i - off];
                        let j = choose|j: int|
                            k + 1 <= j < syms.len() && ((syms[j] == InitialSymbol::Unknown && x
                                == unk_id) || syms[j] == InitialSymbol::Known(x));
                        assert(k <= j < syms.len() && ((syms[j] == InitialSymbol::Unknown && cur[i]
                            == unk_id) || syms[j] == InitialSymbol::Known(cur[i])));
                    }
                }
            },
        }
    }
}

/// The merge loop only ever writes vocabulary ids.
proof fn lemma_merge_all_ids_in_vocab(
    v: Seq<(String, u32)>,
    prefix: Seq<char>,
    ms: Seq<MergeEntry>,
    w: Seq<u32>,
)
    requires
        merges_wf(v, prefix, ms),
        forall|i: int| 0 <= i < w.len() ==> lookup_id(v, #[trigger] w[i]) is Some,
    ensures
        forall|i: int|
            0 <= i < merge_all(ms, w).len() ==> lookup_id(v, #[trigger] merge_all(ms, w)[i])
                is Some,
    decreases w.len(),
{
    match best_pair(ms, w) {
        None => {},
        Some((pos, r, m)) => {
            lemma_best_pair_minimal(ms, w);
            lemma_lookup_merge_mem(ms, w[pos], w[pos + 1]);
            let w2 = apply_merge_spec(w, pos, m);
            assert forall|i: int| 0 <= i < w2.len() implies lookup_id(v, #[trigger] w2[i])
                is Some by {
                if i < pos {
                    assert(w2[i] == w[i]);
                } else if i == pos {
                    assert(w2[i] == m);
                } else {
                    assert(w2[i] == w[i + 1]);
                }
            }
            lemma_merge_all_ids_in_vocab(v, prefix, ms, w2);
        },
    }
}

/// Every id of the fused initial symbols is a vocabulary id.
pub proof fn lemma_fused_ids_in_vocab(m: ModelView, w: Seq<char>)
    requires
        entries_distinct(m.vocab),
        match m.unk_id {
            None => true,
            Some(u) => lookup_id(m.vocab, u) is Some,
        },
        init_symbols(m.sym_env(), w) is Ok,
    ensures
        forall|i: int|
            0 <= i < fuse_symbols(m.unk_value(), m.fuse_unk, init_symbols(m.sym_env(), w)->Ok_0).len()
                ==> lookup_id(
                m.vocab,
                #[trigger] fuse_symbols(
                    m.unk_value(),
                    m.fuse_unk,
                    init_symbols(m.sym_env(), w)->Ok_0,
                )[i],
            ) is Some,
{
    let syms = init_symbols(m.sym_env(), w)->Ok_0;
    let fused = fuse_symbols(m.unk_value(), m.fuse_unk, syms);
    lemma_init_ids_in_vocab(m.sym_env(), w, 0);
    lemma_fuse_ids(m.unk_value(), m.fuse_unk, syms, 0, false);
    assert forall|i: int| 0 <= i < fused.len() implies lookup_id(m.vocab, #[trigger] fused[i])
        is Some by {
        let j = choose|j: int|
            0 <= j < syms.len() && ((syms[j] == InitialSymbol::Unknown && fused[i]
                == m.unk_value()) || syms[j] == InitialSymbol::Known(fused[i]));
        if syms[j] == InitialSymbol::Unknown && fused[i] == m.unk_value() {
            assert(m.unk_id is Some);
        } else {
            assert(syms[j] is Known && syms[j]->Known_0 == fused[i]);
        }
    }
}

/// Every id of a successful tokenization is a vocabulary id.
pub proof fn lemma_tokenize_ids_in_vocab(m: ModelView, w: Seq<char>)
    requires
        entries_distinct(m.vocab),
        merges_wf(m.vocab, m.prefix, m.merges),
        match m.unk_id {
            None => true,
            Some(u) => lookup_id(m.vocab, u) is Some,
        },
        spec_tokenize(m, w) is Ok,
    ensures
        forall|i: int|
            0 <= i < spec_tokenize(m, w)->Ok_0.len() ==> lookup_id(
                m.vocab,
                #[trigger] spec_tokenize(m, w)->Ok_0[i],
            ) is Some,
{
    let syms = init_symbols(m.sym_env(), w)->Ok_0;
    let fused = fuse_symbols(m.unk_value(), m.fuse_unk, syms);
    lemma_fused_ids_in_vocab(m, w);
    lemma_merge_all_ids_in_vocab(m.vocab, m.prefix, m.merges, fused);
}

/// The whole merge loop, with no continuing-subword prefix configured,
/// keeps the decoded text.
pub(crate) proof fn lemma_merge_all_decode(v: Seq<(String, u32)>, ms: Seq<MergeEntry>, w: Seq<u32>)
    requires
        merges_wf(v, Seq::<char>::empty(), ms),
        forall|i: int| 0 <= i < w.len() ==> lookup_id(v, #[trigger] w[i]) is Some,
    ensures
        spec_decode(v, merge_all(ms, w)) == spec_decode(v, w),
    decreases w.len(),
{
    match best_pair(ms, w) {
        None => {},
        Some((pos, r, m)) => {
            lemma_best_pair_minimal(ms, w);
            lemma_merge_step_decode(v, ms, w, pos, r, m);
            lemma_merge_all_decode(v, ms, apply_merge_spec(w, pos, m));
        },
    }
}

/// With no markers configured and every character its own vocabulary
/// token, symbol resolution maps each character to that token's id.
proof fn lemma_init_simple(env: SymEnv, w: Seq<char>, k: int)
    requires
        env.prefix == Seq::<char>::empty(),
        env.suffix == Seq::<char>::empty(),
        forall|j: int| 0 <= j < w.len() ==> lookup_token(env.vocab, seq![#[trigger] w[j]]) is Some,
        0 <= k,
    ensures
        init_symbols_from(env, w, k) is Ok,
        init_symbols_from(env, w, k)->Ok_0.len() == if k <= w.len() {
            w.len() - k
        } else {
            0
        },
        forall|i: int|
            0 <= i < init_symbols_from(env, w, k)->Ok_0.len()
                ==> #[trigger] init_symbols_from(env, w, k)->Ok_0[i] == InitialSymbol::Known(
                lookup_token(env.vocab, seq![w[k + i]])->Some_0,
            ),
    decreases w.len() - k,
{
    if k < w.len() {
        assert(crate::symbols::decorated_char(env, w, k) =~= seq![w[k]]);
        lemma_init_simple(env, w, k + 1);
        let syms = init_symbols_from(env, w, k)->Ok_0;
        let rest = init_symbols_from(env, w, k + 1)->Ok_0;
        assert forall|i: int|
            0 <= i < syms.len() implies #[trigger] syms[i] == InitialSymbol::Known(
            lookup_token(env.vocab, seq![w[k + i]])->Some_0,
        ) by {
            if i > 0 {
                assert(syms[i] == rest[i - 1]);
            }
        }
    }
}

/// Fusing a list of known symbols copies their ids through.
proof fn lemma_fuse_known(
    unk_id: u32,
    fuse_unk: bool,
    syms: Seq<InitialSymbol>,
    k: int,
    prev: bool,
)
    requires
        forall|j: int| 0 <= j < syms.len() ==> (#[trigger] syms[j]) is Known,
        0 <= k,
    ensures
        fuse_from(unk_id, fuse_unk, syms, k, prev).len() == if k <= syms.len() {
            syms.len() - k
        } else {
            0
        },
        forall|i: int|
            0 <= i < fuse_from(unk_id, fuse_unk, syms, k, prev).len() ==> #[trigger] fuse_from(
                unk_id,
                fuse_unk,
                syms,
                k,
                prev,
            )[i] == syms[k + i]->Known_0,
    decreases syms.len() - k,
{
    if k < syms.len() {
        lemma_fuse_known(unk_id, fuse_unk, syms, k + 1, false);
        let cur = fuse_from(unk_id, fuse_unk, syms, k, prev);
        let rest = fuse_from(unk_id, fuse_unk, syms, k + 1, false);
        assert forall|i: int| 0 <= i < cur.len() implies #[trigger] cur[i] == syms[k + i]->Known_0
            by {
            if i > 0 {
                assert(cur[i] == rest[i - 1]);
            }
        }
    }
}

/// Ids that each stand for one character decode to those characters.
proof fn lemma_decode_single_chars(v: Seq<(String, u32)>, w: Seq<char>, ids: Seq<u32>)
    requires
        ids.len() == w.len(),
        forall|i: int| 0 <= i < ids.len() ==> lookup_id(v, #[trigger] ids[i]) == Some(seq![w[i]]),
    ensures
        spec_decode(v, ids) == Ok::<Seq<char>, BpeError>(w),
    decreases ids.len(),
{
    if ids.len() == 0 {
        assert(w =~= Seq::<char>::empty());
    } else {
        assert forall|i: int| 0 <= i < ids.drop_first().len() implies lookup_id(
            v,
            #[trigger] ids.drop_first()[i],
        ) == Some(seq![w.drop_first()[i]]) by {
            assert(ids.drop_first()[i] == ids[i + 1]);
            assert(w.drop_first()[i] == w[i + 1]);
        }
        lemma_decode_single_chars(v, w.drop_first(), ids.drop_first());
        assert(lookup_id(v, ids[0]) == Some(seq![w[0]]));
        assert(seq![w[0]] + w.drop_first() =~= w);
    }
}

/// Round trip: when no markers are configured and every character of
/// the word is itself a vocabulary token, tokenizing succeeds without
/// unknown substitution and decoding the resulting ids gives the word
/// back, however far the merge loop reduced it.
pub proof fn lemma_round_trip(m: ModelView, w: Seq<char>)
    requires
        entries_distinct(m.vocab),
        merges_wf(m.vocab, m.prefix, m.merges),
        m.prefix == Seq::<char>::empty(),
        m.suffix == Seq::<char>::empty(),
        forall|k: int| 0 <= k < w.len() ==> lookup_token(m.vocab, seq![#[trigger] w[k]]) is Some,
    ensures
        spec_tokenize(m, w) is Ok,
        spec_decode(m.vocab, spec_tokenize(m, w)->Ok_0) == Ok::<Seq<char>, BpeError>(w),
{
    let env = m.sym_env();
    lemma_init_simple(env, w, 0);
    let syms = init_symbols(env, w)->Ok_0;
    lemma_fuse_known(m.unk_value(), m.fuse_unk, syms, 0, false);
    let fused = fuse_symbols(m.unk_value(), m.fuse_unk, syms);
    assert forall|i: int| 0 <= i < fused.len() implies lookup_id(m.vocab, #[trigger] fused[i])
        == Some(seq![w[i]]) by {
        assert(fused[i] == syms[i]->Known_0);
        assert(syms[i] == InitialSymbol::Known(lookup_token(m.vocab, seq![w[i]])->Some_0));
        lemma_token_then_id(m.vocab, seq![w[i]]);
    }
    lemma_decode_single_chars(m.vocab, w, fused);
    assert forall|i: int| 0 <= i < fused.len() implies lookup_id(m.vocab, #[trigger] fused[i])
        is Some by {}
    lemma_merge_all_decode(m.vocab, m.merges, fused);
}

/// Determinism: tokenization is a function of the immutable model and
/// the word alone, so two engines sharing a model — in particular one
/// engine before and after any number of calls, which all preserve the
/// model — give one answer for each word.
pub proof fn lemma_tokenize_deterministic(
    e1: crate::engine::BpeEngine,
    e2: crate::engine::BpeEngine,
    w: Seq<char>,
)
    requires
        e1.model() == e2.model(),
    ensures
        spec_tokenize(e1.model(), w) == spec_tokenize(e2.model(), w),
{
}

/// Cache transparency: two engines that agree on vocabulary, merge
/// table, configuration and unknown id tokenize every word alike,
/// whatever either cache holds — so clearing or disabling the cache
/// never changes output.
pub proof fn lemma_cache_transparent(
    e1: crate::engine::BpeEngine,
    e2: crate::engine::BpeEngine,
    w: Seq<char>,
)
    requires
        e1.vocab@ == e2.vocab@,
        e1.merges@ == e2.merges@,
        e1.config == e2.config,
        e1.unk_id == e2.unk_id,
    ensures
        spec_tokenize(e1.model(), w) == spec_tokenize(e2.model(), w),
{
    assert(e1.model() == e2.model());
}

} // verus!
