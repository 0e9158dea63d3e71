//! Splitting a word into its initial symbols.
//!
//! Each character is decorated with the continuing-subword prefix
//! (except the word's first) and the end-of-word suffix (the word's
//! last) and looked up.  A character whose decorated form is absent
//! falls back to its UTF-8 bytes as `<0xXX>` tokens when byte fallback
//! is enabled, then to the unknown symbol when one is configured, and
//! otherwise stops the word with [`BpeError::UnmappableCharacter`].
//! A later pass replaces unknown markers by the unknown token's id,
//! collapsing runs of them when fusing is on ([`fuse_symbols`]).

use vstd::prelude::*;
use vstd::utf8::encode_scalar;
use crate::bytes::byte_token;
use crate::bytes::byte_token_chars;
use crate::bytes::utf8_encode_char;
use crate::errors::BpeError;
use crate::vocab::Vocab;
use crate::vocab::lookup_token;

verus! {

/// One initial symbol: a resolved vocabulary id, or a marker for an
/// unmappable character that the unknown token will stand for.
#[derive(Clone, Copy, Debug, PartialEq, Eq, Structural)]
pub enum InitialSymbol {
    Known(u32),
    Unknown,
}

/// What symbol resolution reads: the vocabulary, the decoration
/// markers (empty when not configured), whether an unknown token is
/// available, and whether byte fallback is on.
pub struct SymEnv {
    pub vocab: Seq<(String, u32)>,
    pub prefix: Seq<char>,
    pub suffix: Seq<char>,
    pub unk_id: Option<u32>,
    pub byte_fallback: bool,
}

/// The decorated form of the word's character at `k` that is looked up
/// in the vocabulary.
pub open spec fn decorated_char(env: SymEnv, w: Seq<char>, k: int) -> Seq<char> {
    (if k > 0 {
        env.prefix
    } else {
        Seq::empty()
    }) + seq![w[k]] + (if k == w.len() - 1 {
        env.suffix
    } else {
        Seq::empty()
    })
}

/// The ids of the `<0xXX>` tokens for `bytes`, when every one is in
/// the vocabulary.
pub open spec fn byte_fallback_ids(v: Seq<(String, u32)>, bytes: Seq<u8>) -> Option<Seq<u32>>
    decreases bytes.len(),
{
    if bytes.len() == 0 {
        Some(Seq::empty())
    } else {
        match lookup_token(v, byte_token_chars(bytes[0])) {
            None => None,
            Some(id) => match byte_fallback_ids(v, bytes.drop_first()) {
                None => None,
                Some(rest) => Some(seq![id] + rest),
            },
        }
    }
}

/// `ids`, each wrapped as a known symbol.
pub open spec fn known_syms(ids: Seq<u32>) -> Seq<InitialSymbol> {
    Seq::new(ids.len(), |i: int| InitialSymbol::Known(ids[i]))
}

/// The initial symbols of the word's characters from `k` on.
pub open spec fn init_symbols_from(env: SymEnv, w: Seq<char>, k: int) -> Result<
    Seq<InitialSymbol>,
    BpeError,
>
    decreases w.len() - k,
{
    if k < 0 || k >= w.len() {
        Ok(Seq::empty())
    } else {
        let rest = init_symbols_from(env, w, k + 1);
        match lookup_token(env.vocab, decorated_char(env, w, k)) {
            Some(id) => match rest {
                Err(e) => Err(e),
                Ok(syms) => Ok(seq![InitialSymbol::Known(id)] + syms),
            },
            None => {
                let fb = if env.byte_fallback {
                    byte_fallback_ids(env.vocab, encode_scalar(w[k] as u32))
                } else {
                    None
                };
                match fb {
                    Some(ids) => match rest {
                        Err(e) => Err(e),
                        Ok(syms) => Ok(known_syms(ids) + syms),
                    },
                    None => if env.unk_id is Some {
                        match rest {
                            Err(e) => Err(e),
                            Ok(syms) => Ok(seq![InitialSymbol::Unknown] + syms),
                        }
                    } else {
                        Err(BpeError::UnmappableCharacter)
                    },
                }
            },
        }
    }
}

/// The initial symbols of the whole word.
pub open spec fn init_symbols(env: SymEnv, w: Seq<char>) -> Result<Seq<InitialSymbol>, BpeError> {
    init_symbols_from(env, w, 0)
}

/// The ids of the symbols from `k` on, with `unk_id` standing for the
/// unknown markers; `prev_unk` says whether symbol `k - 1` was an
/// unknown marker, whose run `k` extends.
pub open spec fn fuse_from(
    unk_id: u32,
    fuse_unk: bool,
    syms: Seq<InitialSymbol>,
    k: int,
    prev_unk: bool,
) -> Seq<u32>
    decreases syms.len() - k,
{
    if k < 0 || k >= syms.len() {
        Seq::empty()
    } else {
        match syms[k] {
            InitialSymbol::Known(id) => seq![id] + fuse_from(unk_id, fuse_unk, syms, k + 1, false),
            InitialSymbol::Unknown => if prev_unk && fuse_unk {
                fuse_from(unk_id, fuse_unk, syms, k + 1, true)
            } else {
                seq![unk_id] + fuse_from(unk_id, fuse_unk, syms, k + 1, true)
            },
        }
    }
}

/// The ids of the whole symbol list, unknown runs collapsed when
/// `fuse_unk` is on.
pub open spec fn fuse_symbols(unk_id: u32, fuse_unk: bool, syms: Seq<InitialSymbol>) -> Seq<u32> {
    fuse_from(unk_id, fuse_unk, syms, 0, false)
}

/// Resolves the word's characters to initial symbols, as
/// [`init_symbols`] describes.
pub fn initial_symbols(
    vocab: &Vocab,
    prefix: &str,
    suffix: &str,
    unk_id: Option<u32>,
    byte_fallback: bool,
    word: &str,
) -> (r: Result<Vec<InitialSymbol>, BpeError>)
    ensures
        ({
            let env = SymEnv {
                vocab: vocab@,
                prefix: prefix@,
                suffix: suffix@,
                unk_id,
                byte_fallback,
            };
            match r {
                Ok(syms) => init_symbols(env, word@) == Ok::<Seq<InitialSymbol>, BpeError>(syms@),
                Err(e) => init_symbols(env, word@) == Err::<Seq<InitialSymbol>, BpeError>(e),
            }
        }),
{
    let ghost env = SymEnv { vocab: vocab@, prefix: prefix@, suffix: suffix@, unk_id, byte_fallback };
    let ghost w = word@;
    let n = word.unicode_len();
    let mut acc: Vec<InitialSymbol> = Vec::new();
    let mut k: usize = 0;
    while k < n
        invariant
            env == (SymEnv {
                vocab: vocab@,
                prefix: prefix@,
                suffix: suffix@,
                unk_id,
                byte_fallback,
            }),
            w == word@,
            n == w.len(),
            0 <= k <= n,
            match init_symbols_from(env, w, k as int) {
                Ok(rest) => init_symbols(env, w) == Ok::<Seq<InitialSymbol>, BpeError>(acc@ + rest),
                Err(e) => init_symbols(env, w) == Err::<Seq<InitialSymbol>, BpeError>(e),
            },
        decreases n - k,
    {
        let c = word.get_char(k);
        proof {
            reveal_strlit("");
        }
        let pfx: &str = if k > 0 {
            prefix
        } else {
            ""
        };
        let sfx: &str = if k + 1 == n {
            suffix
        } else {
            ""
        };
        proof {
            assert(""@ =~= Seq::<char>::empty());
            assert(pfx@ + seq![c] + sfx@ =~= decorated_char(env, w, k as int));
        }
        let ghost acc0 = acc@;
        match vocab.token_id_decorated(pfx, c, sfx) {
            Some(id) => {
                acc.push(InitialSymbol::Known(id));
                proof {
                    assert(acc@ =~= acc0 + seq![InitialSymbol::Known(id)]);
                    lemma_step_ok(env, w, k as int, acc0, seq![InitialSymbol::Known(id)]);
                }
            },
            None => {
                let mut fb_found = false;
                let mut fb_ids: Vec<u32> = Vec::new();
                if byte_fallback {
                    let bytes = utf8_encode_char(c);
                    let ghost bs = bytes@;
                    let mut j: usize = 0;
                    let mut missing = false;
                    proof {
                        assert(bs.skip(0) =~= bs);
                    }
                    while j < bytes.len() && !missing
                        invariant
                            bytes@ == bs,
                            vocab@ == env.vocab,
                            0 <= j <= bs.len(),
                            if missing {
                                byte_fallback_ids(env.vocab, bs) is None
                            } else {
                                match byte_fallback_ids(env.vocab, bs.skip(j as int)) {
                                    None => byte_fallback_ids(env.vocab, bs) is None,
                                    Some(rest) => byte_fallback_ids(env.vocab, bs) == Some(
                                        fb_ids@ + rest,
                                    ),
                                }
                            },
                        decreases bs.len() - j, (if missing {
                            0int
                        } else {
                            1int
                        }),
                    {
                        proof {
                            assert(bs.skip(j as int)[0] == bs[j as int]);
                        }
                        let tok = byte_token(bytes[j]);
                        match vocab.token_to_id(tok.as_str()) {
                            None => {
                                missing = true;
                            },
                            Some(id) => {
                                let ghost ids0 = fb_ids@;
                                fb_ids.push(id);
                                proof {
                                    assert(bs.skip(j as int).drop_first() =~= bs.skip(
                                        j as int + 1,
                                    ));
                                    if byte_fallback_ids(env.vocab, bs.skip(j as int + 1)) is Some {
                                        let rest = byte_fallback_ids(
                                            env.vocab,
                                            bs.skip(j as int + 1),
                                        )->Some_0;
                                        assert((ids0 + seq![id]) + rest =~= ids0 + (seq![id]
                                            + rest));
                                    }
                                }
                                j += 1;
                            },
                        }
                    }
                    if !missing {
                        fb_found = true;
                        proof {
                            assert(bs.skip(bs.len() as int) =~= Seq::<u8>::empty());
                            assert(byte_fallback_ids(env.vocab, bs) == Some(fb_ids@
                                + Seq::<u32>::empty()));
                            assert(fb_ids@ + Seq::<u32>::empty() =~= fb_ids@);
                        }
                    }
                }
                if fb_found {
                    let ghost adds = known_syms(fb_ids@);
                    let ghost accb = acc@;
                    let mut t: usize = 0;
                    while t < fb_ids.len()
                        invariant
                            0 <= t <= fb_ids@.len(),
                            adds == known_syms(fb_ids@),
                            acc@ == accb + known_syms(fb_ids@.subrange(0, t as int)),
                        decreases fb_ids@.len() - t,
                    {
                        acc.push(InitialSymbol::Known(fb_ids[t]));
                        proof {
                            assert(known_syms(fb_ids@.subrange(0, t as int + 1)) =~= known_syms(
                                fb_ids@.subrange(0, t as int),
                            ).push(InitialSymbol::Known(fb_ids@[t as int])));
                            assert(acc@ =~= accb + known_syms(fb_ids@.subrange(0, t as int + 1)));
                        }
                        t += 1;
                    }
                    proof {
                        assert(fb_ids@.subrange(0, fb_ids@.len() as int) =~= fb_ids@);
                        lemma_step_ok(env, w, k as int, acc0, adds);
                    }
                } else if unk_id.is_some() {
                    acc.push(InitialSymbol::Unknown);
                    proof {
                        assert(acc@ =~= acc0 + seq![InitialSymbol::Unknown]);
                        lemma_step_ok(env, w, k as int, acc0, seq![InitialSymbol::Unknown]);
                    }
                } else {
                    proof {
                        assert(init_symbols_from(env, w, k as int) == Err::<
                            Seq<InitialSymbol>,
                            BpeError,
                        >(BpeError::UnmappableCharacter));
                    }
                    return Err(BpeError::UnmappableCharacter);
                }
            },
        }
        k += 1;
    }
    proof {
        assert(init_symbols_from(env, w, n as int) == Ok::<Seq<InitialSymbol>, BpeError>(
            Seq::empty(),
        ));
        assert(acc@ + Seq::<InitialSymbol>::empty() =~= acc@);
    }
    Ok(acc)
}

/// One maintained step of the accumulator argument: when the character
/// at `k` contributes `adds` and resolution up to `k` gave `acc0`, the
/// accumulator invariant moves from `k` to `k + 1`.
proof fn lemma_step_ok(env: SymEnv, w: Seq<char>, k: int, acc0: Seq<InitialSymbol>, adds: Seq<
    InitialSymbol,
>)
    requires
        0 <= k < w.len(),
        init_symbols_from(env, w, k) == match init_symbols_from(env, w, k + 1) {
            Err(e) => Err::<Seq<InitialSymbol>, BpeError>(e),
            Ok(syms) => Ok::<Seq<InitialSymbol>, BpeError>(adds + syms),
        },
        match init_symbols_from(env, w, k) {
            Ok(rest) => init_symbols(env, w) == Ok::<Seq<InitialSymbol>, BpeError>(acc0 + rest),
            Err(e) => init_symbols(env, w) == Err::<Seq<InitialSymbol>, BpeError>(e),
        },
    ensures
        match init_symbols_from(env, w, k + 1) {
            Ok(rest) => init_symbols(env, w) == Ok::<Seq<InitialSymbol>, BpeError>(
                (acc0 + adds) + rest,
            ),
            Err(e) => init_symbols(env, w) == Err::<Seq<InitialSymbol>, BpeError>(e),
        },
{
    match init_symbols_from(env, w, k + 1) {
        Ok(rest) => {
            assert(acc0 + (adds + rest) =~= (acc0 + adds) + rest);
        },
        Err(e) => {},
    }
}

/// Replaces the markers by `unk_id` and collapses their runs when
/// `fuse_unk` is on, as [`fuse_symbols`] describes.
pub fn fuse_symbols_exec(unk_id: u32, fuse_unk: bool, syms: &Vec<InitialSymbol>) -> (r: Vec<u32>)
    ensures
        r@ == fuse_symbols(unk_id, fuse_unk, syms@),
{
    let ghost s = syms@;
    let mut acc: Vec<u32> = Vec::new();
    let mut prev_unk = false;
    let mut k: usize = 0;
    while k < syms.len()
        invariant
            syms@ == s,
            0 <= k <= s.len(),
            fuse_symbols(unk_id, fuse_unk, s) == acc@ + fuse_from(
                unk_id,
                fuse_unk,
                s,
                k as int,
                prev_unk,
            ),
        decreases s.len() - k,
    {
        let ghost acc0 = acc@;
        let ghost prev0 = prev_unk;
        match syms[k] {
            InitialSymbol::Known(id) => {
                acc.push(id);
                prev_unk = false;
                proof {
                    lemma_concat_assoc_u32(acc0, seq![id], fuse_from(
                        unk_id,
                        fuse_unk,
                        s,
                        k as int + 1,
                        false,
                    ));
                }
            },
            InitialSymbol::Unknown => {
                if prev_unk && fuse_unk {
                    prev_unk = true;
                } else {
                    acc.push(unk_id);
                    prev_unk = true;
                    proof {
                        lemma_concat_assoc_u32(acc0, seq![unk_id], fuse_from(
                            unk_id,
                            fuse_unk,
                            s,
                            k as int + 1,
                            true,
                        ));
                    }
                }
            },
        }
        k += 1;
    }
    proof {
        assert(acc@ + Seq::<u32>::empty() =~= acc@);
    }
    acc
}

proof fn lemma_concat_assoc_u32(a: Seq<u32>, b: Seq<u32>, c: Seq<u32>)
    ensures
        a + (b + c) == (a + b) + c,
{
    assert(a + (b + c) =~= (a + b) + c);
}

} // verus!
