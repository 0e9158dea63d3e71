use bpe_core::config::{BpeConfig, DROPOUT_SCALE};
use bpe_core::engine::BpeEngine;
use bpe_core::errors::BpeError;
use bpe_core::vocab::Vocab;

fn entries(list: &[(&str, u32)]) -> Vec<(String, u32)> {
    list.iter().map(|(t, i)| (t.to_string(), *i)).collect()
}

fn pairs(list: &[(&str, &str)]) -> Vec<(String, String)> {
    list.iter()
        .map(|(a, b)| (a.to_string(), b.to_string()))
        .collect()
}

fn hello_engine() -> BpeEngine {
    let vocab = Vocab::new(entries(&[
        ("h", 0),
        ("e", 1),
        ("l", 2),
        ("o", 3),
        ("he", 4),
        ("ll", 5),
        ("hell", 6),
        ("hello", 7),
    ]))
    .unwrap();
    let merges = pairs(&[("h", "e"), ("l", "l"), ("he", "ll"), ("hell", "o")]);
    BpeEngine::build(vocab, merges, BpeConfig::new()).unwrap()
}

fn ids_of(r: &[(u32, String)]) -> Vec<u32> {
    r.iter().map(|p| p.0).collect()
}

fn tokens_of(r: &[(u32, String)]) -> Vec<String> {
    r.iter().map(|p| p.1.clone()).collect()
}

#[test]
fn hello_merges_in_rank_order() {
    let mut e = hello_engine();
    let out = e.tokenize_word("hello").unwrap();
    assert_eq!(ids_of(&out), vec![7]);
    assert_eq!(tokens_of(&out), vec!["hello".to_string()]);
}

#[test]
fn hell_stops_at_rank_two() {
    let mut e = hello_engine();
    let out = e.tokenize_word("hell").unwrap();
    assert_eq!(ids_of(&out), vec![6]);
    assert_eq!(tokens_of(&out), vec!["hell".to_string()]);
}

#[test]
fn partial_merges_when_no_rule_applies() {
    let mut e = hello_engine();
    let out = e.tokenize_word("ole").unwrap();
    assert_eq!(ids_of(&out), vec![3, 2, 1]);
}

#[test]
fn tokenize_is_deterministic() {
    let mut e = hello_engine();
    let a = e.tokenize_word("hello").unwrap();
    let b = e.tokenize_word("hello").unwrap();
    assert_eq!(a, b);
    let c = e.tokenize_word("hell").unwrap();
    let d = e.tokenize_word("hell").unwrap();
    assert_eq!(c, d);
}

#[test]
fn cache_is_transparent() {
    let mut cached = hello_engine();
    let first = cached.tokenize_word("hello").unwrap();
    assert_eq!(cached.cache.entries.len(), 1);
    let from_cache = cached.tokenize_word("hello").unwrap();
    cached.clear_cache();
    assert_eq!(cached.cache.entries.len(), 0);
    let recomputed = cached.tokenize_word("hello").unwrap();
    assert_eq!(first, from_cache);
    assert_eq!(first, recomputed);

    let vocab = Vocab::new(entries(&[
        ("h", 0),
        ("e", 1),
        ("l", 2),
        ("o", 3),
        ("he", 4),
        ("ll", 5),
        ("hell", 6),
        ("hello", 7),
    ]))
    .unwrap();
    let merges = pairs(&[("h", "e"), ("l", "l"), ("he", "ll"), ("hell", "o")]);
    let mut config = BpeConfig::new();
    config.cache_capacity = 0;
    let mut uncached = BpeEngine::build(vocab, merges, config).unwrap();
    let no_cache = uncached.tokenize_word("hello").unwrap();
    assert_eq!(uncached.cache.entries.len(), 0);
    assert_eq!(first, no_cache);
}

#[test]
fn cache_stays_within_capacity() {
    let vocab = Vocab::new(entries(&[("h", 0), ("e", 1), ("l", 2), ("o", 3)])).unwrap();
    let mut config = BpeConfig::new();
    config.cache_capacity = 1;
    let mut e = BpeEngine::build(vocab, Vec::new(), config).unwrap();
    e.tokenize_word("he").unwrap();
    e.tokenize_word("lo").unwrap();
    e.tokenize_word("hole").unwrap();
    assert_eq!(e.cache.entries.len(), 1);
}

#[test]
fn round_trip_on_simple_vocabulary() {
    let mut e = hello_engine();
    let words = vec!["hello".to_string(), "hell".to_string(), "ole".to_string()];
    let ids = e.encode_sequence(&words).unwrap();
    assert_eq!(ids, vec![7, 6, 3, 2, 1]);
    let text = e.decode(&ids).unwrap();
    assert_eq!(text, "hellohellole");
}

#[test]
fn unknown_run_fuses_to_single_symbol() {
    let vocab = Vocab::new(entries(&[("a", 0), ("[UNK]", 1)])).unwrap();
    let mut config = BpeConfig::new();
    config.unk_token = Some("[UNK]".to_string());
    config.fuse_unk = true;
    let mut e = BpeEngine::build(vocab, Vec::new(), config).unwrap();
    let out = e.tokenize_word("axya").unwrap();
    assert_eq!(ids_of(&out), vec![0, 1, 0]);
    assert_eq!(tokens_of(&out), vec!["a", "[UNK]", "a"]);
}

#[test]
fn unknown_run_stays_separate_without_fusing() {
    let vocab = Vocab::new(entries(&[("a", 0), ("[UNK]", 1)])).unwrap();
    let mut config = BpeConfig::new();
    config.unk_token = Some("[UNK]".to_string());
    config.fuse_unk = false;
    let mut e = BpeEngine::build(vocab, Vec::new(), config).unwrap();
    let out = e.tokenize_word("axya").unwrap();
    assert_eq!(ids_of(&out), vec![0, 1, 1, 0]);
}

#[test]
fn unmappable_character_is_an_error() {
    let vocab = Vocab::new(entries(&[("a", 0)])).unwrap();
    let mut e = BpeEngine::build(vocab, Vec::new(), BpeConfig::new()).unwrap();
    assert_eq!(e.tokenize_word("ab"), Err(BpeError::UnmappableCharacter));
}

#[test]
fn byte_fallback_decomposes_unknown_characters() {
    let vocab = Vocab::new(entries(&[("a", 0), ("<0x41>", 1), ("<0xC3>", 2), ("<0xA9>", 3)]))
        .unwrap();
    let mut config = BpeConfig::new();
    config.byte_fallback = true;
    let mut e = BpeEngine::build(vocab, Vec::new(), config).unwrap();
    let out = e.tokenize_word("aA").unwrap();
    assert_eq!(ids_of(&out), vec![0, 1]);
    let two_bytes = e.tokenize_word("\u{e9}").unwrap();
    assert_eq!(ids_of(&two_bytes), vec![2, 3]);
}

#[test]
fn byte_fallback_misses_fall_through_to_unk() {
    let vocab = Vocab::new(entries(&[("a", 0), ("<0x41>", 1), ("[UNK]", 2)])).unwrap();
    let mut config = BpeConfig::new();
    config.byte_fallback = true;
    config.unk_token = Some("[UNK]".to_string());
    let mut e = BpeEngine::build(vocab, Vec::new(), config).unwrap();
    let out = e.tokenize_word("aAb").unwrap();
    assert_eq!(ids_of(&out), vec![0, 1, 2]);
}

#[test]
fn continuing_subword_prefix_decorates_lookups() {
    let vocab = Vocab::new(entries(&[("a", 0), ("##b", 1), ("ab", 2)])).unwrap();
    let mut config = BpeConfig::new();
    config.continuing_subword_prefix = Some("##".to_string());
    let merges = pairs(&[("a", "##b")]);
    let mut e = BpeEngine::build(vocab, merges, config).unwrap();
    let out = e.tokenize_word("ab").unwrap();
    assert_eq!(ids_of(&out), vec![2]);
    assert_eq!(tokens_of(&out), vec!["ab"]);
}

#[test]
fn end_of_word_suffix_decorates_last_symbol() {
    let vocab = Vocab::new(entries(&[("a", 0), ("b</w>", 1)])).unwrap();
    let mut config = BpeConfig::new();
    config.end_of_word_suffix = Some("</w>".to_string());
    let mut e = BpeEngine::build(vocab, Vec::new(), config).unwrap();
    let out = e.tokenize_word("ab").unwrap();
    assert_eq!(ids_of(&out), vec![0, 1]);
    assert_eq!(tokens_of(&out), vec!["a", "b</w>"]);
}

#[test]
fn merge_rule_with_absent_result_fails_build() {
    let vocab = Vocab::new(entries(&[("a", 0), ("b", 1)])).unwrap();
    let merges = pairs(&[("a", "b")]);
    let r = BpeEngine::build(vocab, merges, BpeConfig::new());
    assert_eq!(r.err(), Some(BpeError::InvalidMergeRule(0)));
}

#[test]
fn merge_rule_with_absent_side_fails_build() {
    let vocab = Vocab::new(entries(&[("a", 0), ("b", 1), ("ab", 2)])).unwrap();
    let merges = pairs(&[("a", "b"), ("a", "c")]);
    let r = BpeEngine::build(vocab, merges, BpeConfig::new());
    assert_eq!(r.err(), Some(BpeError::InvalidMergeRule(1)));
}

#[test]
fn unknown_token_must_be_in_vocabulary() {
    let vocab = Vocab::new(entries(&[("a", 0)])).unwrap();
    let mut config = BpeConfig::new();
    config.unk_token = Some("[UNK]".to_string());
    let r = BpeEngine::build(vocab, Vec::new(), config);
    assert_eq!(r.err(), Some(BpeError::UnknownTokenNotInVocab));
}

#[test]
fn out_of_range_dropout_fails_build() {
    let vocab = Vocab::new(entries(&[("a", 0)])).unwrap();
    let mut config = BpeConfig::new();
    config.dropout = Some(DROPOUT_SCALE + 1);
    let r = BpeEngine::build(vocab, Vec::new(), config);
    assert_eq!(r.err(), Some(BpeError::InvalidDropout));
}

#[test]
fn full_dropout_skips_every_merge() {
    let vocab = Vocab::new(entries(&[
        ("h", 0),
        ("e", 1),
        ("l", 2),
        ("o", 3),
        ("he", 4),
        ("ll", 5),
        ("hell", 6),
        ("hello", 7),
    ]))
    .unwrap();
    let merges = pairs(&[("h", "e"), ("l", "l"), ("he", "ll"), ("hell", "o")]);
    let mut config = BpeConfig::new();
    config.dropout = Some(DROPOUT_SCALE);
    let mut e = BpeEngine::build(vocab, merges, config).unwrap();
    let out = e.tokenize_word("hello").unwrap();
    assert_eq!(ids_of(&out), vec![0, 1, 2, 2, 3]);
    assert_eq!(e.cache.entries.len(), 0);
    let text = e.decode(&ids_of(&out)).unwrap();
    assert_eq!(text, "hello");
}

#[test]
fn dropout_errors_match_the_deterministic_errors() {
    let vocab = Vocab::new(entries(&[("a", 0)])).unwrap();
    let mut config = BpeConfig::new();
    config.dropout = Some(DROPOUT_SCALE / 2);
    let mut e = BpeEngine::build(vocab, Vec::new(), config).unwrap();
    assert_eq!(e.tokenize_word("ab"), Err(BpeError::UnmappableCharacter));
}

#[test]
fn decode_reports_the_unknown_id() {
    let e = hello_engine();
    assert_eq!(e.decode(&vec![0, 99]), Err(BpeError::UnknownId(99)));
    assert_eq!(e.decode(&vec![4, 5]).unwrap(), "hell");
    assert_eq!(e.decode(&Vec::new()).unwrap(), "");
}

#[test]
fn encode_sequence_reports_the_first_failing_word() {
    let vocab = Vocab::new(entries(&[("a", 0)])).unwrap();
    let mut e = BpeEngine::build(vocab, Vec::new(), BpeConfig::new()).unwrap();
    let words = vec!["a".to_string(), "b".to_string(), "a".to_string()];
    assert_eq!(e.encode_sequence(&words), Err(BpeError::UnmappableCharacter));
}

#[test]
fn lookups_are_inverse() {
    let e = hello_engine();
    assert_eq!(e.token_to_id("hell"), Some(6));
    assert_eq!(e.id_to_token(6).as_deref(), Some("hell"));
    assert_eq!(e.token_to_id("xyz"), None);
    assert_eq!(e.id_to_token(42), None);
    assert_eq!(e.vocab_size(), 8);
}

#[test]
fn reseeding_replays_the_dropout_stream() {
    let vocab = Vocab::new(entries(&[("a", 0), ("b", 1), ("ab", 2)])).unwrap();
    let merges = pairs(&[("a", "b")]);
    let mut config = BpeConfig::new();
    config.dropout = Some(DROPOUT_SCALE / 2);
    let mut e = BpeEngine::build(vocab, merges, config).unwrap();
    e.reseed(12345);
    let first: Vec<Vec<u32>> = (0..16)
        .map(|_| ids_of(&e.tokenize_word("ababab").unwrap()))
        .collect();
    e.reseed(12345);
    let second: Vec<Vec<u32>> = (0..16)
        .map(|_| ids_of(&e.tokenize_word("ababab").unwrap()))
        .collect();
    assert_eq!(first, second);
    for run in &first {
        let decoded = e.decode(run).unwrap();
        assert_eq!(decoded, "ababab");
    }
}

#[test]
fn equal_ranks_merge_the_leftmost_pair_first() {
    let vocab = Vocab::new(entries(&[("a", 0), ("aa", 1)])).unwrap();
    let merges = pairs(&[("a", "a")]);
    let mut e = BpeEngine::build(vocab, merges, BpeConfig::new()).unwrap();
    let out = e.tokenize_word("aaa").unwrap();
    assert_eq!(ids_of(&out), vec![1, 0]);
    assert_eq!(tokens_of(&out), vec!["aa", "a"]);
    let four = e.tokenize_word("aaaa").unwrap();
    assert_eq!(ids_of(&four), vec![1, 1]);
}
