use bpe_core::bytes::{byte_token, utf8_encode_char};
use bpe_core::encoding::CEncoding;
use bpe_core::errors::{clear_last_error, set_last_error, BpeError, LastError};
use bpe_core::merges_text::parse_merges;
use bpe_core::prng::XorShift;
use bpe_core::vocab::Vocab;

fn entries(list: &[(&str, u32)]) -> Vec<(String, u32)> {
    list.iter().map(|(t, i)| (t.to_string(), *i)).collect()
}

#[test]
fn vocab_rejects_duplicate_tokens_and_ids() {
    assert!(Vocab::new(entries(&[("a", 0), ("a", 1)])).is_none());
    assert!(Vocab::new(entries(&[("a", 0), ("b", 0)])).is_none());
    assert!(Vocab::new(entries(&[("a", 0), ("b", 1)])).is_some());
    assert!(Vocab::new(Vec::new()).is_some());
}

#[test]
fn vocab_lookups_by_token_and_id() {
    let v = Vocab::new(entries(&[("a", 3), ("b", 7)])).unwrap();
    assert_eq!(v.token_to_id("a"), Some(3));
    assert_eq!(v.token_to_id("b"), Some(7));
    assert_eq!(v.token_to_id("c"), None);
    assert_eq!(v.id_to_token(7).as_deref(), Some("b"));
    assert_eq!(v.id_to_token(1), None);
    assert_eq!(v.len(), 2);
}

#[test]
fn add_token_appends_one_past_the_greatest_id() {
    let mut v = Vocab::new(entries(&[("a", 0), ("b", 9)])).unwrap();
    assert_eq!(v.add_token("c".to_string()), Some(10));
    assert_eq!(v.token_to_id("c"), Some(10));
    assert_eq!(v.add_token("a".to_string()), Some(0));
    assert_eq!(v.len(), 3);
    let mut empty = Vocab::new(Vec::new()).unwrap();
    assert_eq!(empty.add_token("x".to_string()), Some(0));
    let mut full = Vocab::new(entries(&[("a", u32::MAX)])).unwrap();
    assert_eq!(full.add_token("b".to_string()), None);
    assert_eq!(full.len(), 1);
}

#[test]
fn byte_tokens_use_two_uppercase_hex_digits() {
    assert_eq!(byte_token(0x0A), "<0x0A>");
    assert_eq!(byte_token(0x41), "<0x41>");
    assert_eq!(byte_token(0xFF), "<0xFF>");
    assert_eq!(byte_token(0x00), "<0x00>");
}

#[test]
fn utf8_encoding_of_characters() {
    assert_eq!(utf8_encode_char('A'), vec![0x41]);
    assert_eq!(utf8_encode_char('\u{e9}'), vec![0xC3, 0xA9]);
    assert_eq!(utf8_encode_char('\u{20ac}'), vec![0xE2, 0x82, 0xAC]);
    assert_eq!(utf8_encode_char('\u{1f600}'), vec![0xF0, 0x9F, 0x98, 0x80]);
}

#[test]
fn merges_text_accepts_blanks_and_comments() {
    let text = "a b\n# a comment\n\n  \t\nc d\r\ne\tf";
    let rules = parse_merges(text).unwrap();
    assert_eq!(
        rules,
        vec![
            ("a".to_string(), "b".to_string()),
            ("c".to_string(), "d".to_string()),
            ("e".to_string(), "f".to_string()),
        ]
    );
    assert_eq!(parse_merges("").unwrap(), Vec::new());
}

#[test]
fn merges_text_rejects_malformed_lines_by_number() {
    assert_eq!(parse_merges("a b\nc\n"), Err(2));
    assert_eq!(parse_merges("a b c"), Err(1));
    assert_eq!(parse_merges("a b\n\n#ok\nx y z"), Err(4));
}

#[test]
fn merges_text_trims_line_whitespace() {
    let rules = parse_merges("  a   b  \n").unwrap();
    assert_eq!(rules, vec![("a".to_string(), "b".to_string())]);
}

#[test]
fn encoding_carries_offsets_and_masks() {
    let pairs = vec![(7u32, "hello".to_string()), (6u32, "hell".to_string())];
    let enc = CEncoding::from_pairs(&pairs);
    assert_eq!(enc.ids, vec![7, 6]);
    assert_eq!(enc.tokens, vec!["hello".to_string(), "hell".to_string()]);
    assert_eq!(enc.offsets, vec![(0, 5), (5, 9)]);
    assert_eq!(enc.attention_mask, vec![1, 1]);
    assert_eq!(enc.type_ids, vec![0, 0]);
    assert_eq!(enc.special_tokens_mask, vec![0, 0]);
    assert_eq!(enc.word_ids, vec![None, None]);
    assert_eq!(enc.len(), 2);
    assert_eq!(enc.overflowing.len(), 0);
    let empty = CEncoding::new();
    assert_eq!(empty.len(), 0);
}

#[test]
fn last_error_slot_sets_and_clears() {
    let mut slot = LastError::new();
    assert!(!slot.is_set());
    set_last_error(&mut slot, "something failed".to_string());
    assert!(slot.is_set());
    assert_eq!(slot.get().map(|s| s.as_str()), Some("something failed"));
    clear_last_error(&mut slot);
    assert!(!slot.is_set());
    assert_eq!(slot.get(), None);
}

#[test]
fn error_messages_describe_each_variant() {
    let variants = [
        BpeError::InvalidMergeRule(3),
        BpeError::UnknownTokenNotInVocab,
        BpeError::InvalidDropout,
        BpeError::UnmappableCharacter,
        BpeError::UnknownId(9),
    ];
    for v in &variants {
        assert!(!v.message().is_empty());
    }
}

#[test]
fn xorshift_streams_replay_from_a_seed() {
    let mut a = XorShift::new(42);
    let mut b = XorShift::new(42);
    let xs: Vec<u32> = (0..8).map(|_| a.next()).collect();
    let ys: Vec<u32> = (0..8).map(|_| b.next()).collect();
    assert_eq!(xs, ys);
    let mut z = XorShift::new(0);
    let mut z2 = XorShift::new(0);
    assert_eq!(z.next(), z2.next());
}
