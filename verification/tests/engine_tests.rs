use tokenizer_engine::config::{build_engine, RawConfig};
use tokenizer_engine::engine::{create, Encoding, Engine};
use tokenizer_engine::error::TokError;

fn raw(
    family: &str,
    vocab: Vec<(&str, u64)>,
    merge_lines: Vec<&str>,
    added: Vec<(&str, u64, bool)>,
) -> RawConfig {
    RawConfig {
        family: family.as_bytes().to_vec(),
        vocab: vocab.into_iter().map(|(t, i)| (t.as_bytes().to_vec(), i)).collect(),
        merge_lines: merge_lines.into_iter().map(|l| l.as_bytes().to_vec()).collect(),
        max_word_len: 100,
        unk: b"[UNK]".to_vec(),
        added: added.into_iter().map(|(t, i, s)| (t.as_bytes().to_vec(), i, s)).collect(),
    }
}

fn wordpiece_engine(vocab: Vec<(&str, u64)>) -> Engine {
    build_engine(raw("wordpiece", vocab, vec![], vec![])).unwrap()
}

fn bpe_engine(vocab: Vec<(&str, u64)>, merges: Vec<&str>) -> Engine {
    build_engine(raw("bpe", vocab, merges, vec![])).unwrap()
}

fn token_strings(enc: &Encoding) -> Vec<String> {
    enc.tokens.iter().map(|t| String::from_utf8(t.clone()).unwrap()).collect()
}

#[test]
fn create_known_families() {
    assert!(create(&b"bpe".to_vec(), b"[UNK]".to_vec()).is_ok());
    assert!(create(&b"wordpiece".to_vec(), b"[UNK]".to_vec()).is_ok());
}

#[test]
fn create_unknown_family_is_refused() {
    let r = create(&b"fake_family".to_vec(), b"[UNK]".to_vec());
    assert_eq!(r.err(), Some(TokError::UnsupportedModelKind));
}

#[test]
fn wordpiece_greedy_example() {
    let e = wordpiece_engine(vec![("un", 0), ("##able", 1), ("[UNK]", 2)]);
    let enc = e.encode(&b"unable".to_vec(), false).unwrap();
    assert_eq!(enc.ids, vec![0, 1]);
    assert_eq!(token_strings(&enc), vec!["un".to_string(), "##able".to_string()]);
    assert_eq!(enc.offsets, vec![(0, 2), (2, 6)]);
}

#[test]
fn wordpiece_unknown_word_maps_to_unk() {
    let e = wordpiece_engine(vec![("un", 0), ("##able", 1), ("[UNK]", 2)]);
    let enc = e.encode(&b"zzz".to_vec(), false).unwrap();
    assert_eq!(enc.ids, vec![2]);
    assert_eq!(token_strings(&enc), vec!["[UNK]".to_string()]);
    assert_eq!(enc.offsets, vec![(0, 3)]);
}

#[test]
fn wordpiece_word_over_cap_is_unknown() {
    let mut cfg = raw("wordpiece", vec![("a", 0), ("##a", 1), ("[UNK]", 2)], vec![], vec![]);
    cfg.max_word_len = 3;
    let e = build_engine(cfg).unwrap();
    let enc = e.encode(&b"aaaa".to_vec(), false).unwrap();
    assert_eq!(enc.ids, vec![2]);
}

#[test]
fn bpe_merges_pair_and_maps_ids() {
    let e = bpe_engine(vec![("ab", 0), ("c", 1), ("[UNK]", 2)], vec!["a b"]);
    let enc = e.encode(&b"abc".to_vec(), false).unwrap();
    assert_eq!(enc.ids, vec![0, 1]);
    assert_eq!(token_strings(&enc), vec!["ab".to_string(), "c".to_string()]);
    assert_eq!(enc.offsets, vec![(0, 2), (2, 3)]);
}

#[test]
fn bpe_merge_order_follows_rank() {
    // "ab" has the better (earlier) rank, so "abc" merges a+b, never b+c
    let e = bpe_engine(
        vec![("ab", 0), ("bc", 1), ("c", 2), ("[UNK]", 3)],
        vec!["a b", "b c"],
    );
    let enc = e.encode(&b"abc".to_vec(), false).unwrap();
    assert_eq!(token_strings(&enc), vec!["ab".to_string(), "c".to_string()]);
}

#[test]
fn bpe_unit_count_never_grows() {
    let e = bpe_engine(vec![("ab", 0), ("[UNK]", 1)], vec!["a b"]);
    for word in ["a", "ab", "abab", "xyzw"] {
        let enc = e.encode(&word.as_bytes().to_vec(), false).unwrap();
        assert!(enc.ids.len() >= 1);
        assert!(enc.ids.len() <= word.len());
    }
}

#[test]
fn bpe_unknown_unit_uses_unk_id() {
    let e = bpe_engine(vec![("a", 0), ("[UNK]", 9)], vec![]);
    let enc = e.encode(&b"ax".to_vec(), false).unwrap();
    assert_eq!(enc.ids, vec![0, 9]);
}

#[test]
fn encode_without_unk_in_vocab_fails_on_unknown() {
    let e = bpe_engine(vec![("a", 0)], vec![]);
    let r = e.encode(&b"q".to_vec(), false);
    assert_eq!(r.err(), Some(TokError::EncodeError));
}

#[test]
fn encode_rejects_invalid_utf8() {
    let e = bpe_engine(vec![("a", 0), ("[UNK]", 1)], vec![]);
    let r = e.encode(&vec![0x61, 0xff, 0x61], false);
    assert_eq!(r.err(), Some(TokError::EncodeError));
}

#[test]
fn encode_accepts_multibyte_utf8() {
    let e = bpe_engine(vec![("[UNK]", 0)], vec![]);
    let text = "caf\u{e9}".as_bytes().to_vec();
    assert!(e.encode(&text, false).is_ok());
}

#[test]
fn encode_is_deterministic() {
    let e = wordpiece_engine(vec![("un", 0), ("##able", 1), ("[UNK]", 2)]);
    let a = e.encode(&b"unable unable".to_vec(), false).unwrap();
    let b = e.encode(&b"unable unable".to_vec(), false).unwrap();
    assert_eq!(a.ids, b.ids);
    assert_eq!(a.tokens, b.tokens);
    assert_eq!(a.offsets, b.offsets);
}

#[test]
fn encode_offsets_span_words() {
    let e = wordpiece_engine(vec![
        ("ab", 0),
        ("##c", 1),
        ("de", 2),
        ("[UNK]", 3),
    ]);
    let enc = e.encode(&b"abc de".to_vec(), false).unwrap();
    assert_eq!(enc.ids, vec![0, 1, 2]);
    assert_eq!(enc.offsets, vec![(0, 2), (2, 3), (4, 6)]);
}

#[test]
fn encode_add_special_tokens_inserts_markers() {
    let mut e = wordpiece_engine(vec![("hi", 0), ("[UNK]", 1)]);
    e.bos = Some((b"<s>".to_vec(), 10));
    e.eos = Some((b"</s>".to_vec(), 11));
    let enc = e.encode(&b"hi".to_vec(), true).unwrap();
    assert_eq!(enc.ids, vec![10, 0, 11]);
    assert_eq!(enc.offsets, vec![(0, 0), (0, 2), (2, 2)]);
    let plain = e.encode(&b"hi".to_vec(), false).unwrap();
    assert_eq!(plain.ids, vec![0]);
}

#[test]
fn decode_round_trips_wordpiece_words() {
    let e = wordpiece_engine(vec![
        ("a", 0),
        ("b", 1),
        ("c", 2),
        ("##a", 3),
        ("##b", 4),
        ("##c", 5),
        ("[UNK]", 6),
    ]);
    let text = b"ab cba c".to_vec();
    let enc = e.encode(&text, false).unwrap();
    let back = e.decode(&enc.ids, false).unwrap();
    assert_eq!(back, text);
}

#[test]
fn decode_joins_plain_tokens_with_spaces() {
    let e = wordpiece_engine(vec![("hello", 0), ("world", 1), ("[UNK]", 2)]);
    let out = e.decode(&vec![0, 1], false).unwrap();
    assert_eq!(out, b"hello world".to_vec());
}

#[test]
fn decode_unknown_id_is_an_error() {
    let e = wordpiece_engine(vec![("a", 0), ("b", 1), ("[UNK]", 2)]);
    let r = e.decode(&vec![99999], true);
    assert_eq!(r.err(), Some(TokError::UnknownTokenId));
}

#[test]
fn decode_skips_special_tokens_when_asked() {
    let e = wordpiece_engine(vec![("<s>", 0), ("hello", 1), ("</s>", 2), ("[UNK]", 3)]);
    let kept = e.decode(&vec![0, 1, 2], false).unwrap();
    assert_eq!(kept, b"<s> hello </s>".to_vec());
    let skipped = e.decode(&vec![0, 1, 2], true).unwrap();
    assert_eq!(skipped, b"hello".to_vec());
}

#[test]
fn decode_skips_declared_special_ids() {
    let e = build_engine(raw(
        "wordpiece",
        vec![("stop", 0), ("go", 1), ("[UNK]", 2)],
        vec![],
        vec![("stop", 0, true)],
    ))
    .unwrap();
    let out = e.decode(&vec![0, 1], true).unwrap();
    assert_eq!(out, b"go".to_vec());
}

#[test]
fn get_config_reports_table_and_specials() {
    let e = wordpiece_engine(vec![("<s>", 0), ("hello", 1), ("</s>", 2)]);
    let report = e.get_config();
    assert_eq!(report.vocab_size, 3);
    assert_eq!(report.entries.len(), 3);
    let specials: Vec<String> = report
        .specials
        .iter()
        .map(|(t, _)| String::from_utf8(t.clone()).unwrap())
        .collect();
    assert_eq!(specials, vec!["<s>".to_string(), "</s>".to_string()]);
}

#[test]
fn get_config_counts_role_names_as_special() {
    let e = wordpiece_engine(vec![("user", 0), ("hi", 1), ("system", 2)]);
    let report = e.get_config();
    let ids: Vec<u32> = report.specials.iter().map(|(_, i)| *i).collect();
    assert_eq!(ids, vec![0, 2]);
}

#[test]
fn wordpiece_surfaces_rebuild_the_word() {
    let e = wordpiece_engine(vec![("abc", 0), ("##d", 1), ("[UNK]", 2)]);
    let enc = e.encode(&b"abcd".to_vec(), false).unwrap();
    let rebuilt: Vec<u8> = enc
        .tokens
        .iter()
        .map(|t| if t.starts_with(b"##") { t[2..].to_vec() } else { t.clone() })
        .flatten()
        .collect();
    assert_eq!(rebuilt, b"abcd".to_vec());
}

#[test]
fn get_config_reports_declared_specials() {
    let e = build_engine(raw(
        "wordpiece",
        vec![("stop", 7), ("go", 8), ("[UNK]", 9)],
        vec![],
        vec![("stop", 7, true)],
    ))
    .unwrap();
    let report = e.get_config();
    let ids: Vec<u32> = report.specials.iter().map(|(_, i)| *i).collect();
    assert_eq!(ids, vec![7, 9]);
}
