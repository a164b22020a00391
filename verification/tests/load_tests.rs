use tokenizer_engine::config::load_config;
use tokenizer_engine::error::TokError;
use tokenizer_engine::registry::Registry;

fn bytes(s: &str) -> Vec<u8> {
    s.as_bytes().to_vec()
}

#[test]
fn load_wordpiece_config_and_encode() {
    let doc = bytes(
        "{\"model\":{\"type\":\"wordpiece\",\"unk_token\":\"[UNK]\",
            \"vocab\":{\"un\":0,\"##able\":1,\"[UNK]\":2}}}",
    );
    let e = load_config(&doc).unwrap();
    let enc = e.encode(&bytes("unable"), false).unwrap();
    assert_eq!(enc.ids, vec![0, 1]);
}

#[test]
fn load_bpe_config_with_merges() {
    let doc = bytes(
        "{\"model\":{\"type\":\"bpe\",\"unk_token\":\"[UNK]\",
            \"vocab\":{\"ab\":0,\"c\":1,\"[UNK]\":2},\"merges\":[\"a b\"]}}",
    );
    let e = load_config(&doc).unwrap();
    let enc = e.encode(&bytes("abc"), false).unwrap();
    assert_eq!(enc.ids, vec![0, 1]);
}

#[test]
fn load_reads_added_tokens() {
    let doc = bytes(
        "{\"model\":{\"type\":\"wordpiece\",\"unk_token\":\"[UNK]\",
            \"vocab\":{\"stop\":0,\"go\":1,\"[UNK]\":2}},
            \"added_tokens\":[{\"id\":0,\"content\":\"stop\",\"special\":true},
                            {\"id\":1,\"content\":\"go\",\"special\":false}]}",
    );
    let e = load_config(&doc).unwrap();
    let out = e.decode(&vec![0, 1], true).unwrap();
    assert_eq!(out, bytes("go"));
}

#[test]
fn load_applies_word_length_cap() {
    let doc = bytes(
        "{\"model\":{\"type\":\"wordpiece\",\"unk_token\":\"[UNK]\",
            \"vocab\":{\"a\":0,\"##a\":1,\"[UNK]\":2},\"max_input_chars_per_word\":3}}",
    );
    let e = load_config(&doc).unwrap();
    let enc = e.encode(&bytes("aaaa"), false).unwrap();
    assert_eq!(enc.ids, vec![2]);
    let short = e.encode(&bytes("aaa"), false).unwrap();
    assert_eq!(short.ids, vec![0, 1, 1]);
}

#[test]
fn load_rejects_bad_json() {
    assert_eq!(load_config(&bytes("{not json")).err(), Some(TokError::MalformedConfig));
}

#[test]
fn load_rejects_missing_model() {
    assert_eq!(load_config(&bytes("{}")).err(), Some(TokError::MalformedConfig));
}

#[test]
fn load_rejects_unknown_family() {
    let doc = bytes("{\"model\":{\"type\":\"fake_family\",\"vocab\":{\"a\":0}}}");
    assert_eq!(load_config(&doc).err(), Some(TokError::UnsupportedModelKind));
}

#[test]
fn load_rejects_duplicate_ids() {
    let doc = bytes("{\"model\":{\"type\":\"bpe\",\"vocab\":{\"a\":0,\"b\":0}}}");
    assert_eq!(load_config(&doc).err(), Some(TokError::MalformedConfig));
}

#[test]
fn load_rejects_oversized_id() {
    let doc = bytes("{\"model\":{\"type\":\"bpe\",\"vocab\":{\"a\":4294967296}}}");
    assert_eq!(load_config(&doc).err(), Some(TokError::MalformedConfig));
}

#[test]
fn load_rejects_bad_merge_line() {
    let doc = bytes("{\"model\":{\"type\":\"bpe\",\"vocab\":{\"a\":0},\"merges\":[\"ab\"]}}");
    assert_eq!(load_config(&doc).err(), Some(TokError::MalformedConfig));
}

#[test]
fn load_defaults_unknown_token() {
    let doc = bytes("{\"model\":{\"type\":\"bpe\",\"vocab\":{\"[UNK]\":0}}}");
    let e = load_config(&doc).unwrap();
    let enc = e.encode(&bytes("q"), false).unwrap();
    assert_eq!(enc.ids, vec![0]);
}

#[test]
fn registry_hands_out_and_disposes_handles() {
    let doc = bytes("{\"model\":{\"type\":\"bpe\",\"vocab\":{\"a\":0,\"[UNK]\":1}}}");
    let mut reg = Registry::new();
    let e = load_config(&doc).unwrap();
    let h = reg.open(e);
    {
        let engine = reg.engine(h).unwrap();
        let enc = engine.encode(&bytes("a"), false).unwrap();
        assert_eq!(enc.ids, vec![0]);
    }
    assert!(reg.dispose(h).is_ok());
    assert_eq!(reg.engine(h).err(), Some(TokError::InvalidHandle));
    assert_eq!(reg.dispose(h).err(), Some(TokError::InvalidHandle));
}

#[test]
fn registry_rejects_out_of_range_handles() {
    let reg = Registry::new();
    assert_eq!(reg.engine(0).err(), Some(TokError::InvalidHandle));
}

#[test]
fn load_added_token_joins_vocabulary() {
    let doc = bytes(
        "{\"model\":{\"type\":\"wordpiece\",\"unk_token\":\"[UNK]\",
            \"vocab\":{\"hello\":0,\"[UNK]\":1}},
            \"added_tokens\":[{\"id\":5,\"content\":\"<pad>\",\"special\":true}]}",
    );
    let e = load_config(&doc).unwrap();
    let out = e.decode(&vec![5], false).unwrap();
    assert_eq!(out, bytes("<pad>"));
    let report = e.get_config();
    assert_eq!(report.vocab_size, 3);
    let listed: Vec<String> = report
        .entries
        .iter()
        .map(|(t, _)| String::from_utf8(t.clone()).unwrap())
        .collect();
    assert!(listed.contains(&"<pad>".to_string()));
}

#[test]
fn load_added_token_with_taken_id_is_skipped() {
    let doc = bytes(
        "{\"model\":{\"type\":\"wordpiece\",\"unk_token\":\"[UNK]\",
            \"vocab\":{\"hello\":0,\"[UNK]\":1}},
            \"added_tokens\":[{\"id\":0,\"content\":\"<pad>\",\"special\":false}]}",
    );
    let e = load_config(&doc).unwrap();
    let report = e.get_config();
    assert_eq!(report.vocab_size, 2);
    let out = e.decode(&vec![0], false).unwrap();
    assert_eq!(out, bytes("hello"));
}

#[test]
fn load_rejects_wrong_shape_added_tokens() {
    let doc = bytes(
        "{\"model\":{\"type\":\"bpe\",\"vocab\":{\"a\":0}},
            \"added_tokens\":[{\"content\":\"x\"}]}",
    );
    assert_eq!(load_config(&doc).err(), Some(TokError::MalformedConfig));
}

#[test]
fn load_rejects_non_integer_vocab_value() {
    let doc = bytes("{\"model\":{\"type\":\"bpe\",\"vocab\":{\"a\":\"zero\"}}}");
    assert_eq!(load_config(&doc).err(), Some(TokError::MalformedConfig));
}
