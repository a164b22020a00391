//! Loading an engine from a serialized configuration: a JSON document of
//! the shape `{"model": {"type", "unk_token", "vocab", "merges",
//! "max_input_chars_per_word"}, "added_tokens": [{"id", "content",
//! "special"}]}`.  serde_json parses the document; everything read out of
//! it is validated and assembled by verified code over plain values.

use vstd::prelude::*;

use crate::bytes::subvec;
use crate::engine::{family_bpe, family_wordpiece, Engine, Model, DEFAULT_MAX_WORD_LEN};
use crate::error::TokError;
use crate::vocab::{lemma_push_keeps_wf, pairs_view, spec_id_of, spec_token_of, table_wf, Vocab};
use crate::bpe::merges_view;

verus! {

#[verifier::external_type_specification]
#[verifier::external_body]
pub struct ExValue(serde_json::Value);

/// A JSON document as a mathematical value: what the loader reads out of a
/// `serde_json::Value`.  Strings and object keys are their UTF-8 bytes; an
/// object is its entry list in the order serde_json iterates it (keys are
/// unique there); a number that `as_u64` does not accept reads as
/// `OtherNum`, which the loader rejects wherever an integer is expected.
pub enum JsonView {
    Null,
    Bool(bool),
    UInt(u64),
    OtherNum,
    Str(Seq<u8>),
    Arr(Seq<JsonView>),
    Obj(Seq<(Seq<u8>, JsonView)>),
}

/// The UTF-8 bytes a string of text encodes to (what str::as_bytes
/// returns): a function of the characters alone.
pub uninterp spec fn utf8_of(s: Seq<char>) -> Seq<u8>;

/// What serde_json::from_slice returns on given bytes, as a document view;
/// `None` when the bytes do not parse.  Parsing is a function of the bytes
/// alone.
pub uninterp spec fn parsed_of(bytes: Seq<u8>) -> Option<JsonView>;

/// The content of a serde_json value, as a document view.
pub uninterp spec fn view_of(v: serde_json::Value) -> JsonView;

/// First entry of an object's entry list carrying the key, from `k` on.
pub open spec fn obj_get_from(
    es: Seq<(Seq<u8>, JsonView)>,
    key: Seq<u8>,
    k: int,
) -> Option<JsonView>
    decreases es.len() - k,
{
    if k < 0 || k >= es.len() {
        None
    } else if es[k].0 == key {
        Some(es[k].1)
    } else {
        obj_get_from(es, key, k + 1)
    }
}

/// The field of a JSON object under a key; `None` for a missing key or a
/// non-object.
pub open spec fn obj_get(j: JsonView, key: Seq<u8>) -> Option<JsonView> {
    match j {
        JsonView::Obj(es) => obj_get_from(es, key, 0),
        _ => None,
    }
}

/// Relies on serde_json::from_slice: parses a JSON document, or fails.
#[verifier::external_body]
fn parse_json(bytes: &Vec<u8>) -> (r: Option<serde_json::Value>)
    ensures
        match r {
            Some(v) => parsed_of(bytes@) == Some(view_of(v)),
            None => parsed_of(bytes@) is None,
        },
{
    serde_json::from_slice(bytes.as_slice()).ok()
}

/// Relies on serde_json::Value::get: the field of an object, by key.
#[verifier::external_body]
fn get_field(v: &serde_json::Value, key: &str) -> (r: Option<serde_json::Value>)
    ensures
        match r {
            Some(f) => obj_get(view_of(*v), utf8_of(key@)) == Some(view_of(f)),
            None => obj_get(view_of(*v), utf8_of(key@)) is None,
        },
{
    v.get(key).cloned()
}

/// Relies on serde_json::Value::as_str: the bytes of a JSON string value.
#[verifier::external_body]
fn json_str_bytes(v: &serde_json::Value) -> (r: Option<Vec<u8>>)
    ensures
        match r {
            Some(b) => view_of(*v) == JsonView::Str(b@),
            None => !(view_of(*v) is Str),
        },
{
    v.as_str().map(|s| s.as_bytes().to_vec())
}

/// Relies on serde_json::Value::as_u64: a JSON number as an integer.
#[verifier::external_body]
fn json_u64(v: &serde_json::Value) -> (r: Option<u64>)
    ensures
        match r {
            Some(n) => view_of(*v) == JsonView::UInt(n),
            None => !(view_of(*v) is UInt),
        },
{
    v.as_u64()
}

/// Relies on serde_json::Value::as_bool: a JSON boolean.
#[verifier::external_body]
fn json_bool(v: &serde_json::Value) -> (r: Option<bool>)
    ensures
        match r {
            Some(b) => view_of(*v) == JsonView::Bool(b),
            None => !(view_of(*v) is Bool),
        },
{
    v.as_bool()
}

/// Relies on serde_json::Value::as_array: the elements of a JSON array.
#[verifier::external_body]
fn json_array(v: &serde_json::Value) -> (r: Option<Vec<serde_json::Value>>)
    ensures
        match r {
            Some(items) => view_of(*v) == JsonView::Arr(
                items@.map_values(|x: serde_json::Value| view_of(x)),
            ),
            None => !(view_of(*v) is Arr),
        },
{
    v.as_array().cloned()
}

/// Relies on serde_json::Value::as_object and serde_json::Map::iter: the
/// entries of a JSON object in iteration order, keys as bytes.
#[verifier::external_body]
fn json_object_pairs(v: &serde_json::Value) -> (r: Option<Vec<(Vec<u8>, serde_json::Value)>>)
    ensures
        match r {
            Some(pairs) => view_of(*v) == JsonView::Obj(
                pairs@.map_values(|p: (Vec<u8>, serde_json::Value)| (p.0@, view_of(p.1))),
            ),
            None => !(view_of(*v) is Obj),
        },
{
    v.as_object().map(|m| m.iter().map(|(k, x)| (k.as_bytes().to_vec(), x.clone())).collect())
}

/// Everything a configuration document yields, as plain values, before
/// validation.
pub struct RawConfig {
    /// The model family tag.
    pub family: Vec<u8>,
    /// Token to id, as written in the document.
    pub vocab: Vec<(Vec<u8>, u64)>,
    /// BPE merge lines, each `"left right"`.
    pub merge_lines: Vec<Vec<u8>>,
    /// WordPiece word length cap.
    pub max_word_len: u64,
    /// The unknown token.
    pub unk: Vec<u8>,
    /// Added tokens: content, id, special flag.
    pub added: Vec<(Vec<u8>, u64, bool)>,
}

/// Entry pairs before the id width check.
pub open spec fn raw_pairs_view(v: Seq<(Vec<u8>, u64)>) -> Seq<(Seq<u8>, u64)> {
    v.map_values(|p: (Vec<u8>, u64)| (p.0@, p.1))
}

/// Every id fits the engine's id width.
pub open spec fn ids_fit(v: Seq<(Seq<u8>, u64)>) -> bool {
    forall|i: int| 0 <= i < v.len() ==> (#[trigger] v[i]).1 <= u32::MAX
}

/// The table after narrowing the ids.
pub open spec fn cast_view(v: Seq<(Seq<u8>, u64)>) -> Seq<(Seq<u8>, u32)> {
    v.map_values(|p: (Seq<u8>, u64)| (p.0, p.1 as u32))
}

/// Added tokens as mathematical triples.
pub open spec fn triples_view(v: Seq<(Vec<u8>, u64, bool)>) -> Seq<(Seq<u8>, u64, bool)> {
    v.map_values(|p: (Vec<u8>, u64, bool)| (p.0@, p.1, p.2))
}

/// Every added token's id fits the engine's id width.
pub open spec fn added_fit(v: Seq<(Seq<u8>, u64, bool)>) -> bool {
    forall|i: int| 0 <= i < v.len() ==> (#[trigger] v[i]).1 <= u32::MAX
}

/// The declared special entries: the added tokens whose flag is set.
pub open spec fn keep_flagged(v: Seq<(Seq<u8>, u64, bool)>, k: int) -> Seq<(Seq<u8>, u32)>
    decreases v.len() - k,
{
    if k < 0 || k >= v.len() {
        Seq::empty()
    } else if v[k].2 {
        seq![(v[k].0, v[k].1 as u32)] + keep_flagged(v, k + 1)
    } else {
        keep_flagged(v, k + 1)
    }
}

/// The plain content a configuration document yields, at the spec level.
pub struct RawView {
    pub family: Seq<u8>,
    pub vocab: Seq<(Seq<u8>, u64)>,
    pub merge_lines: Seq<Seq<u8>>,
    pub max_word_len: u64,
    pub unk: Seq<u8>,
    pub added: Seq<(Seq<u8>, u64, bool)>,
}

/// The view of an extracted configuration.
pub open spec fn raw_view(c: RawConfig) -> RawView {
    RawView {
        family: c.family@,
        vocab: raw_pairs_view(c.vocab@),
        merge_lines: lines_view(c.merge_lines@),
        max_word_len: c.max_word_len,
        unk: c.unk@,
        added: triples_view(c.added@),
    }
}

/// The default unknown token, `"[UNK]"`.
pub open spec fn default_unk_view() -> Seq<u8> {
    seq![91u8, 85u8, 78u8, 75u8, 93u8]
}

/// The vocabulary entries of the `vocab` object from position `k` on;
/// `None` when some value is not an integer.
pub open spec fn vocab_fields(es: Seq<(Seq<u8>, JsonView)>, k: int) -> Option<Seq<(Seq<u8>, u64)>>
    decreases es.len() - k,
{
    if k < 0 || k >= es.len() {
        Some(Seq::empty())
    } else {
        match es[k].1 {
            JsonView::UInt(n) => match vocab_fields(es, k + 1) {
                None => None,
                Some(rest) => Some(seq![(es[k].0, n)] + rest),
            },
            _ => None,
        }
    }
}

/// The merge lines of the `merges` array from position `k` on; `None`
/// when some element is not a string.
pub open spec fn merge_fields(items: Seq<JsonView>, k: int) -> Option<Seq<Seq<u8>>>
    decreases items.len() - k,
{
    if k < 0 || k >= items.len() {
        Some(Seq::empty())
    } else {
        match items[k] {
            JsonView::Str(line) => match merge_fields(items, k + 1) {
                None => None,
                Some(rest) => Some(seq![line] + rest),
            },
            _ => None,
        }
    }
}

/// One added token: an object with an integer `id`, a string `content`,
/// and an optional boolean `special` (absent means not special).
pub open spec fn added_field(j: JsonView) -> Option<(Seq<u8>, u64, bool)> {
    match obj_get(j, utf8_of("id"@)) {
        Some(JsonView::UInt(id)) => match obj_get(j, utf8_of("content"@)) {
            Some(JsonView::Str(content)) => match obj_get(j, utf8_of("special"@)) {
                None => Some((content, id, false)),
                Some(JsonView::Bool(b)) => Some((content, id, b)),
                Some(_) => None,
            },
            _ => None,
        },
        _ => None,
    }
}

/// The added tokens of the `added_tokens` array from position `k` on.
pub open spec fn added_fields(items: Seq<JsonView>, k: int) -> Option<Seq<(Seq<u8>, u64, bool)>>
    decreases items.len() - k,
{
    if k < 0 || k >= items.len() {
        Some(Seq::empty())
    } else {
        match added_field(items[k]) {
            None => None,
            Some(t) => match added_fields(items, k + 1) {
                None => None,
                Some(rest) => Some(seq![t] + rest),
            },
        }
    }
}

/// What the loader reads from a parsed document: the model family, the
/// unknown token (defaulting to `"[UNK]"`), the vocabulary, the merge
/// lines, the word length cap (defaulting), and the added tokens.  `None`
/// when a required field is missing or some field has the wrong shape.
pub open spec fn spec_extract(doc: JsonView) -> Option<RawView> {
    match obj_get(doc, utf8_of("model"@)) {
        None => None,
        Some(model) => match obj_get(model, utf8_of("type"@)) {
            Some(JsonView::Str(family)) => {
                let unk_opt = match obj_get(model, utf8_of("unk_token"@)) {
                    None => Some(default_unk_view()),
                    Some(JsonView::Str(u)) => Some(u),
                    Some(_) => None,
                };
                match unk_opt {
                    None => None,
                    Some(unk) => match obj_get(model, utf8_of("vocab"@)) {
                        Some(JsonView::Obj(ves)) => match vocab_fields(ves, 0) {
                            None => None,
                            Some(vocab) => {
                                let merges_opt = match obj_get(model, utf8_of("merges"@)) {
                                    None => Some(Seq::<Seq<u8>>::empty()),
                                    Some(JsonView::Arr(items)) => merge_fields(items, 0),
                                    Some(_) => None,
                                };
                                match merges_opt {
                                    None => None,
                                    Some(merge_lines) => {
                                        let max_opt = match obj_get(
                                            model,
                                            utf8_of("max_input_chars_per_word"@),
                                        ) {
                                            None => Some(DEFAULT_MAX_WORD_LEN as u64),
                                            Some(JsonView::UInt(n)) => Some(n),
                                            Some(_) => None,
                                        };
                                        match max_opt {
                                            None => None,
                                            Some(max_word_len) => {
                                                let added_opt = match obj_get(
                                                    doc,
                                                    utf8_of("added_tokens"@),
                                                ) {
                                                    None => Some(
                                                        Seq::<(Seq<u8>, u64, bool)>::empty(),
                                                    ),
                                                    Some(JsonView::Arr(items)) => added_fields(
                                                        items,
                                                        0,
                                                    ),
                                                    Some(_) => None,
                                                };
                                                match added_opt {
                                                    None => None,
                                                    Some(added) => Some(
                                                        RawView {
                                                            family,
                                                            vocab,
                                                            merge_lines,
                                                            max_word_len,
                                                            unk,
                                                            added,
                                                        },
                                                    ),
                                                }
                                            },
                                        }
                                    },
                                }
                            },
                        },
                        _ => None,
                    },
                }
            },
            _ => None,
        },
    }
}

/// What the loader reads from a byte string: the parsed document's fields,
/// or `None` when the bytes do not parse or the document has the wrong
/// shape.
pub open spec fn loaded_view(bytes: Seq<u8>) -> Option<RawView> {
    match parsed_of(bytes) {
        None => None,
        Some(doc) => spec_extract(doc),
    }
}

/// The table after the added tokens join it: each joins in turn unless
/// its token or its id is already present, so the no-duplicate invariant
/// is kept and a conflicting added token is skipped.
pub open spec fn extend_table(
    es: Seq<(Seq<u8>, u32)>,
    added: Seq<(Seq<u8>, u64, bool)>,
    k: int,
) -> Seq<(Seq<u8>, u32)>
    decreases added.len() - k,
{
    if k < 0 || k >= added.len() {
        es
    } else {
        let es2 = if spec_id_of(es, added[k].0) is None && spec_token_of(
            es,
            added[k].1 as u32,
        ) is None {
            es.push((added[k].0, added[k].1 as u32))
        } else {
            es
        };
        extend_table(es2, added, k + 1)
    }
}

/// A raw configuration the builder accepts: a known family tag, ids that
/// fit the engine's id width, a duplicate-free vocabulary, a length cap
/// that fits, and (for BPE) merge lines that split.
pub open spec fn raw_ok(v: RawView) -> bool {
    &&& (v.family == family_bpe() || v.family == family_wordpiece())
    &&& ids_fit(v.vocab)
    &&& table_wf(cast_view(v.vocab))
    &&& added_fit(v.added)
    &&& v.max_word_len <= usize::MAX
    &&& (v.family == family_bpe() ==> merges_ok(v.merge_lines))
}

/// First position of a space byte at or after `k`.
pub open spec fn first_space(l: Seq<u8>, k: int) -> Option<int>
    decreases l.len() - k,
{
    if k < 0 || k >= l.len() {
        None
    } else if l[k] == 32 {
        Some(k)
    } else {
        first_space(l, k + 1)
    }
}

/// A merge line split at its first space, both sides nonempty.
pub open spec fn spec_split_merge(l: Seq<u8>) -> Option<(Seq<u8>, Seq<u8>)> {
    match first_space(l, 0) {
        None => None,
        Some(i) => if i == 0 || i == l.len() - 1 {
            None
        } else {
            Some((l.take(i), l.skip(i + 1)))
        },
    }
}

/// Merge lines as mathematical byte strings.
pub open spec fn lines_view(v: Seq<Vec<u8>>) -> Seq<Seq<u8>> {
    v.map_values(|l: Vec<u8>| l@)
}

/// Every merge line splits.
pub open spec fn merges_ok(lines: Seq<Seq<u8>>) -> bool {
    forall|i: int| 0 <= i < lines.len() ==> spec_split_merge(#[trigger] lines[i]) is Some
}

/// The merge table the lines denote.
pub open spec fn split_merges(lines: Seq<Seq<u8>>) -> Seq<(Seq<u8>, Seq<u8>)> {
    lines.map_values(|l: Seq<u8>| spec_split_merge(l).unwrap())
}

proof fn lemma_first_space_bounds(l: Seq<u8>, k: int)
    requires
        0 <= k,
        first_space(l, k) is Some,
    ensures
        k <= first_space(l, k).unwrap() < l.len(),
        l[first_space(l, k).unwrap()] == 32,
    decreases l.len() - k,
{
    if k < l.len() && l[k] != 32 {
        lemma_first_space_bounds(l, k + 1);
    }
}

fn first_space_at(l: &Vec<u8>, k: usize) -> (r: Option<usize>)
    requires
        k <= l@.len(),
    ensures
        match r {
            Some(i) => first_space(l@, k as int) == Some(i as int),
            None => first_space(l@, k as int) is None,
        },
    decreases l@.len() - k,
{
    if k >= l.len() {
        None
    } else if l[k] == 32 {
        Some(k)
    } else {
        first_space_at(l, k + 1)
    }
}

fn split_merge_line(l: &Vec<u8>) -> (r: Option<(Vec<u8>, Vec<u8>)>)
    ensures
        match r {
            Some(p) => spec_split_merge(l@) == Some((p.0@, p.1@)),
            None => spec_split_merge(l@) is None,
        },
{
    match first_space_at(l, 0) {
        None => None,
        Some(i) => {
            proof {
                lemma_first_space_bounds(l@, 0);
            }
            if i == 0 || i == l.len() - 1 {
                None
            } else {
                let left = subvec(l, 0, i);
                let right = subvec(l, i + 1, l.len());
                proof {
                    assert(left@ =~= l@.take(i as int));
                    assert(right@ =~= l@.skip(i + 1));
                }
                Some((left, right))
            }
        },
    }
}

fn narrow_pairs(v: &Vec<(Vec<u8>, u64)>) -> (r: Option<Vec<(Vec<u8>, u32)>>)
    ensures
        (r is Some) == ids_fit(raw_pairs_view(v@)),
        r is Some ==> pairs_view(r.unwrap()@) == cast_view(raw_pairs_view(v@)),
{
    let mut out: Vec<(Vec<u8>, u32)> = Vec::new();
    let mut k: usize = 0;
    while k < v.len()
        invariant
            k <= v@.len(),
            out@.len() == k,
            forall|i: int| 0 <= i < k ==> (#[trigger] raw_pairs_view(v@)[i]).1 <= u32::MAX,
            forall|i: int|
                0 <= i < k ==> (#[trigger] out@[i]).0@ == v@[i].0@ && out@[i].1 == v@[i].1 as u32,
        decreases v@.len() - k,
    {
        let p = &v[k];
        if p.1 > 0xffff_ffff {
            proof {
                assert((#[trigger] raw_pairs_view(v@)[k as int]).1 > u32::MAX);
                assert(!ids_fit(raw_pairs_view(v@)));
            }
            return None;
        }
        let tok = subvec(&p.0, 0, p.0.len());
        proof {
            assert(tok@ =~= v@[k as int].0@);
        }
        out.push((tok, p.1 as u32));
        k = k + 1;
    }
    proof {
        assert(pairs_view(out@) =~= cast_view(raw_pairs_view(v@)));
    }
    Some(out)
}

fn narrow_flagged(v: &Vec<(Vec<u8>, u64, bool)>) -> (r: Option<Vec<(Vec<u8>, u32)>>)
    ensures
        (r is Some) == added_fit(triples_view(v@)),
        r is Some ==> pairs_view(r.unwrap()@) == keep_flagged(triples_view(v@), 0),
{
    narrow_flagged_from(v, 0)
}

fn narrow_flagged_from(v: &Vec<(Vec<u8>, u64, bool)>, k: usize) -> (r: Option<
    Vec<(Vec<u8>, u32)>,
>)
    requires
        k <= v@.len(),
    ensures
        (r is Some) == (forall|i: int|
            k <= i < v@.len() ==> (#[trigger] triples_view(v@)[i]).1 <= u32::MAX),
        r is Some ==> pairs_view(r.unwrap()@) == keep_flagged(triples_view(v@), k as int),
    decreases v@.len() - k,
{
    if k >= v.len() {
        let out: Vec<(Vec<u8>, u32)> = Vec::new();
        proof {
            assert(pairs_view(out@) =~= Seq::<(Seq<u8>, u32)>::empty());
        }
        Some(out)
    } else {
        let p = &v[k];
        if p.1 > 0xffff_ffff {
            proof {
                assert((#[trigger] triples_view(v@)[k as int]).1 > u32::MAX);
            }
            return None;
        }
        match narrow_flagged_from(v, k + 1) {
            None => None,
            Some(rest) => {
                if p.2 {
                    let mut out: Vec<(Vec<u8>, u32)> = Vec::new();
                    let tok = subvec(&p.0, 0, p.0.len());
                    proof {
                        assert(tok@ =~= v@[k as int].0@);
                    }
                    out.push((tok, p.1 as u32));
                    crate::decode::append_pairs(&mut out, &rest);
                    proof {
                        assert(pairs_view(out@) =~= seq![
                            (v@[k as int].0@, v@[k as int].1 as u32),
                        ] + pairs_view(rest@));
                    }
                    Some(out)
                } else {
                    Some(rest)
                }
            },
        }
    }
}

fn table_wf_check_one(es: &Vec<(Vec<u8>, u32)>, a: usize, j0: usize) -> (r: bool)
    requires
        a < es@.len(),
        a < j0 <= es@.len(),
    ensures
        r == (forall|j: int|
            j0 <= j < es@.len() ==> pairs_view(es@)[a as int].0 != (#[trigger] pairs_view(
                es@,
            )[j]).0 && pairs_view(es@)[a as int].1 != pairs_view(es@)[j].1),
    decreases es@.len() - j0,
{
    if j0 >= es.len() {
        true
    } else {
        let distinct = !crate::bytes::bytes_eq(&es[a].0, &es[j0].0) && es[a].1 != es[j0].1;
        proof {
            assert(pairs_view(es@)[a as int] == (es@[a as int].0@, es@[a as int].1));
            assert(pairs_view(es@)[j0 as int] == (es@[j0 as int].0@, es@[j0 as int].1));
        }
        if distinct {
            let rest_ok = table_wf_check_one(es, a, j0 + 1);
            proof {
                if rest_ok {
                    assert forall|j: int| j0 <= j < es@.len() implies pairs_view(
                        es@,
                    )[a as int].0 != (#[trigger] pairs_view(es@)[j]).0 && pairs_view(
                        es@,
                    )[a as int].1 != pairs_view(es@)[j].1 by {}
                }
            }
            rest_ok
        } else {
            false
        }
    }
}

fn table_wf_check_from(es: &Vec<(Vec<u8>, u32)>, i: usize) -> (r: bool)
    requires
        i <= es@.len(),
    ensures
        r == (forall|a: int, b: int|
            i <= a < b < es@.len() ==> (#[trigger] pairs_view(es@)[a]).0 != (
            #[trigger] pairs_view(es@)[b]).0 && pairs_view(es@)[a].1 != pairs_view(es@)[b].1),
    decreases es@.len() - i,
{
    if i >= es.len() {
        true
    } else {
        if !table_wf_check_one(es, i, i + 1) {
            false
        } else {
            table_wf_check_from(es, i + 1)
        }
    }
}

/// Whether an entry list makes a well-formed table: no duplicate token, no
/// duplicate id.
pub fn table_wf_check(es: &Vec<(Vec<u8>, u32)>) -> (r: bool)
    ensures
        r == table_wf(pairs_view(es@)),
{
    table_wf_check_from(es, 0)
}

fn family_flags(family: &Vec<u8>) -> (r: (bool, bool))
    ensures
        r.0 == (family@ == family_bpe()),
        r.1 == (family@ == family_wordpiece()),
{
    let is_bpe = family.len() == 3 && family[0] == 98 && family[1] == 112 && family[2] == 101;
    let is_wp = family.len() == 9 && family[0] == 119 && family[1] == 111 && family[2] == 114
        && family[3] == 100 && family[4] == 112 && family[5] == 105 && family[6] == 101
        && family[7] == 99 && family[8] == 101;
    proof {
        assert(is_bpe == (family@ == family_bpe())) by {
            if is_bpe {
                assert(family@ =~= family_bpe());
            }
        }
        assert(is_wp == (family@ == family_wordpiece())) by {
            if is_wp {
                assert(family@ =~= family_wordpiece());
            }
        }
    }
    (is_bpe, is_wp)
}

/// Validate a raw configuration and assemble the engine.  Succeeds exactly
/// when the family tag is known, every id fits the engine's id width, the
/// vocabulary has no duplicate token or id, the length cap fits, and (for
/// BPE) every merge line splits at a space into two nonempty sides.  An
/// unknown tag gives [`TokError::UnsupportedModelKind`]; any other failure
/// gives [`TokError::MalformedConfig`].  Added tokens join the vocabulary
/// unless their token or id is already taken; the flagged ones are the
/// engine's declared specials.
#[verifier::loop_isolation(false)]
pub fn build_engine(c: RawConfig) -> (r: Result<Engine, TokError>)
    ensures
        (r is Ok) == raw_ok(raw_view(c)),
        r is Err ==> r->Err_0 == (if c.family@ == family_bpe() || c.family@
            == family_wordpiece() {
            TokError::MalformedConfig
        } else {
            TokError::UnsupportedModelKind
        }),
        r is Ok ==> {
            let e = r.unwrap();
            &&& e.wf()
            &&& e.table() == extend_table(
                cast_view(raw_pairs_view(c.vocab@)),
                triples_view(c.added@),
                0,
            )
            &&& e.unk@ == c.unk@
            &&& e.bos is None
            &&& e.eos is None
            &&& pairs_view(e.specials@) == keep_flagged(triples_view(c.added@), 0)
            &&& c.family@ == family_bpe() ==> (e.model matches Model::Bpe { merges }
                && merges_view(merges@) == split_merges(lines_view(c.merge_lines@)))
            &&& c.family@ == family_wordpiece() ==> (e.model matches Model::WordPiece {
                max_word_len,
            } && max_word_len == c.max_word_len)
        },
{
    let (is_bpe, is_wp) = family_flags(&c.family);
    if !is_bpe && !is_wp {
        return Err(TokError::UnsupportedModelKind);
    }
    if c.max_word_len > (usize::MAX as u64) {
        return Err(TokError::MalformedConfig);
    }
    let vocab_entries = match narrow_pairs(&c.vocab) {
        None => {
            return Err(TokError::MalformedConfig);
        },
        Some(x) => x,
    };
    if !table_wf_check(&vocab_entries) {
        return Err(TokError::MalformedConfig);
    }
    let specials = match narrow_flagged(&c.added) {
        None => {
            return Err(TokError::MalformedConfig);
        },
        Some(x) => x,
    };
    let ghost table0 = pairs_view(vocab_entries@);
    let mut voc = Vocab { entries: vocab_entries };
    let mut k: usize = 0;
    while k < c.added.len()
        invariant
            k <= c.added@.len(),
            voc.wf(),
            extend_table(table0, triples_view(c.added@), 0) == extend_table(
                voc.table(),
                triples_view(c.added@),
                k as int,
            ),
        decreases c.added@.len() - k,
    {
        let a = &c.added[k];
        proof {
            assert(triples_view(c.added@)[k as int] == (a.0@, a.1, a.2));
            assert((#[trigger] triples_view(c.added@)[k as int]).1 <= u32::MAX);
        }
        let tok = subvec(&a.0, 0, a.0.len());
        proof {
            assert(tok@ =~= a.0@);
        }
        let id = a.1 as u32;
        let tok_fresh = match voc.id_of(&tok) {
            None => true,
            Some(_) => false,
        };
        let id_fresh = match voc.token_of(id) {
            None => true,
            Some(_) => false,
        };
        if tok_fresh && id_fresh {
            proof {
                lemma_push_keeps_wf(voc.table(), tok@, id);
            }
            let ghost pre = voc.table();
            voc.entries.push((tok, id));
            proof {
                assert(voc.table() =~= pre.push((a.0@, a.1 as u32)));
            }
        }
        k = k + 1;
    }
    proof {
        assert(extend_table(voc.table(), triples_view(c.added@), c.added@.len() as int)
            == voc.table());
    }
    let model = if is_bpe {
        let mut merges: Vec<(Vec<u8>, Vec<u8>)> = Vec::new();
        let mut k: usize = 0;
        while k < c.merge_lines.len()
            invariant
                k <= c.merge_lines@.len(),
                merges@.len() == k,
                forall|i: int|
                    0 <= i < k ==> spec_split_merge(#[trigger] lines_view(c.merge_lines@)[i])
                        is Some,
                forall|i: int|
                    0 <= i < k ==> ((#[trigger] merges@[i]).0@, merges@[i].1@)
                        == spec_split_merge(lines_view(c.merge_lines@)[i]).unwrap(),
            decreases c.merge_lines@.len() - k,
        {
            match split_merge_line(&c.merge_lines[k]) {
                None => {
                    proof {
                        assert(spec_split_merge(lines_view(c.merge_lines@)[k as int]) is None);
                        assert(!merges_ok(lines_view(c.merge_lines@)));
                    }
                    return Err(TokError::MalformedConfig);
                },
                Some(p) => {
                    merges.push(p);
                    k = k + 1;
                },
            }
        }
        proof {
            assert(merges_view(merges@) =~= split_merges(lines_view(c.merge_lines@)));
        }
        Model::Bpe { merges }
    } else {
        Model::WordPiece { max_word_len: c.max_word_len as usize }
    };
    let e = Engine {
        model,
        vocab: voc,
        unk: c.unk,
        bos: None,
        eos: None,
        specials,
    };
    Ok(e)
}

fn default_unk() -> (r: Vec<u8>)
    ensures
        r@ =~= default_unk_view(),
{
    let mut out: Vec<u8> = Vec::new();
    out.push(91);
    out.push(85);
    out.push(78);
    out.push(75);
    out.push(93);
    out
}

fn vocab_from_pairs(pairs: &Vec<(Vec<u8>, serde_json::Value)>, k: usize) -> (r: Option<
    Vec<(Vec<u8>, u64)>,
>)
    requires
        k <= pairs@.len(),
    ensures
        ({
            let es = pairs@.map_values(|p: (Vec<u8>, serde_json::Value)| (p.0@, view_of(p.1)));
            match r {
                Some(v) => vocab_fields(es, k as int) == Some(raw_pairs_view(v@)),
                None => vocab_fields(es, k as int) is None,
            }
        }),
    decreases pairs@.len() - k,
{
    let ghost es = pairs@.map_values(|p: (Vec<u8>, serde_json::Value)| (p.0@, view_of(p.1)));
    if k >= pairs.len() {
        let out: Vec<(Vec<u8>, u64)> = Vec::new();
        proof {
            assert(raw_pairs_view(out@) =~= Seq::<(Seq<u8>, u64)>::empty());
        }
        Some(out)
    } else {
        proof {
            assert(es[k as int] == (pairs@[k as int].0@, view_of(pairs@[k as int].1)));
        }
        match json_u64(&pairs[k].1) {
            None => None,
            Some(n) => match vocab_from_pairs(pairs, k + 1) {
                None => None,
                Some(rest) => {
                    let mut out = rest;
                    let tok = subvec(&pairs[k].0, 0, pairs[k].0.len());
                    proof {
                        assert(tok@ =~= pairs@[k as int].0@);
                    }
                    out.insert(0, (tok, n));
                    proof {
                        assert(raw_pairs_view(out@) =~= seq![
                            (es[k as int].0, n),
                        ] + vocab_fields(es, k + 1).unwrap());
                    }
                    Some(out)
                },
            },
        }
    }
}

fn merges_from_items(items: &Vec<serde_json::Value>, k: usize) -> (r: Option<Vec<Vec<u8>>>)
    requires
        k <= items@.len(),
    ensures
        ({
            let iv = items@.map_values(|x: serde_json::Value| view_of(x));
            match r {
                Some(v) => merge_fields(iv, k as int) == Some(lines_view(v@)),
                None => merge_fields(iv, k as int) is None,
            }
        }),
    decreases items@.len() - k,
{
    let ghost iv = items@.map_values(|x: serde_json::Value| view_of(x));
    if k >= items.len() {
        let out: Vec<Vec<u8>> = Vec::new();
        proof {
            assert(lines_view(out@) =~= Seq::<Seq<u8>>::empty());
        }
        Some(out)
    } else {
        proof {
            assert(iv[k as int] == view_of(items@[k as int]));
        }
        match json_str_bytes(&items[k]) {
            None => None,
            Some(line) => match merges_from_items(items, k + 1) {
                None => None,
                Some(rest) => {
                    let mut out = rest;
                    out.insert(0, line);
                    proof {
                        assert(lines_view(out@) =~= seq![
                            iv[k as int]->Str_0,
                        ] + merge_fields(iv, k + 1).unwrap());
                    }
                    Some(out)
                },
            },
        }
    }
}

fn added_from_items(items: &Vec<serde_json::Value>, k: usize) -> (r: Option<
    Vec<(Vec<u8>, u64, bool)>,
>)
    requires
        k <= items@.len(),
    ensures
        ({
            let iv = items@.map_values(|x: serde_json::Value| view_of(x));
            match r {
                Some(v) => added_fields(iv, k as int) == Some(triples_view(v@)),
                None => added_fields(iv, k as int) is None,
            }
        }),
    decreases items@.len() - k,
{
    let ghost iv = items@.map_values(|x: serde_json::Value| view_of(x));
    if k >= items.len() {
        let out: Vec<(Vec<u8>, u64, bool)> = Vec::new();
        proof {
            assert(triples_view(out@) =~= Seq::<(Seq<u8>, u64, bool)>::empty());
        }
        Some(out)
    } else {
        proof {
            assert(iv[k as int] == view_of(items@[k as int]));
        }
        let id = match get_field(&items[k], "id") {
            None => {
                return None;
            },
            Some(x) => match json_u64(&x) {
                None => {
                    return None;
                },
                Some(n) => n,
            },
        };
        let content = match get_field(&items[k], "content") {
            None => {
                return None;
            },
            Some(x) => match json_str_bytes(&x) {
                None => {
                    return None;
                },
                Some(c) => c,
            },
        };
        let special = match get_field(&items[k], "special") {
            None => false,
            Some(x) => match json_bool(&x) {
                None => {
                    return None;
                },
                Some(b) => b,
            },
        };
        proof {
            assert(added_field(iv[k as int]) == Some((content@, id, special)));
        }
        match added_from_items(items, k + 1) {
            None => None,
            Some(rest) => {
                let mut out = rest;
                out.insert(0, (content, id, special));
                proof {
                    assert(triples_view(out@) =~= seq![
                        added_field(iv[k as int]).unwrap(),
                    ] + added_fields(iv, k + 1).unwrap());
                }
                Some(out)
            },
        }
    }
}

/// Read the fields of a parsed configuration document into plain values.
/// A missing `unk_token` falls back to `"[UNK]"`; a missing `merges` list,
/// length cap or `added_tokens` list falls back to empty or the default.
fn extract_config(v: &serde_json::Value) -> (r: Option<RawConfig>)
    ensures
        match r {
            Some(c) => spec_extract(view_of(*v)) == Some(raw_view(c)),
            None => spec_extract(view_of(*v)) is None,
        },
{
    let ghost doc = view_of(*v);
    let model = match get_field(v, "model") {
        None => {
            return None;
        },
        Some(m) => m,
    };
    let family = match get_field(&model, "type") {
        None => {
            return None;
        },
        Some(t) => match json_str_bytes(&t) {
            None => {
                return None;
            },
            Some(f) => f,
        },
    };
    let unk = match get_field(&model, "unk_token") {
        None => default_unk(),
        Some(u) => match json_str_bytes(&u) {
            None => {
                return None;
            },
            Some(x) => x,
        },
    };
    let vocab_field = match get_field(&model, "vocab") {
        None => {
            return None;
        },
        Some(x) => x,
    };
    let vocab_json = match json_object_pairs(&vocab_field) {
        None => {
            return None;
        },
        Some(x) => x,
    };
    let vocab = match vocab_from_pairs(&vocab_json, 0) {
        None => {
            return None;
        },
        Some(x) => x,
    };
    let merge_lines: Vec<Vec<u8>> = match get_field(&model, "merges") {
        None => {
            let empty_lines: Vec<Vec<u8>> = Vec::new();
            proof {
                assert(lines_view(empty_lines@) =~= Seq::<Seq<u8>>::empty());
            }
            empty_lines
        },
        Some(arr) => {
            let items = match json_array(&arr) {
                None => {
                    return None;
                },
                Some(x) => x,
            };
            match merges_from_items(&items, 0) {
                None => {
                    return None;
                },
                Some(x) => x,
            }
        },
    };
    let max_word_len: u64 = match get_field(&model, "max_input_chars_per_word") {
        None => DEFAULT_MAX_WORD_LEN as u64,
        Some(n) => match json_u64(&n) {
            None => {
                return None;
            },
            Some(x) => x,
        },
    };
    let added: Vec<(Vec<u8>, u64, bool)> = match get_field(v, "added_tokens") {
        None => {
            let empty_added: Vec<(Vec<u8>, u64, bool)> = Vec::new();
            proof {
                assert(triples_view(empty_added@) =~= Seq::<(Seq<u8>, u64, bool)>::empty());
            }
            empty_added
        },
        Some(arr) => {
            let items = match json_array(&arr) {
                None => {
                    return None;
                },
                Some(x) => x,
            };
            match added_from_items(&items, 0) {
                None => {
                    return None;
                },
                Some(x) => x,
            }
        },
    };
    let c = RawConfig { family, vocab, merge_lines, max_word_len, unk, added };
    proof {
        assert(spec_extract(doc) == Some(raw_view(c)));
    }
    Some(c)
}

/// Load an engine from the bytes of a serialized configuration document.
/// Succeeds exactly when the bytes parse, the document has the loader's
/// shape, and the read configuration passes [`build_engine`]'s checks; the
/// engine is then built from exactly the document's fields.  A document
/// that does not parse or has the wrong shape gives
/// [`TokError::MalformedConfig`]; one whose model family tag is unknown
/// gives [`TokError::UnsupportedModelKind`]; one whose fields are
/// inconsistent gives [`TokError::MalformedConfig`].
pub fn load_config(bytes: &Vec<u8>) -> (r: Result<Engine, TokError>)
    ensures
        (r is Ok) == (loaded_view(bytes@) is Some && raw_ok(loaded_view(bytes@).unwrap())),
        r is Err ==> r->Err_0 == (match loaded_view(bytes@) {
            None => TokError::MalformedConfig,
            Some(rv) => if rv.family == family_bpe() || rv.family == family_wordpiece() {
                TokError::MalformedConfig
            } else {
                TokError::UnsupportedModelKind
            },
        }),
        r is Ok ==> {
            let rv = loaded_view(bytes@).unwrap();
            let e = r.unwrap();
            &&& e.wf()
            &&& e.table() == extend_table(cast_view(rv.vocab), rv.added, 0)
            &&& e.unk@ == rv.unk
            &&& e.bos is None
            &&& e.eos is None
            &&& pairs_view(e.specials@) == keep_flagged(rv.added, 0)
            &&& rv.family == family_bpe() ==> (e.model matches Model::Bpe { merges }
                && merges_view(merges@) == split_merges(rv.merge_lines))
            &&& rv.family == family_wordpiece() ==> (e.model matches Model::WordPiece {
                max_word_len,
            } && max_word_len == rv.max_word_len)
        },
{
    let parsed = match parse_json(bytes) {
        None => {
            return Err(TokError::MalformedConfig);
        },
        Some(v) => v,
    };
    let raw = match extract_config(&parsed) {
        None => {
            return Err(TokError::MalformedConfig);
        },
        Some(c) => c,
    };
    proof {
        assert(loaded_view(bytes@) == Some(raw_view(raw)));
    }
    build_engine(raw)
}

} // verus!
