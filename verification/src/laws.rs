//! The laws of the engine that relate several operations: unknown input
//! falls back to the unknown token, encoding is deterministic, and under a
//! WordPiece engine whose vocabulary covers the text's words, decoding an
//! encoding rebuilds the words joined by single spaces - the text itself
//! when it was spaced that way.

use vstd::prelude::*;

use crate::bytes::{cont_marked, has_marker, is_utf8, is_ws_byte};
use crate::decode::{decode_from, join_form, spec_decode};
use crate::engine::{
    lemma_words_spans, pieces_from_words, pieces_units_from, spec_encode, spec_words, with_markers, word_end,
    word_pieces, word_units, words_from, Encoding, Engine, Model,
};
use crate::vocab::{lemma_lookup_inverse, spec_id_of, spec_token_of};
use crate::wordpiece::{
    lemma_longest_match_bounds, lemma_wp_surfaces, lemma_wp_total, longest_match, marked_form,
    surface_cat, unit_surface, wp_units,
};

verus! {

/// The id column of a piece sequence.
pub open spec fn ids_of(ps: Seq<(u32, Seq<u8>, int, int)>) -> Seq<u32> {
    ps.map_values(|p: (u32, Seq<u8>, int, int)| p.0)
}

/// Encoding is a function of the engine, the text and the flag: two
/// results of `encode` on the same inputs agree in every column.
pub proof fn lemma_encode_deterministic(
    e: Engine,
    text: Seq<u8>,
    add: bool,
    a: Encoding,
    b: Encoding,
)
    requires
        a.wf(),
        b.wf(),
        spec_encode(e, text, add) == Some(a.pieces()),
        spec_encode(e, text, add) == Some(b.pieces()),
    ensures
        a.pieces() == b.pieces(),
        a.ids@ == b.ids@,
        a.offsets@ == b.offsets@,
        a.tokens@.len() == b.tokens@.len(),
        forall|i: int| 0 <= i < a.tokens@.len() ==> (#[trigger] a.tokens@[i])@ == b.tokens@[i]@,
{
    assert(a.pieces() == b.pieces());
    assert(a.pieces().len() == a.ids@.len());
    assert(b.pieces().len() == b.ids@.len());
    assert forall|i: int| 0 <= i < a.ids@.len() implies #[trigger] a.ids@[i] == b.ids@[i] by {
        assert(a.pieces()[i] == b.pieces()[i]);
    }
    assert(a.ids@ =~= b.ids@);
    assert forall|i: int| 0 <= i < a.offsets@.len() implies #[trigger] a.offsets@[i]
        == b.offsets@[i] by {
        assert(a.pieces()[i] == b.pieces()[i]);
    }
    assert(a.offsets@ =~= b.offsets@);
    assert forall|i: int| 0 <= i < a.tokens@.len() implies (#[trigger] a.tokens@[i])@
        == b.tokens@[i]@ by {
        assert(a.pieces()[i] == b.pieces()[i]);
    }
}

/// A piece list that exists has one piece per unit.
proof fn lemma_pieces_len(e: Engine, units: Seq<Seq<u8>>, j: int, pos: int, first: bool)
    requires
        0 <= j <= units.len(),
        pieces_units_from(e, units, j, pos, first) is Some,
    ensures
        pieces_units_from(e, units, j, pos, first).unwrap().len() == units.len() - j,
    decreases units.len() - j,
{
    if j < units.len() {
        let slen = crate::engine::piece_surface(e, units[j], first).len() as int;
        lemma_pieces_len(e, units, j + 1, pos + slen, false);
    }
}

/// A unit absent from the vocabulary is emitted under the unknown token's
/// id, in BPE and in WordPiece alike.
pub proof fn lemma_unknown_unit_uses_unk(
    e: Engine,
    units: Seq<Seq<u8>>,
    j: int,
    pos: int,
    first: bool,
    i: int,
)
    requires
        0 <= j <= i < units.len(),
        pieces_units_from(e, units, j, pos, first) is Some,
        spec_id_of(e.table(), units[i]) is None,
    ensures
        e.unk_id() is Some,
        pieces_units_from(e, units, j, pos, first).unwrap()[i - j].0 == e.unk_id().unwrap(),
    decreases i - j,
{
    let u = units[j];
    let slen = crate::engine::piece_surface(e, u, first).len() as int;
    let id_opt = if spec_id_of(e.table(), u) is Some {
        spec_id_of(e.table(), u)
    } else {
        e.unk_id()
    };
    let rest = pieces_units_from(e, units, j + 1, pos + slen, false);
    assert(id_opt is Some && rest is Some);
    let r = pieces_units_from(e, units, j, pos, first).unwrap();
    assert(r == seq![(id_opt.unwrap(), u, pos, pos + slen)] + rest.unwrap());
    if i == j {
        assert(r[0] == (id_opt.unwrap(), u, pos, pos + slen));
    } else {
        lemma_unknown_unit_uses_unk(e, units, j + 1, pos + slen, false, i);
        lemma_pieces_len(e, units, j + 1, pos + slen, false);
        assert(r[i - j] == rest.unwrap()[i - j - 1]);
    }
}

/// A whole word with no matching prefix becomes exactly one piece, the
/// unknown token under its id, spanning the word.
pub proof fn lemma_unknown_word_uses_unk(e: Engine, s: Seq<u8>, ws: int, we: int)
    requires
        word_units(e, s.subrange(ws, we)) is None,
        word_pieces(e, s, ws, we) is Some,
    ensures
        e.unk_id() is Some,
        word_pieces(e, s, ws, we).unwrap() == seq![(e.unk_id().unwrap(), e.unk@, ws, we)],
{
}

/// A successful match is itself in the vocabulary.
proof fn lemma_longest_match_hit(es: Seq<(Seq<u8>, u32)>, w: Seq<u8>, cont: bool, n: int)
    requires
        longest_match(es, w, cont, n) is Some,
    ensures
        spec_id_of(es, marked_form(w, longest_match(es, w, cont, n).unwrap(), cont)) is Some,
    decreases n,
{
    if n > 0 && spec_id_of(es, marked_form(w, n, cont)) is None {
        lemma_longest_match_hit(es, w, cont, n - 1);
    }
}

/// Every unit WordPiece emits is in the vocabulary.
proof fn lemma_wp_units_in_vocab(es: Seq<(Seq<u8>, u32)>, w: Seq<u8>, cont: bool)
    requires
        wp_units(es, w, cont) is Some,
    ensures
        forall|i: int|
            0 <= i < wp_units(es, w, cont).unwrap().len() ==> spec_id_of(
                es,
                #[trigger] wp_units(es, w, cont).unwrap()[i],
            ) is Some,
    decreases w.len(),
{
    if w.len() != 0 {
        let l = longest_match(es, w, cont, w.len() as int).unwrap();
        lemma_longest_match_bounds(es, w, cont, w.len() as int);
        lemma_longest_match_hit(es, w, cont, w.len() as int);
        lemma_wp_units_in_vocab(es, w.skip(l), true);
        let units = wp_units(es, w, cont).unwrap();
        let rest = wp_units(es, w.skip(l), true).unwrap();
        assert forall|i: int| 0 <= i < units.len() implies spec_id_of(
            es,
            #[trigger] units[i],
        ) is Some by {
            if i > 0 {
                assert(units[i] == rest[i - 1]);
            }
        }
    }
}

/// When every unit is in the vocabulary, the pieces exist and carry the
/// units' own ids and forms.
proof fn lemma_pieces_ids(e: Engine, units: Seq<Seq<u8>>, j: int, pos: int, first: bool)
    requires
        0 <= j <= units.len(),
        forall|i: int| j <= i < units.len() ==> spec_id_of(e.table(), #[trigger] units[i]) is Some,
    ensures
        pieces_units_from(e, units, j, pos, first) is Some,
        pieces_units_from(e, units, j, pos, first).unwrap().len() == units.len() - j,
        forall|i: int|
            0 <= i < units.len() - j ==> (#[trigger] pieces_units_from(
                e,
                units,
                j,
                pos,
                first,
            ).unwrap()[i]).0 == spec_id_of(e.table(), units[j + i]).unwrap()
                && pieces_units_from(e, units, j, pos, first).unwrap()[i].1 == units[j + i],
    decreases units.len() - j,
{
    if j < units.len() {
        let u = units[j];
        let slen = crate::engine::piece_surface(e, u, first).len() as int;
        lemma_pieces_ids(e, units, j + 1, pos + slen, false);
    }
}

/// Decoding the ids of a fully covered WordPiece word, id by id, rebuilds
/// the word's surface bytes; when the output has already started, a single
/// space is put in front.
proof fn lemma_decode_units(e: Engine, units: Seq<Seq<u8>>, ids: Seq<u32>, j: int, f: bool)
    requires
        e.wf(),
        ids.len() == units.len(),
        forall|i: int|
            0 <= i < units.len() ==> spec_id_of(e.table(), #[trigger] units[i]) == Some(ids[i]),
        forall|i: int| 0 < i < units.len() ==> has_marker(#[trigger] units[i]),
        units.len() > 0 ==> !has_marker(units[0]),
        0 <= j <= units.len(),
        j > 0 ==> !f,
    ensures
        decode_from(e, ids, false, j, f) == Some(
            if j < units.len() && j == 0 && !f {
                seq![32u8] + surface_cat(units, false)
            } else {
                surface_cat(units.skip(j), j > 0)
            },
        ),
    decreases units.len() - j,
{
    if j >= units.len() {
        assert(units.skip(j) =~= Seq::<Seq<u8>>::empty());
    } else {
        lemma_lookup_inverse(e.table(), units[j], ids[j]);
        assert(spec_token_of(e.table(), ids[j]) == Some(units[j]));
        lemma_decode_units(e, units, ids, j + 1, false);
        assert(units.skip(j)[0] == units[j]);
        assert(units.skip(j).drop_first() =~= units.skip(j + 1));
        if j == 0 && !f {
            assert(join_form(units[0], false) == seq![32u8] + units[0]);
            assert(units.skip(0) =~= units);
            assert((seq![32u8] + units[0]) + surface_cat(units.skip(1), true) =~= seq![32u8]
                + surface_cat(units, false));
        } else {
            assert(join_form(units[j], f) == unit_surface(units[j], j > 0));
        }
    }
}

proof fn lemma_decode_index_shift(e: Engine, ids1: Seq<u32>, ids2: Seq<u32>, m: int, f: bool)
    requires
        0 <= m <= ids2.len(),
    ensures
        decode_from(e, ids1 + ids2, false, ids1.len() + m, f) == decode_from(e, ids2, false, m, f),
    decreases ids2.len() - m,
{
    if m < ids2.len() {
        assert((ids1 + ids2)[ids1.len() + m] == ids2[m]);
        lemma_decode_index_shift(e, ids1, ids2, m + 1, false);
    }
}

proof fn lemma_decode_append(e: Engine, ids1: Seq<u32>, ids2: Seq<u32>, j: int, f: bool)
    requires
        0 <= j <= ids1.len(),
        decode_from(e, ids1, false, j, f) is Some,
        decode_from(e, ids2, false, 0, if j < ids1.len() { false } else { f }) is Some,
    ensures
        decode_from(e, ids1 + ids2, false, j, f) == Some(
            decode_from(e, ids1, false, j, f).unwrap() + decode_from(
                e,
                ids2,
                false,
                0,
                if j < ids1.len() {
                    false
                } else {
                    f
                },
            ).unwrap(),
        ),
    decreases ids1.len() - j,
{
    if j == ids1.len() {
        lemma_decode_index_shift(e, ids1, ids2, 0, f);
        assert(Seq::<u8>::empty() + decode_from(e, ids2, false, 0, f).unwrap() =~= decode_from(
            e,
            ids2,
            false,
            0,
            f,
        ).unwrap());
    } else {
        assert((ids1 + ids2)[j] == ids1[j]);
        lemma_decode_append(e, ids1, ids2, j + 1, false);
        let t = spec_token_of(e.table(), ids1[j]).unwrap();
        let rest1 = decode_from(e, ids1, false, j + 1, false).unwrap();
        let x2 = decode_from(e, ids2, false, 0, false).unwrap();
        assert(join_form(t, f) + (rest1 + x2) =~= (join_form(t, f) + rest1) + x2);
    }
}

/// Words joined by single spaces.
pub open spec fn join_words(ws: Seq<Seq<u8>>) -> Seq<u8>
    decreases ws.len(),
{
    if ws.len() == 0 {
        Seq::empty()
    } else if ws.len() == 1 {
        ws[0]
    } else {
        ws[0] + seq![32u8] + join_words(ws.drop_first())
    }
}

/// The words of a text, in order: the bytes under each word span.
pub open spec fn words_of(s: Seq<u8>) -> Seq<Seq<u8>> {
    Seq::new(spec_words(s).len(), |k: int| s.subrange(spec_words(s)[k].0, spec_words(s)[k].1))
}

/// One encoded word as decoding meets it: the ids name exactly the units,
/// the units exist, continuations are marked, the head is not.
pub open spec fn group_ok(e: Engine, units: Seq<Seq<u8>>, ids: Seq<u32>) -> bool {
    &&& ids.len() == units.len()
    &&& units.len() > 0
    &&& forall|i: int|
        0 <= i < units.len() ==> spec_id_of(e.table(), #[trigger] units[i]) == Some(ids[i])
    &&& forall|i: int| 0 < i < units.len() ==> has_marker(#[trigger] units[i])
    &&& !has_marker(units[0])
}

/// The id stream of a list of encoded words.
pub open spec fn flat_ids(gids: Seq<Seq<u32>>) -> Seq<u32>
    decreases gids.len(),
{
    if gids.len() == 0 {
        Seq::empty()
    } else {
        gids[0] + flat_ids(gids.drop_first())
    }
}

/// The surface form of each encoded word.
pub open spec fn surfaces_list(gunits: Seq<Seq<Seq<u8>>>) -> Seq<Seq<u8>> {
    Seq::new(gunits.len(), |k: int| surface_cat(gunits[k], false))
}

/// Decoding the concatenated id streams of encoded words rebuilds the
/// words' surfaces, joined by single spaces (with a leading space when the
/// output has already started).
proof fn lemma_decode_groups(
    e: Engine,
    gunits: Seq<Seq<Seq<u8>>>,
    gids: Seq<Seq<u32>>,
    started: bool,
)
    requires
        e.wf(),
        gunits.len() == gids.len(),
        forall|k: int| 0 <= k < gids.len() ==> group_ok(e, #[trigger] gunits[k], gids[k]),
    ensures
        decode_from(e, flat_ids(gids), false, 0, !started) == Some(
            if started && gids.len() > 0 {
                seq![32u8] + join_words(surfaces_list(gunits))
            } else {
                join_words(surfaces_list(gunits))
            },
        ),
    decreases gids.len(),
{
    if gids.len() == 0 {
        assert(flat_ids(gids) =~= Seq::<u32>::empty());
        assert(join_words(surfaces_list(gunits)) =~= Seq::<u8>::empty());
    } else {
        assert(group_ok(e, gunits[0], gids[0]));
        lemma_decode_units(e, gunits[0], gids[0], 0, !started);
        lemma_decode_groups(e, gunits.drop_first(), gids.drop_first(), true);
        assert forall|k: int| 0 <= k < gids.drop_first().len() implies group_ok(
            e,
            #[trigger] gunits.drop_first()[k],
            gids.drop_first()[k],
        ) by {
            assert(gunits.drop_first()[k] == gunits[k + 1]);
            assert(gids.drop_first()[k] == gids[k + 1]);
        }
        lemma_decode_append(e, gids[0], flat_ids(gids.drop_first()), 0, !started);
        assert(flat_ids(gids) == gids[0] + flat_ids(gids.drop_first()));
        let surf0 = surface_cat(gunits[0], false);
        let head = if started {
            seq![32u8] + surf0
        } else {
            surf0
        };
        let tail = if gids.drop_first().len() > 0 {
            seq![32u8] + join_words(surfaces_list(gunits.drop_first()))
        } else {
            Seq::<u8>::empty()
        };
        assert(gunits[0].skip(0) =~= gunits[0]);
        assert(decode_from(e, flat_ids(gids), false, 0, !started) == Some(head + tail));
        assert(surfaces_list(gunits).drop_first() =~= surfaces_list(gunits.drop_first()));
        assert(surfaces_list(gunits)[0] == surf0);
        if gunits.len() == 1 {
            assert(head + tail =~= head);
            assert(join_words(surfaces_list(gunits)) == surf0);
        } else {
            assert(join_words(surfaces_list(gunits)) == surf0 + seq![32u8] + join_words(
                surfaces_list(gunits.drop_first()),
            ));
            if started {
                assert(head + tail =~= seq![32u8] + (surf0 + seq![32u8] + join_words(
                    surfaces_list(gunits.drop_first()),
                )));
            } else {
                assert(head + tail =~= surf0 + seq![32u8] + join_words(
                    surfaces_list(gunits.drop_first()),
                ));
            }
        }
    }
}

/// The head unit of a segmented word carries no marker unless the word
/// itself does.
proof fn lemma_wp_first_unmarked(es: Seq<(Seq<u8>, u32)>, w: Seq<u8>)
    requires
        w.len() > 0,
        !has_marker(w),
        wp_units(es, w, false) is Some,
    ensures
        wp_units(es, w, false).unwrap().len() > 0,
        !has_marker(wp_units(es, w, false).unwrap()[0]),
{
    let l = longest_match(es, w, false, w.len() as int).unwrap();
    lemma_longest_match_bounds(es, w, false, w.len() as int);
    let units = wp_units(es, w, false).unwrap();
    assert(units[0] == marked_form(w, l, false));
    assert(units[0] =~= w.take(l));
    if has_marker(units[0]) {
        assert(w.take(l)[0] == w[0]);
        assert(w.take(l)[1] == w[1]);
        assert(has_marker(w));
    }
}

/// The WordPiece word length cap of an engine.
pub open spec fn cap_of(e: Engine) -> usize {
    match e.model {
        Model::WordPiece { max_word_len } => max_word_len,
        Model::Bpe { .. } => 0,
    }
}

/// The vocabulary covers a word span: it fits the cap, does not itself
/// begin with the continuation marker, and every one of its bytes is a
/// token both plain and marked.
pub open spec fn span_covered(e: Engine, s: Seq<u8>, ws: int, we: int) -> bool {
    let w = s.subrange(ws, we);
    &&& w.len() <= cap_of(e)
    &&& !has_marker(w)
    &&& forall|i: int|
        0 <= i < w.len() ==> spec_id_of(e.table(), seq![#[trigger] w[i]]) is Some && spec_id_of(
            e.table(),
            cont_marked(seq![w[i]]),
        ) is Some
}

/// The ids the units of one word map to.
pub open spec fn unit_ids(e: Engine, units: Seq<Seq<u8>>) -> Seq<u32> {
    Seq::new(units.len(), |i: int| spec_id_of(e.table(), units[i]).unwrap())
}

/// The units of the word under each span of a text.
pub open spec fn gunits_of(e: Engine, s: Seq<u8>, wl: Seq<(int, int)>) -> Seq<Seq<Seq<u8>>> {
    Seq::new(wl.len(), |k: int| wp_units(e.table(), s.subrange(wl[k].0, wl[k].1), false).unwrap())
}

/// The id stream of the word under each span of a text.
pub open spec fn gids_of(e: Engine, s: Seq<u8>, wl: Seq<(int, int)>) -> Seq<Seq<u32>> {
    Seq::new(
        wl.len(),
        |k: int|
            unit_ids(e, wp_units(e.table(), s.subrange(wl[k].0, wl[k].1), false).unwrap()),
    )
}

proof fn lemma_word_group_ok(e: Engine, s: Seq<u8>, ws: int, we: int)
    requires
        e.wf(),
        e.model is WordPiece,
        0 <= ws < we <= s.len(),
        span_covered(e, s, ws, we),
    ensures
        wp_units(e.table(), s.subrange(ws, we), false) is Some,
        group_ok(
            e,
            wp_units(e.table(), s.subrange(ws, we), false).unwrap(),
            unit_ids(e, wp_units(e.table(), s.subrange(ws, we), false).unwrap()),
        ),
        surface_cat(wp_units(e.table(), s.subrange(ws, we), false).unwrap(), false)
            == s.subrange(ws, we),
        word_pieces(e, s, ws, we) is Some,
        ids_of(word_pieces(e, s, ws, we).unwrap()) == unit_ids(
            e,
            wp_units(e.table(), s.subrange(ws, we), false).unwrap(),
        ),
{
    let es = e.table();
    let w = s.subrange(ws, we);
    lemma_wp_total(es, w, false);
    let units = wp_units(es, w, false).unwrap();
    assert(word_units(e, w) == Some(units));
    lemma_wp_surfaces(es, w, false);
    lemma_wp_first_unmarked(es, w);
    lemma_wp_units_in_vocab(es, w, false);
    let ids = unit_ids(e, units);
    assert forall|i: int| 0 <= i < units.len() implies spec_id_of(es, #[trigger] units[i])
        == Some(ids[i]) by {
        assert(spec_id_of(es, units[i]) is Some);
    }
    assert forall|i: int| 0 < i < units.len() implies has_marker(#[trigger] units[i]) by {}
    assert(group_ok(e, units, ids));
    lemma_pieces_ids(e, units, 0, ws, true);
    let ps = pieces_units_from(e, units, 0, ws, true).unwrap();
    assert(word_pieces(e, s, ws, we) == Some(ps));
    assert forall|i: int| 0 <= i < ps.len() implies #[trigger] ids_of(ps)[i] == ids[i] by {
        assert(ps[i].0 == spec_id_of(es, units[i]).unwrap());
    }
    assert(ids_of(ps) =~= ids);
}

proof fn lemma_encode_words(e: Engine, s: Seq<u8>, wl: Seq<(int, int)>, k: int)
    requires
        e.wf(),
        e.model is WordPiece,
        0 <= k <= wl.len(),
        forall|m: int| 0 <= m < wl.len() ==> 0 <= (#[trigger] wl[m]).0 < wl[m].1 <= s.len(),
        forall|m: int|
            0 <= m < wl.len() ==> span_covered(e, s, (#[trigger] wl[m]).0, wl[m].1),
    ensures
        pieces_from_words(e, s, wl, k) is Some,
        ids_of(pieces_from_words(e, s, wl, k).unwrap()) == flat_ids(gids_of(e, s, wl).skip(k)),
    decreases wl.len() - k,
{
    if k >= wl.len() {
        assert(gids_of(e, s, wl).skip(k) =~= Seq::<Seq<u32>>::empty());
        assert(ids_of(Seq::<(u32, Seq<u8>, int, int)>::empty()) =~= Seq::<u32>::empty());
    } else {
        lemma_word_group_ok(e, s, wl[k].0, wl[k].1);
        lemma_encode_words(e, s, wl, k + 1);
        let ps = word_pieces(e, s, wl[k].0, wl[k].1).unwrap();
        let rest = pieces_from_words(e, s, wl, k + 1).unwrap();
        assert(pieces_from_words(e, s, wl, k) == Some(ps + rest));
        assert forall|i: int| 0 <= i < ps.len() + rest.len() implies #[trigger] ids_of(
            ps + rest,
        )[i] == (ids_of(ps) + ids_of(rest))[i] by {
            if i < ps.len() {
                assert((ps + rest)[i] == ps[i]);
            } else {
                assert((ps + rest)[i] == rest[i - ps.len()]);
            }
        }
        assert(ids_of(ps + rest) =~= ids_of(ps) + ids_of(rest));
        let gids = gids_of(e, s, wl);
        assert(gids.skip(k)[0] == gids[k]);
        assert(gids.skip(k).drop_first() =~= gids.skip(k + 1));
        assert(flat_ids(gids.skip(k)) == gids[k] + flat_ids(gids.skip(k + 1)));
        assert(ids_of(ps) == gids[k]);
        assert(ids_of(ps) + ids_of(rest) =~= flat_ids(gids.skip(k)));
    }
}

/// Round trip over a whole text, for a WordPiece engine whose vocabulary
/// covers every word: encoding without boundary markers and decoding the
/// resulting ids without skipping rebuilds the text's words, joined by
/// single spaces.  Leading, trailing or repeated whitespace is not
/// recorded by the encoding, so the output is the normalized spacing of
/// the input, and equals the input whenever its words were separated by
/// single spaces.
pub proof fn lemma_round_trip_text(e: Engine, text: Seq<u8>)
    requires
        e.wf(),
        e.model is WordPiece,
        is_utf8(text),
        spec_words(text).len() > 0,
        forall|k: int|
            0 <= k < spec_words(text).len() ==> span_covered(
                e,
                text,
                (#[trigger] spec_words(text)[k]).0,
                spec_words(text)[k].1,
            ),
    ensures
        spec_encode(e, text, false) is Some,
        spec_decode(e, ids_of(spec_encode(e, text, false).unwrap()), false) == Some(
            join_words(words_of(text)),
        ),
{
    let wl = spec_words(text);
    lemma_words_spans(text, 0);
    lemma_encode_words(e, text, wl, 0);
    let ps = pieces_from_words(e, text, wl, 0).unwrap();
    assert(spec_encode(e, text, false) == Some(with_markers(e, ps, false, text.len() as int)));
    assert(with_markers(e, ps, false, text.len() as int) == ps);
    let gunits = gunits_of(e, text, wl);
    let gids = gids_of(e, text, wl);
    assert(gids.skip(0) =~= gids);
    assert(ids_of(ps) == flat_ids(gids));
    assert forall|k: int| 0 <= k < gids.len() implies group_ok(
        e,
        #[trigger] gunits[k],
        gids[k],
    ) by {
        lemma_word_group_ok(e, text, wl[k].0, wl[k].1);
    }
    lemma_decode_groups(e, gunits, gids, false);
    assert forall|k: int| 0 <= k < gunits.len() implies #[trigger] surfaces_list(gunits)[k]
        == words_of(text)[k] by {
        lemma_word_group_ok(e, text, wl[k].0, wl[k].1);
    }
    assert(surfaces_list(gunits) =~= words_of(text));
}

proof fn lemma_word_end_no_ws(s: Seq<u8>, i: int)
    requires
        0 <= i <= s.len(),
        forall|k: int| 0 <= k < s.len() ==> !is_ws_byte(#[trigger] s[k]),
    ensures
        word_end(s, i) == s.len(),
    decreases s.len() - i,
{
    if i < s.len() {
        lemma_word_end_no_ws(s, i + 1);
    }
}

/// A nonempty text without whitespace is exactly one word.
proof fn lemma_single_word(s: Seq<u8>)
    requires
        s.len() > 0,
        forall|k: int| 0 <= k < s.len() ==> !is_ws_byte(#[trigger] s[k]),
    ensures
        spec_words(s) == seq![(0int, s.len() as int)],
{
    lemma_word_end_no_ws(s, 0);
    assert(words_from(s, s.len() as int) =~= Seq::<(int, int)>::empty());
    assert(spec_words(s) =~= seq![(0int, s.len() as int)]);
}

/// Round trip: under a WordPiece engine whose vocabulary covers every
/// single byte of a word both plain and marked, encoding the word without
/// boundary markers and decoding the resulting ids without skipping gives
/// the word back, byte for byte.  The word must not itself begin with the
/// continuation marker, and must fit the model's length cap.
pub proof fn lemma_round_trip_word(e: Engine, text: Seq<u8>)
    requires
        e.wf(),
        e.model matches Model::WordPiece { max_word_len } && text.len() <= max_word_len,
        text.len() > 0,
        is_utf8(text),
        forall|k: int| 0 <= k < text.len() ==> !is_ws_byte(#[trigger] text[k]),
        !has_marker(text),
        forall|i: int|
            0 <= i < text.len() ==> spec_id_of(e.table(), seq![#[trigger] text[i]]) is Some
                && spec_id_of(e.table(), cont_marked(seq![text[i]])) is Some,
    ensures
        spec_encode(e, text, false) is Some,
        spec_decode(e, ids_of(spec_encode(e, text, false).unwrap()), false) == Some(text),
{
    let es = e.table();
    lemma_single_word(text);
    let w = text.subrange(0, text.len() as int);
    assert(w =~= text);
    lemma_wp_total(es, text, false);
    let units = wp_units(es, text, false).unwrap();
    assert(word_units(e, w) == Some(units));
    lemma_wp_units_in_vocab(es, text, false);
    lemma_pieces_ids(e, units, 0, 0, true);
    let ps = pieces_units_from(e, units, 0, 0, true).unwrap();
    assert(word_pieces(e, text, 0, text.len() as int) == Some(ps));
    let wl = spec_words(text);
    assert(wl[0] == (0int, text.len() as int));
    assert(pieces_from_words(e, text, wl, 1) == Some(Seq::<(u32, Seq<u8>, int, int)>::empty()));
    assert(pieces_from_words(e, text, wl, 0) == Some(ps + Seq::<(u32, Seq<u8>, int, int)>::empty()));
    assert(ps + Seq::<(u32, Seq<u8>, int, int)>::empty() =~= ps);
    assert(spec_encode(e, text, false) == Some(with_markers(e, ps, false, text.len() as int)));
    assert(with_markers(e, ps, false, text.len() as int) == ps);

    // the units carry markers exactly on continuations, and unit 0 cannot
    // carry one because the word itself does not
    lemma_wp_surfaces(es, text, false);
    lemma_longest_match_bounds(es, text, false, text.len() as int);
    let l = longest_match(es, text, false, text.len() as int).unwrap();
    assert(units[0] == marked_form(text, l, false));
    assert(units[0] =~= text.take(l));
    if has_marker(units[0]) {
        assert(text.take(l)[0] == text[0]);
        assert(text.take(l)[1] == text[1]);
        assert(has_marker(text));
        assert(false);
    }

    // the ids column names each unit's own id
    let ids = ids_of(ps);
    assert(ids.len() == units.len());
    assert forall|i: int| 0 <= i < units.len() implies spec_id_of(es, #[trigger] units[i])
        == Some(ids[i]) by {
        assert(ps[i].0 == spec_id_of(es, units[i]).unwrap());
        assert(ids[i] == ps[i].0);
    }
    lemma_decode_units(e, units, ids, 0, true);
    assert(units.skip(0) =~= units);
    assert(surface_cat(units, false) == text);
}

} // verus!
