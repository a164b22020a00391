//! The tokenizer engine: one segmentation model over one vocabulary,
//! immutable once built, with encode, decode and introspection.

use vstd::prelude::*;

use crate::bytes::{check_utf8, has_marker, is_utf8, is_ws_byte, subvec, ws_byte};
use crate::bpe::{bpe_apply, bpe_run, merges_view, singletons, split_singletons};
use crate::error::TokError;
use crate::vocab::{pairs_view, spec_id_of, spec_token_of, Vocab};
use crate::wordpiece::{units_view, wp_segment, wp_units};

verus! {

/// The longest word WordPiece still segments; longer words are unknown.
pub const DEFAULT_MAX_WORD_LEN: usize = 100;

/// The segmentation model of an engine.
pub enum Model {
    /// Byte-pair encoding with a ranked merge table.
    Bpe { merges: Vec<(Vec<u8>, Vec<u8>)> },
    /// WordPiece longest-prefix matching with a word length cap.
    WordPiece { max_word_len: usize },
}

/// An engine: model, vocabulary, unknown token, optional boundary markers
/// and the special tokens a loaded configuration declared.
pub struct Engine {
    pub model: Model,
    pub vocab: Vocab,
    pub unk: Vec<u8>,
    /// Leading marker inserted when `add_special_tokens` is on.
    pub bos: Option<(Vec<u8>, u32)>,
    /// Trailing marker inserted when `add_special_tokens` is on.
    pub eos: Option<(Vec<u8>, u32)>,
    /// Tokens a loaded configuration flagged as special, with their ids.
    pub specials: Vec<(Vec<u8>, u32)>,
}

impl Engine {
    /// The vocabulary table of the engine.
    pub open spec fn table(&self) -> Seq<(Seq<u8>, u32)> {
        self.vocab.table()
    }

    /// Whether the model marks continuations (WordPiece).
    pub open spec fn marks_continuations(&self) -> bool {
        self.model is WordPiece
    }

    /// A well-formed engine has a well-formed vocabulary.
    pub open spec fn wf(&self) -> bool {
        self.vocab.wf()
    }

    /// The id of the unknown token, when the vocabulary holds it.
    pub open spec fn unk_id(&self) -> Option<u32> {
        spec_id_of(self.table(), self.unk@)
    }
}

/// The byte string `"bpe"`.
pub open spec fn family_bpe() -> Seq<u8> {
    seq![98u8, 112u8, 101u8]
}

/// The byte string `"wordpiece"`.
pub open spec fn family_wordpiece() -> Seq<u8> {
    seq![119u8, 111u8, 114u8, 100u8, 112u8, 105u8, 101u8, 99u8, 101u8]
}

/// Construct an engine with an empty vocabulary for a model family given
/// by name.  Exactly the families `"bpe"` and `"wordpiece"` are known; any
/// other name is refused with [`TokError::UnsupportedModelKind`].
pub fn create(family: &Vec<u8>, unk: Vec<u8>) -> (r: Result<Engine, TokError>)
    ensures
        (r is Ok) == (family@ == family_bpe() || family@ == family_wordpiece()),
        r is Err ==> r->Err_0 == TokError::UnsupportedModelKind,
        r is Ok ==> {
            let e = r.unwrap();
            &&& e.wf()
            &&& e.table() == Seq::<(Seq<u8>, u32)>::empty()
            &&& e.unk@ == unk@
            &&& e.bos is None
            &&& e.eos is None
            &&& pairs_view(e.specials@) == Seq::<(Seq<u8>, u32)>::empty()
            &&& family@ == family_bpe() ==> (e.model matches Model::Bpe { merges }
                && merges@.len() == 0)
            &&& family@ == family_wordpiece() ==> (e.model matches Model::WordPiece {
                max_word_len,
            } && max_word_len == DEFAULT_MAX_WORD_LEN)
        },
{
    let is_bpe = family.len() == 3 && family[0] == 98 && family[1] == 112 && family[2] == 101;
    let is_wp = family.len() == 9 && family[0] == 119 && family[1] == 111 && family[2] == 114
        && family[3] == 100 && family[4] == 112 && family[5] == 105 && family[6] == 101
        && family[7] == 99 && family[8] == 101;
    proof {
        assert(is_bpe == (family@ == family_bpe())) by {
            if is_bpe {
                assert(family@ =~= family_bpe());
            }
        }
        assert(is_wp == (family@ == family_wordpiece())) by {
            if is_wp {
                assert(family@ =~= family_wordpiece());
            }
        }
    }
    if is_bpe {
        let e = Engine {
            model: Model::Bpe { merges: Vec::new() },
            vocab: Vocab::new(),
            unk,
            bos: None,
            eos: None,
            specials: Vec::new(),
        };
        proof {
            assert(pairs_view(e.specials@) =~= Seq::<(Seq<u8>, u32)>::empty());
        }
        Ok(e)
    } else if is_wp {
        let e = Engine {
            model: Model::WordPiece { max_word_len: DEFAULT_MAX_WORD_LEN },
            vocab: Vocab::new(),
            unk,
            bos: None,
            eos: None,
            specials: Vec::new(),
        };
        proof {
            assert(pairs_view(e.specials@) =~= Seq::<(Seq<u8>, u32)>::empty());
        }
        Ok(e)
    } else {
        Err(TokError::UnsupportedModelKind)
    }
}

/// The heuristic form of a special token: bracketed by `<...>` or `[...]`
/// (either side suffices), or one of the reserved role names `user`,
/// `assistant`, `system`.
pub open spec fn is_special_form(t: Seq<u8>) -> bool {
    ||| (t.len() > 0 && (t[0] == 60 || t[t.len() - 1] == 62 || t[0] == 91 || t[t.len() - 1]
        == 93))
    ||| t == seq![117u8, 115u8, 101u8, 114u8]
    ||| t == seq![97u8, 115u8, 115u8, 105u8, 115u8, 116u8, 97u8, 110u8, 116u8]
    ||| t == seq![115u8, 121u8, 115u8, 116u8, 101u8, 109u8]
}

/// Executable mirror of [`is_special_form`]: the one classifier used both
/// by decoding and by introspection.
pub fn special_form(t: &Vec<u8>) -> (r: bool)
    ensures
        r == is_special_form(t@),
{
    if t.len() > 0 && (t[0] == 60 || t[t.len() - 1] == 62 || t[0] == 91 || t[t.len() - 1] == 93) {
        return true;
    }
    let is_user = t.len() == 4 && t[0] == 117 && t[1] == 115 && t[2] == 101 && t[3] == 114;
    let is_assistant = t.len() == 9 && t[0] == 97 && t[1] == 115 && t[2] == 115 && t[3] == 105
        && t[4] == 115 && t[5] == 116 && t[6] == 97 && t[7] == 110 && t[8] == 116;
    let is_system = t.len() == 6 && t[0] == 115 && t[1] == 121 && t[2] == 115 && t[3] == 116
        && t[4] == 101 && t[5] == 109;
    proof {
        if is_user {
            assert(t@ =~= seq![117u8, 115u8, 101u8, 114u8]);
        }
        if is_assistant {
            assert(t@ =~= seq![97u8, 115u8, 115u8, 105u8, 115u8, 116u8, 97u8, 110u8, 116u8]);
        }
        if is_system {
            assert(t@ =~= seq![115u8, 121u8, 115u8, 116u8, 101u8, 109u8]);
        }
        if !is_user {
            assert(t@ != seq![117u8, 115u8, 101u8, 114u8]);
        }
        if !is_assistant {
            assert(t@ != seq![97u8, 115u8, 115u8, 105u8, 115u8, 116u8, 97u8, 110u8, 116u8]);
        }
        if !is_system {
            assert(t@ != seq![115u8, 121u8, 115u8, 116u8, 101u8, 109u8]);
        }
    }
    is_user || is_assistant || is_system
}

/// Whether some declared special entry carries this id.
pub open spec fn declared_special(sp: Seq<(Seq<u8>, u32)>, id: u32) -> bool {
    spec_token_of(sp, id) is Some
}

/// A token counts as special if the configuration declared its id special,
/// or its form looks special.
pub open spec fn token_special(e: Engine, t: Seq<u8>, id: u32) -> bool {
    declared_special(pairs_view(e.specials@), id) || is_special_form(t)
}

fn declared_special_exec(sp: &Vec<(Vec<u8>, u32)>, id: u32, i: usize) -> (r: bool)
    requires
        i <= sp@.len(),
    ensures
        r == (crate::vocab::token_from(pairs_view(sp@), id, i as int) is Some),
    decreases sp@.len() - i,
{
    if i >= sp.len() {
        false
    } else if sp[i].1 == id {
        true
    } else {
        declared_special_exec(sp, id, i + 1)
    }
}

/// Executable mirror of [`token_special`].
pub fn token_special_exec(e: &Engine, t: &Vec<u8>, id: u32) -> (r: bool)
    ensures
        r == token_special(*e, t@, id),
{
    declared_special_exec(&e.specials, id, 0) || special_form(t)
}

/// End of the word starting at `i`: the first whitespace position at or
/// after `i`, or the end of the text.
pub open spec fn word_end(s: Seq<u8>, i: int) -> int
    decreases s.len() - i,
{
    if i < 0 || i >= s.len() || is_ws_byte(s[i]) {
        i
    } else {
        word_end(s, i + 1)
    }
}

/// The end of a word never lies before its start, nor past the text.
pub proof fn lemma_word_end_bounds(s: Seq<u8>, i: int)
    requires
        0 <= i <= s.len(),
    ensures
        i <= word_end(s, i) <= s.len(),
    decreases s.len() - i,
{
    if !(i >= s.len() || is_ws_byte(s[i])) {
        lemma_word_end_bounds(s, i + 1);
    }
}

/// The maximal whitespace-free word spans `(start, end)` from position `i`
/// on, left to right.
pub open spec fn words_from(s: Seq<u8>, i: int) -> Seq<(int, int)>
    decreases s.len() - i,
        via words_from_dec
{
    if i < 0 || i >= s.len() {
        Seq::empty()
    } else if is_ws_byte(s[i]) {
        words_from(s, i + 1)
    } else {
        seq![(i, word_end(s, i))] + words_from(s, word_end(s, i))
    }
}

#[via_fn]
proof fn words_from_dec(s: Seq<u8>, i: int) {
    if 0 <= i < s.len() && !is_ws_byte(s[i]) {
        lemma_word_end_bounds(s, i + 1);
    }
}

/// The word spans of a whole text.
pub open spec fn spec_words(s: Seq<u8>) -> Seq<(int, int)> {
    words_from(s, 0)
}

/// Word spans as mathematical pairs.
pub open spec fn spans_view(v: Seq<(usize, usize)>) -> Seq<(int, int)> {
    v.map_values(|p: (usize, usize)| (p.0 as int, p.1 as int))
}

fn word_end_at(text: &Vec<u8>, i: usize) -> (r: usize)
    requires
        i <= text@.len(),
    ensures
        r == word_end(text@, i as int),
        i <= r <= text@.len(),
    decreases text@.len() - i,
{
    if i >= text.len() {
        i
    } else if ws_byte(text[i]) {
        i
    } else {
        word_end_at(text, i + 1)
    }
}

fn words_at(text: &Vec<u8>, i: usize) -> (r: Vec<(usize, usize)>)
    requires
        i <= text@.len(),
    ensures
        spans_view(r@) == words_from(text@, i as int),
    decreases text@.len() - i,
{
    if i >= text.len() {
        let out: Vec<(usize, usize)> = Vec::new();
        proof {
            assert(spans_view(out@) =~= words_from(text@, i as int));
        }
        out
    } else if ws_byte(text[i]) {
        words_at(text, i + 1)
    } else {
        let j = word_end_at(text, i);
        proof {
            lemma_word_end_bounds(text@, i + 1);
        }
        let rest = words_at(text, j);
        let mut out: Vec<(usize, usize)> = Vec::new();
        out.push((i, j));
        let mut k: usize = 0;
        while k < rest.len()
            invariant
                k <= rest@.len(),
                out@.len() == k + 1,
                out@[0] == (i, j),
                forall|m: int| 1 <= m < out@.len() ==> #[trigger] out@[m] == rest@[m - 1],
            decreases rest@.len() - k,
        {
            out.push(rest[k]);
            k = k + 1;
        }
        proof {
            assert(spans_view(out@) =~= seq![
                (i as int, j as int),
            ] + spans_view(rest@));
        }
        out
    }
}

/// One emitted piece as executable data: id, token form, byte span.
pub type Piece = (u32, Vec<u8>, usize, usize);

/// Pieces as mathematical tuples.
pub open spec fn pieces_view(v: Seq<Piece>) -> Seq<(u32, Seq<u8>, int, int)> {
    v.map_values(|p: Piece| (p.0, p.1@, p.2 as int, p.3 as int))
}

/// The result of `encode`: ids, token forms and byte offsets, index-aligned.
pub struct Encoding {
    pub ids: Vec<u32>,
    pub tokens: Vec<Vec<u8>>,
    pub offsets: Vec<(usize, usize)>,
}

impl Encoding {
    /// The three columns are index-aligned.
    pub open spec fn wf(&self) -> bool {
        self.ids@.len() == self.tokens@.len() && self.ids@.len() == self.offsets@.len()
    }

    /// The encoding as a piece sequence.
    pub open spec fn pieces(&self) -> Seq<(u32, Seq<u8>, int, int)> {
        Seq::new(
            self.ids@.len(),
            |i: int|
                (
                    self.ids@[i],
                    self.tokens@[i]@,
                    self.offsets@[i].0 as int,
                    self.offsets@[i].1 as int,
                ),
        )
    }

    /// Number of pieces.
    pub fn len(&self) -> (r: usize)
        ensures
            r == self.ids@.len(),
    {
        self.ids.len()
    }
}

/// The bytes of the original word one emitted unit covers: inside a
/// WordPiece word a continuation unit covers its form without the marker.
pub open spec fn piece_surface(e: Engine, u: Seq<u8>, first: bool) -> Seq<u8> {
    if e.marks_continuations() && !first && u.len() >= 2 {
        u.skip(2)
    } else {
        u
    }
}

/// Total number of word bytes the units from position `j` on cover.
pub open spec fn surf_total(e: Engine, units: Seq<Seq<u8>>, j: int, first: bool) -> int
    decreases units.len() - j,
{
    if j < 0 || j >= units.len() {
        0
    } else {
        piece_surface(e, units[j], first).len() + surf_total(e, units, j + 1, false)
    }
}

proof fn lemma_surf_total_nonneg(e: Engine, units: Seq<Seq<u8>>, j: int, first: bool)
    ensures
        surf_total(e, units, j, first) >= 0,
    decreases units.len() - j,
{
    if !(j < 0 || j >= units.len()) {
        lemma_surf_total_nonneg(e, units, j + 1, false);
    }
}

proof fn lemma_surf_total_wp(e: Engine, units: Seq<Seq<u8>>, j: int, first: bool)
    requires
        e.marks_continuations(),
        0 <= j <= units.len(),
        forall|i: int| j <= i < units.len() && (!first || i > j) ==> #[trigger] units[i].len() >= 2,
    ensures
        surf_total(e, units, j, first) == crate::wordpiece::surface_cat(units.skip(j), !first).len(),
    decreases units.len() - j,
{
    if j >= units.len() {
        assert(units.skip(j) =~= Seq::<Seq<u8>>::empty());
    } else {
        lemma_surf_total_wp(e, units, j + 1, false);
        assert(units.skip(j)[0] == units[j]);
        assert(units.skip(j).drop_first() =~= units.skip(j + 1));
        assert(piece_surface(e, units[j], first) == crate::wordpiece::unit_surface(
            units[j],
            !first,
        ));
    }
}

proof fn lemma_surf_total_bpe(e: Engine, units: Seq<Seq<u8>>, j: int, first: bool)
    requires
        !e.marks_continuations(),
        0 <= j <= units.len(),
    ensures
        surf_total(e, units, j, first) == crate::bpe::units_cat(units.skip(j)).len(),
    decreases units.len() - j,
{
    if j >= units.len() {
        assert(units.skip(j) =~= Seq::<Seq<u8>>::empty());
    } else {
        lemma_surf_total_bpe(e, units, j + 1, false);
        assert(units.skip(j)[0] == units[j]);
        assert(units.skip(j).drop_first() =~= units.skip(j + 1));
    }
}

proof fn lemma_singletons_cat(w: Seq<u8>)
    ensures
        crate::bpe::units_cat(singletons(w)) == w,
    decreases w.len(),
{
    if w.len() == 0 {
        assert(crate::bpe::units_cat(singletons(w)) =~= w);
    } else {
        lemma_singletons_cat(w.drop_first());
        assert(singletons(w).drop_first() =~= singletons(w.drop_first()));
        assert(seq![w[0]] + w.drop_first() =~= w);
    }
}

/// The pieces the units of one word emit, from unit `j` on, with the next
/// span starting at `pos`.  A unit absent from the vocabulary falls back to
/// the unknown token's id; `None` means even that id is missing.
pub open spec fn pieces_units_from(
    e: Engine,
    units: Seq<Seq<u8>>,
    j: int,
    pos: int,
    first: bool,
) -> Option<Seq<(u32, Seq<u8>, int, int)>>
    decreases units.len() - j,
{
    if j < 0 || j >= units.len() {
        Some(Seq::empty())
    } else {
        let u = units[j];
        let slen = piece_surface(e, u, first).len() as int;
        let id_opt = if spec_id_of(e.table(), u) is Some {
            spec_id_of(e.table(), u)
        } else {
            e.unk_id()
        };
        match id_opt {
            None => None,
            Some(id) => match pieces_units_from(e, units, j + 1, pos + slen, false) {
                None => None,
                Some(rest) => Some(seq![(id, u, pos, pos + slen)] + rest),
            },
        }
    }
}

/// The unit list of one word under the engine's model; `None` means the
/// whole word is unknown (WordPiece: no prefix match or over the cap).
pub open spec fn word_units(e: Engine, w: Seq<u8>) -> Option<Seq<Seq<u8>>> {
    match e.model {
        Model::Bpe { merges } => Some(bpe_run(merges_view(merges@), singletons(w))),
        Model::WordPiece { max_word_len } => if w.len() > max_word_len {
            None
        } else {
            wp_units(e.table(), w, false)
        },
    }
}

/// The pieces of the word spanning `s[ws..we]`.
pub open spec fn word_pieces(e: Engine, s: Seq<u8>, ws: int, we: int) -> Option<
    Seq<(u32, Seq<u8>, int, int)>,
> {
    let w = s.subrange(ws, we);
    match word_units(e, w) {
        None => match e.unk_id() {
            None => None,
            Some(uid) => Some(seq![(uid, e.unk@, ws, we)]),
        },
        Some(units) => pieces_units_from(e, units, 0, ws, true),
    }
}

/// The pieces of all words from the `k`th span on.
pub open spec fn pieces_from_words(
    e: Engine,
    s: Seq<u8>,
    wl: Seq<(int, int)>,
    k: int,
) -> Option<Seq<(u32, Seq<u8>, int, int)>>
    decreases wl.len() - k,
{
    if k < 0 || k >= wl.len() {
        Some(Seq::empty())
    } else {
        match word_pieces(e, s, wl[k].0, wl[k].1) {
            None => None,
            Some(ps) => match pieces_from_words(e, s, wl, k + 1) {
                None => None,
                Some(rest) => Some(ps + rest),
            },
        }
    }
}

/// Boundary markers around the content pieces, when asked for.
pub open spec fn with_markers(
    e: Engine,
    ps: Seq<(u32, Seq<u8>, int, int)>,
    add: bool,
    n: int,
) -> Seq<(u32, Seq<u8>, int, int)> {
    if add {
        let front = match e.bos {
            None => Seq::<(u32, Seq<u8>, int, int)>::empty(),
            Some(p) => seq![(p.1, p.0@, 0int, 0int)],
        };
        let back = match e.eos {
            None => Seq::<(u32, Seq<u8>, int, int)>::empty(),
            Some(p) => seq![(p.1, p.0@, n, n)],
        };
        front + ps + back
    } else {
        ps
    }
}

/// What `encode` returns: `None` stands for [`TokError::EncodeError`]
/// (the text is not UTF-8, or an unknown fragment was met while the unknown
/// token itself is absent from the vocabulary).
pub open spec fn spec_encode(e: Engine, s: Seq<u8>, add: bool) -> Option<
    Seq<(u32, Seq<u8>, int, int)>,
> {
    if !is_utf8(s) {
        None
    } else {
        match pieces_from_words(e, s, spec_words(s), 0) {
            None => None,
            Some(ps) => Some(with_markers(e, ps, add, s.len() as int)),
        }
    }
}

/// Every word span lies inside the text, start before end.
pub proof fn lemma_words_spans(s: Seq<u8>, i: int)
    requires
        0 <= i <= s.len(),
    ensures
        forall|k: int|
            0 <= k < words_from(s, i).len() ==> i <= (#[trigger] words_from(s, i)[k]).0
                < words_from(s, i)[k].1 <= s.len(),
    decreases s.len() - i,
{
    if i < s.len() {
        if is_ws_byte(s[i]) {
            lemma_words_spans(s, i + 1);
            assert(words_from(s, i) == words_from(s, i + 1));
            assert forall|k: int| 0 <= k < words_from(s, i).len() implies i <= (
            #[trigger] words_from(s, i)[k]).0 < words_from(s, i)[k].1 <= s.len() by {
                assert(words_from(s, i)[k] == words_from(s, i + 1)[k]);
            }
        } else {
            lemma_word_end_bounds(s, i + 1);
            assert(word_end(s, i) == word_end(s, i + 1));
            let we = word_end(s, i);
            assert(words_from(s, i) == seq![(i, we)] + words_from(s, we));
            lemma_words_spans(s, we);
            assert forall|k: int| 0 <= k < words_from(s, i).len() implies i <= (
            #[trigger] words_from(s, i)[k]).0 < words_from(s, i)[k].1 <= s.len() by {
                if k > 0 {
                    assert(words_from(s, i)[k] == words_from(s, we)[k - 1]);
                } else {
                    assert(words_from(s, i)[0] == (i, we));
                }
            }
        }
    }
}

fn append_pieces(dst: &mut Vec<Piece>, src: &Vec<Piece>)
    ensures
        final(dst)@.len() == old(dst)@.len() + src@.len(),
        pieces_view(final(dst)@) == pieces_view(old(dst)@) + pieces_view(src@),
{
    let mut k: usize = 0;
    while k < src.len()
        invariant
            k <= src@.len(),
            dst@.len() == old(dst)@.len() + k,
            forall|m: int| 0 <= m < old(dst)@.len() ==> #[trigger] dst@[m] == old(dst)@[m],
            forall|m: int|
                old(dst)@.len() <= m < dst@.len() ==> {
                    let p = #[trigger] dst@[m];
                    let q = src@[m - old(dst)@.len()];
                    p.0 == q.0 && p.1@ == q.1@ && p.2 == q.2 && p.3 == q.3
                },
        decreases src@.len() - k,
    {
        let p = &src[k];
        let tok = subvec(&p.1, 0, p.1.len());
        proof {
            assert(tok@ =~= src@[k as int].1@);
        }
        dst.push((p.0, tok, p.2, p.3));
        k = k + 1;
    }
    proof {
        assert(pieces_view(dst@) =~= pieces_view(old(dst)@) + pieces_view(src@));
    }
}

impl Engine {
    /// Whether the engine's model is WordPiece.
    pub fn marks(&self) -> (r: bool)
        ensures
            r == self.marks_continuations(),
    {
        match &self.model {
            Model::WordPiece { .. } => true,
            Model::Bpe { .. } => false,
        }
    }
}

fn units_pieces(e: &Engine, units: &Vec<Vec<u8>>, j: usize, pos: usize, first: bool) -> (r:
    Option<Vec<Piece>>)
    requires
        j <= units@.len(),
        pos + surf_total(*e, units_view(units@), j as int, first) <= usize::MAX,
    ensures
        match r {
            Some(v) => pieces_units_from(*e, units_view(units@), j as int, pos as int, first)
                == Some(pieces_view(v@)),
            None => pieces_units_from(*e, units_view(units@), j as int, pos as int, first)
                is None,
        },
    decreases units@.len() - j,
{
    if j >= units.len() {
        let out: Vec<Piece> = Vec::new();
        proof {
            assert(pieces_view(out@) =~= Seq::<(u32, Seq<u8>, int, int)>::empty());
        }
        Some(out)
    } else {
        let u = &units[j];
        let slen: usize = if e.marks() && !first && u.len() >= 2 {
            u.len() - 2
        } else {
            u.len()
        };
        proof {
            assert(slen == piece_surface(*e, units_view(units@)[j as int], first).len());
            lemma_surf_total_nonneg(*e, units_view(units@), j + 1, false);
        }
        let id_opt = match e.vocab.id_of(u) {
            Some(id) => Some(id),
            None => e.vocab.id_of(&e.unk),
        };
        match id_opt {
            None => None,
            Some(id) => {
                match units_pieces(e, units, j + 1, pos + slen, false) {
                    None => None,
                    Some(rest) => {
                        let mut out: Vec<Piece> = Vec::new();
                        let tok = subvec(u, 0, u.len());
                        proof {
                            assert(tok@ =~= units_view(units@)[j as int]);
                        }
                        out.push((id, tok, pos, pos + slen));
                        append_pieces(&mut out, &rest);
                        proof {
                            assert(pieces_view(out@) =~= seq![
                                (id, units_view(units@)[j as int], pos as int, pos + slen as int),
                            ] + pieces_view(rest@));
                        }
                        Some(out)
                    },
                }
            },
        }
    }
}

fn unk_piece(e: &Engine, ws: usize, we: usize) -> (r: Option<Vec<Piece>>)
    ensures
        match r {
            Some(v) => e.unk_id() is Some && pieces_view(v@) == seq![
                (e.unk_id().unwrap(), e.unk@, ws as int, we as int),
            ],
            None => e.unk_id() is None,
        },
{
    match e.vocab.id_of(&e.unk) {
        None => None,
        Some(uid) => {
            let mut out: Vec<Piece> = Vec::new();
            let tok = subvec(&e.unk, 0, e.unk.len());
            proof {
                assert(tok@ =~= e.unk@);
            }
            out.push((uid, tok, ws, we));
            proof {
                assert(pieces_view(out@) =~= seq![
                    (e.unk_id().unwrap(), e.unk@, ws as int, we as int),
                ]);
            }
            Some(out)
        },
    }
}

fn encode_word(e: &Engine, text: &Vec<u8>, ws: usize, we: usize) -> (r: Option<Vec<Piece>>)
    requires
        ws <= we <= text@.len(),
    ensures
        match r {
            Some(v) => word_pieces(*e, text@, ws as int, we as int) == Some(pieces_view(v@)),
            None => word_pieces(*e, text@, ws as int, we as int) is None,
        },
{
    let w = subvec(text, ws, we);
    match &e.model {
        Model::WordPiece { max_word_len } => {
            if w.len() > *max_word_len {
                unk_piece(e, ws, we)
            } else {
                match wp_segment(&e.vocab, &w, false) {
                    None => unk_piece(e, ws, we),
                    Some(units) => {
                        proof {
                            crate::wordpiece::lemma_wp_surfaces(e.table(), w@, false);
                            let uv = units_view(units@);
                            assert forall|i: int| 0 <= i < uv.len() && (!true || i > 0)
                                implies #[trigger] uv[i].len() >= 2 by {
                                assert(has_marker(uv[i]));
                            }
                            lemma_surf_total_wp(*e, uv, 0, true);
                            assert(uv.skip(0) =~= uv);
                            assert(ws + surf_total(*e, uv, 0, true) == we);
                        }
                        units_pieces(e, &units, 0, ws, true)
                    },
                }
            }
        },
        Model::Bpe { merges } => {
            let singles = split_singletons(&w);
            let units = bpe_apply(merges, singles);
            proof {
                let uv = units_view(units@);
                crate::bpe::lemma_bpe_keeps_cat(merges_view(merges@), singletons(w@));
                lemma_singletons_cat(w@);
                lemma_surf_total_bpe(*e, uv, 0, true);
                assert(uv.skip(0) =~= uv);
                assert(ws + surf_total(*e, uv, 0, true) == we);
            }
            units_pieces(e, &units, 0, ws, true)
        },
    }
}

fn words_pieces(e: &Engine, text: &Vec<u8>, wl: &Vec<(usize, usize)>, k: usize) -> (r: Option<
    Vec<Piece>,
>)
    requires
        k <= wl@.len(),
        forall|i: int|
            0 <= i < wl@.len() ==> (#[trigger] wl@[i]).0 <= wl@[i].1 <= text@.len(),
    ensures
        match r {
            Some(v) => pieces_from_words(*e, text@, spans_view(wl@), k as int) == Some(
                pieces_view(v@),
            ),
            None => pieces_from_words(*e, text@, spans_view(wl@), k as int) is None,
        },
    decreases wl@.len() - k,
{
    if k >= wl.len() {
        let out: Vec<Piece> = Vec::new();
        proof {
            assert(pieces_view(out@) =~= Seq::<(u32, Seq<u8>, int, int)>::empty());
        }
        Some(out)
    } else {
        let span = wl[k];
        proof {
            assert(spans_view(wl@)[k as int] == (span.0 as int, span.1 as int));
        }
        match encode_word(e, text, span.0, span.1) {
            None => None,
            Some(ps) => {
                match words_pieces(e, text, wl, k + 1) {
                    None => None,
                    Some(rest) => {
                        let mut out = ps;
                        append_pieces(&mut out, &rest);
                        Some(out)
                    },
                }
            },
        }
    }
}

fn build_encoding(all: &Vec<Piece>) -> (enc: Encoding)
    ensures
        enc.wf(),
        enc.pieces() == pieces_view(all@),
{
    let mut ids: Vec<u32> = Vec::new();
    let mut tokens: Vec<Vec<u8>> = Vec::new();
    let mut offsets: Vec<(usize, usize)> = Vec::new();
    let mut k: usize = 0;
    while k < all.len()
        invariant
            k <= all@.len(),
            ids@.len() == k,
            tokens@.len() == k,
            offsets@.len() == k,
            forall|m: int| 0 <= m < k ==> #[trigger] ids@[m] == all@[m].0,
            forall|m: int| 0 <= m < k ==> (#[trigger] tokens@[m])@ == all@[m].1@,
            forall|m: int|
                0 <= m < k ==> #[trigger] offsets@[m] == (all@[m].2, all@[m].3),
        decreases all@.len() - k,
    {
        let p = &all[k];
        ids.push(p.0);
        let tok = subvec(&p.1, 0, p.1.len());
        proof {
            assert(tok@ =~= all@[k as int].1@);
        }
        tokens.push(tok);
        offsets.push((p.2, p.3));
        k = k + 1;
    }
    let enc = Encoding { ids, tokens, offsets };
    proof {
        assert(enc.pieces() =~= pieces_view(all@));
    }
    enc
}

impl Engine {
    /// Encode a text: split it at whitespace, segment each word under the
    /// model, map each unit to its id (falling back to the unknown token),
    /// and record each unit's byte span in the original text.  Boundary
    /// markers are inserted when `add_special_tokens` is on and the engine
    /// carries them.  Fails with [`TokError::EncodeError`] exactly when the
    /// text is not well-formed UTF-8, or an unknown fragment was met while
    /// the unknown token itself is absent from the vocabulary.
    pub fn encode(&self, text: &Vec<u8>, add_special_tokens: bool) -> (r: Result<
        Encoding,
        TokError,
    >)
        ensures
            (r is Ok) == (spec_encode(*self, text@, add_special_tokens) is Some),
            r is Err ==> r->Err_0 == TokError::EncodeError,
            r is Ok ==> r.unwrap().wf() && r.unwrap().pieces() == spec_encode(
                *self,
                text@,
                add_special_tokens,
            ).unwrap(),
    {
        if !check_utf8(text) {
            return Err(TokError::EncodeError);
        }
        let wl = words_at(text, 0);
        proof {
            lemma_words_spans(text@, 0);
            assert forall|i: int| 0 <= i < wl@.len() implies (#[trigger] wl@[i]).0 <= wl@[i].1
                <= text@.len() by {
                assert(spans_view(wl@)[i] == (wl@[i].0 as int, wl@[i].1 as int));
                assert(spans_view(wl@)[i] == words_from(text@, 0)[i]);
            }
        }
        match words_pieces(self, text, &wl, 0) {
            None => Err(TokError::EncodeError),
            Some(ps) => {
                let ghost front: Seq<(u32, Seq<u8>, int, int)> = if add_special_tokens {
                    match &self.bos {
                        None => Seq::empty(),
                        Some(p) => seq![(p.1, p.0@, 0int, 0int)],
                    }
                } else {
                    Seq::empty()
                };
                let ghost back: Seq<(u32, Seq<u8>, int, int)> = if add_special_tokens {
                    match &self.eos {
                        None => Seq::empty(),
                        Some(p) => seq![(p.1, p.0@, text@.len() as int, text@.len() as int)],
                    }
                } else {
                    Seq::empty()
                };
                let mut all: Vec<Piece> = Vec::new();
                if add_special_tokens {
                    match &self.bos {
                        Some(p) => {
                            let tok = subvec(&p.0, 0, p.0.len());
                            proof {
                                assert(tok@ =~= self.bos.unwrap().0@);
                            }
                            all.push((p.1, tok, 0, 0));
                        },
                        None => {},
                    }
                }
                proof {
                    assert(pieces_view(all@) =~= front);
                }
                append_pieces(&mut all, &ps);
                proof {
                    assert(pieces_view(all@) =~= front + pieces_view(ps@));
                }
                if add_special_tokens {
                    match &self.eos {
                        Some(p) => {
                            let tok = subvec(&p.0, 0, p.0.len());
                            proof {
                                assert(tok@ =~= self.eos.unwrap().0@);
                            }
                            all.push((p.1, tok, text.len(), text.len()));
                        },
                        None => {},
                    }
                }
                proof {
                    assert(pieces_view(all@) =~= front + pieces_view(ps@) + back);
                    assert(with_markers(
                        *self,
                        pieces_view(ps@),
                        add_special_tokens,
                        text@.len() as int,
                    ) =~= front + pieces_view(ps@) + back);
                }
                Ok(build_encoding(&all))
            },
        }
    }
}

} // verus!
