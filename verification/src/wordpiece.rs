//! WordPiece segmentation: greedily match the longest vocabulary prefix of a
//! word, mark each remainder piece with the `##` continuation marker, and
//! repeat; a word with no matching prefix is unknown as a whole.

use vstd::prelude::*;

use crate::bytes::{cont_marked, has_marker, mark_bytes, subvec};
use crate::vocab::{spec_id_of, Vocab};

verus! {

/// The token form a match of length `l` emits: the prefix itself at the
/// start of a word, the prefix behind the continuation marker inside one.
pub open spec fn marked_form(w: Seq<u8>, l: int, cont: bool) -> Seq<u8> {
    if cont {
        cont_marked(w.take(l))
    } else {
        w.take(l)
    }
}

/// The greatest `l <= n` such that the marked form of `w`'s prefix of
/// length `l` is in the vocabulary; `None` if no prefix matches.
pub open spec fn longest_match(
    es: Seq<(Seq<u8>, u32)>,
    w: Seq<u8>,
    cont: bool,
    n: int,
) -> Option<int>
    decreases n,
{
    if n <= 0 {
        None
    } else if spec_id_of(es, marked_form(w, n, cont)) is Some {
        Some(n)
    } else {
        longest_match(es, w, cont, n - 1)
    }
}

/// A successful match has length between 1 and the bound.
pub proof fn lemma_longest_match_bounds(es: Seq<(Seq<u8>, u32)>, w: Seq<u8>, cont: bool, n: int)
    requires
        longest_match(es, w, cont, n) is Some,
    ensures
        1 <= longest_match(es, w, cont, n).unwrap() <= n,
    decreases n,
{
    if n > 0 && spec_id_of(es, marked_form(w, n, cont)) is None {
        lemma_longest_match_bounds(es, w, cont, n - 1);
    }
}

/// When no match exists, no prefix length up to the bound is in the
/// vocabulary.
pub proof fn lemma_longest_match_none(es: Seq<(Seq<u8>, u32)>, w: Seq<u8>, cont: bool, n: int)
    requires
        longest_match(es, w, cont, n) is None,
    ensures
        forall|l: int| 1 <= l <= n ==> spec_id_of(es, #[trigger] marked_form(w, l, cont)) is None,
    decreases n,
{
    if n > 0 {
        lemma_longest_match_none(es, w, cont, n - 1);
    }
}

/// The marked token forms WordPiece emits for a word, left to right;
/// `None` when some remainder has no matching prefix, in which case the
/// whole word is treated as unknown.
pub open spec fn wp_units(es: Seq<(Seq<u8>, u32)>, w: Seq<u8>, cont: bool) -> Option<Seq<Seq<u8>>>
    decreases w.len(),
        via wp_units_dec
{
    if w.len() == 0 {
        Some(Seq::empty())
    } else {
        match longest_match(es, w, cont, w.len() as int) {
            None => None,
            Some(l) => match wp_units(es, w.skip(l), true) {
                None => None,
                Some(rest) => Some(seq![marked_form(w, l, cont)] + rest),
            },
        }
    }
}

#[via_fn]
proof fn wp_units_dec(es: Seq<(Seq<u8>, u32)>, w: Seq<u8>, cont: bool) {
    if w.len() != 0 {
        if longest_match(es, w, cont, w.len() as int) is Some {
            lemma_longest_match_bounds(es, w, cont, w.len() as int);
        }
    }
}

/// The surface form one emitted unit contributes: a continuation loses its
/// marker, the word-initial unit stands as it is.
pub open spec fn unit_surface(t: Seq<u8>, cont: bool) -> Seq<u8> {
    if cont {
        t.skip(2)
    } else {
        t
    }
}

/// Concatenation of the surface forms of a unit list.
pub open spec fn surface_cat(units: Seq<Seq<u8>>, cont: bool) -> Seq<u8>
    decreases units.len(),
{
    if units.len() == 0 {
        Seq::empty()
    } else {
        unit_surface(units[0], cont) + surface_cat(units.drop_first(), true)
    }
}

/// The greedy property: when a word segments, the emitted units' surface
/// forms concatenate to exactly the word, every continuation unit carries
/// the marker, and no unit is empty.
pub proof fn lemma_wp_surfaces(es: Seq<(Seq<u8>, u32)>, w: Seq<u8>, cont: bool)
    requires
        wp_units(es, w, cont) is Some,
    ensures
        surface_cat(wp_units(es, w, cont).unwrap(), cont) == w,
        forall|i: int|
            0 <= i < wp_units(es, w, cont).unwrap().len() && (cont || i > 0)
                ==> has_marker(#[trigger] wp_units(es, w, cont).unwrap()[i]),
        forall|i: int|
            0 <= i < wp_units(es, w, cont).unwrap().len()
                ==> unit_surface(#[trigger] wp_units(es, w, cont).unwrap()[i], cont || i > 0).len()
                    > 0,
    decreases w.len(),
{
    if w.len() == 0 {
        assert(surface_cat(wp_units(es, w, cont).unwrap(), cont) =~= w);
    } else {
        let l = longest_match(es, w, cont, w.len() as int).unwrap();
        lemma_longest_match_bounds(es, w, cont, w.len() as int);
        let rest = wp_units(es, w.skip(l), true).unwrap();
        lemma_wp_surfaces(es, w.skip(l), true);
        let units = wp_units(es, w, cont).unwrap();
        assert(units =~= seq![marked_form(w, l, cont)] + rest);
        assert(units.drop_first() =~= rest);
        assert(unit_surface(marked_form(w, l, cont), cont) =~= w.take(l));
        assert(w.take(l) + w.skip(l) =~= w);
        assert forall|i: int| 0 <= i < units.len() && (cont || i > 0)
            implies has_marker(#[trigger] units[i]) by {
            if i > 0 {
                assert(units[i] == rest[i - 1]);
            }
        }
        assert forall|i: int| 0 <= i < units.len()
            implies unit_surface(#[trigger] units[i], cont || i > 0).len() > 0 by {
            if i > 0 {
                assert(units[i] == rest[i - 1]);
                assert(unit_surface(rest[i - 1], true).len() > 0);
            }
        }
    }
}

/// A vocabulary that holds every single byte of a word, in plain and in
/// marked form, segments the word completely.
pub proof fn lemma_wp_total(es: Seq<(Seq<u8>, u32)>, w: Seq<u8>, cont: bool)
    requires
        forall|i: int|
            0 <= i < w.len() ==> spec_id_of(es, seq![#[trigger] w[i]]) is Some && spec_id_of(
                es,
                cont_marked(seq![w[i]]),
            ) is Some,
    ensures
        wp_units(es, w, cont) is Some,
    decreases w.len(),
{
    if w.len() != 0 {
        if longest_match(es, w, cont, w.len() as int) is None {
            lemma_longest_match_none(es, w, cont, w.len() as int);
            assert(marked_form(w, 1, cont) == if cont {
                cont_marked(w.take(1))
            } else {
                w.take(1)
            });
            assert(w.take(1) =~= seq![w[0]]);
            assert(spec_id_of(es, marked_form(w, 1, cont)) is None);
            assert(false);
        }
        let l = longest_match(es, w, cont, w.len() as int).unwrap();
        lemma_longest_match_bounds(es, w, cont, w.len() as int);
        assert forall|i: int| 0 <= i < w.skip(l).len() implies spec_id_of(
            es,
            seq![#[trigger] w.skip(l)[i]],
        ) is Some && spec_id_of(es, cont_marked(seq![w.skip(l)[i]])) is Some by {
            assert(w.skip(l)[i] == w[i + l]);
        }
        lemma_wp_total(es, w.skip(l), true);
    }
}

/// Executable mirror of [`longest_match`].
fn find_longest(v: &Vocab, w: &Vec<u8>, cont: bool, n: usize) -> (r: Option<usize>)
    requires
        n <= w@.len(),
    ensures
        match r {
            Some(l) => longest_match(v.table(), w@, cont, n as int) == Some(l as int),
            None => longest_match(v.table(), w@, cont, n as int) is None,
        },
    decreases n,
{
    if n == 0 {
        None
    } else {
        let prefix = subvec(w, 0, n);
        let form = if cont {
            mark_bytes(&prefix)
        } else {
            prefix
        };
        proof {
            assert(w@.subrange(0, n as int) =~= w@.take(n as int));
        }
        match v.id_of(&form) {
            Some(_) => Some(n),
            None => find_longest(v, w, cont, n - 1),
        }
    }
}

/// The marked token forms of a unit list, as owned byte strings.
pub open spec fn units_view(v: Seq<Vec<u8>>) -> Seq<Seq<u8>> {
    v.map_values(|x: Vec<u8>| x@)
}

/// Executable mirror of [`wp_units`]: `None` means the word is unknown.
pub fn wp_segment(v: &Vocab, w: &Vec<u8>, cont: bool) -> (r: Option<Vec<Vec<u8>>>)
    ensures
        match r {
            Some(units) => wp_units(v.table(), w@, cont) == Some(units_view(units@)),
            None => wp_units(v.table(), w@, cont) is None,
        },
    decreases w@.len(),
{
    if w.len() == 0 {
        let out: Vec<Vec<u8>> = Vec::new();
        proof {
            assert(units_view(out@) =~= Seq::<Seq<u8>>::empty());
        }
        Some(out)
    } else {
        match find_longest(v, w, cont, w.len()) {
            None => None,
            Some(l) => {
                proof {
                    lemma_longest_match_bounds(v.table(), w@, cont, w@.len() as int);
                }
                let prefix = subvec(w, 0, l);
                let form = if cont {
                    mark_bytes(&prefix)
                } else {
                    prefix
                };
                let tail = subvec(w, l, w.len());
                proof {
                    assert(tail@ =~= w@.skip(l as int));
                    assert(w@.subrange(0, l as int) =~= w@.take(l as int));
                }
                match wp_segment(v, &tail, true) {
                    None => None,
                    Some(rest) => {
                        let mut out: Vec<Vec<u8>> = Vec::new();
                        out.push(form);
                        let mut k: usize = 0;
                        while k < rest.len()
                            invariant
                                k <= rest@.len(),
                                out@.len() == k + 1,
                                out@[0]@ == marked_form(w@, l as int, cont),
                                forall|i: int|
                                    1 <= i < out@.len() ==> #[trigger] out@[i]@ == units_view(
                                        rest@,
                                    )[i - 1],
                            decreases rest@.len() - k,
                        {
                            let piece = subvec(&rest[k], 0, rest[k].len());
                            proof {
                                assert(piece@ =~= rest@[k as int]@);
                            }
                            out.push(piece);
                            k = k + 1;
                        }
                        proof {
                            assert(units_view(out@) =~= seq![
                                marked_form(w@, l as int, cont),
                            ] + units_view(rest@));
                        }
                        Some(out)
                    },
                }
            },
        }
    }
}

} // verus!
