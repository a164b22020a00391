//! Byte-pair encoding: a word starts as its single bytes; the adjacent pair
//! with the best (lowest) rank in the merge table is merged, leftmost first
//! among equals, until no adjacent pair is in the table.

use vstd::prelude::*;

use crate::bytes::{bytes_eq, concat_bytes, subvec};
use crate::wordpiece::units_view;

verus! {

/// The merge table a pair list denotes: rank is position.
pub open spec fn merges_view(ms: Seq<(Vec<u8>, Vec<u8>)>) -> Seq<(Seq<u8>, Seq<u8>)> {
    ms.map_values(|p: (Vec<u8>, Vec<u8>)| (p.0@, p.1@))
}

/// First position at or after `i` holding exactly the pair `(a, b)`.
pub open spec fn rank_from(
    ms: Seq<(Seq<u8>, Seq<u8>)>,
    a: Seq<u8>,
    b: Seq<u8>,
    i: int,
) -> Option<int>
    decreases ms.len() - i,
{
    if i < 0 || i >= ms.len() {
        None
    } else if ms[i].0 == a && ms[i].1 == b {
        Some(i)
    } else {
        rank_from(ms, a, b, i + 1)
    }
}

/// The rank of a pair: its position in the merge table, lower is better.
pub open spec fn spec_rank(ms: Seq<(Seq<u8>, Seq<u8>)>, a: Seq<u8>, b: Seq<u8>) -> Option<int> {
    rank_from(ms, a, b, 0)
}

/// Among adjacent pairs at positions `>= i`, the one with the lowest rank,
/// leftmost among equals: `(position, rank)`.
pub open spec fn best_from(ms: Seq<(Seq<u8>, Seq<u8>)>, units: Seq<Seq<u8>>, i: int) -> Option<
    (int, int),
>
    decreases units.len() - i,
{
    if i < 0 || i + 1 >= units.len() {
        None
    } else {
        let rest = best_from(ms, units, i + 1);
        match spec_rank(ms, units[i], units[i + 1]) {
            None => rest,
            Some(r) => match rest {
                None => Some((i, r)),
                Some(p) => if r <= p.1 {
                    Some((i, r))
                } else {
                    Some(p)
                },
            },
        }
    }
}

/// The best adjacent pair of the whole unit list.
pub open spec fn spec_best(ms: Seq<(Seq<u8>, Seq<u8>)>, units: Seq<Seq<u8>>) -> Option<(int, int)> {
    best_from(ms, units, 0)
}

/// A best pair names a real adjacent position with that rank.
pub proof fn lemma_best_bounds(ms: Seq<(Seq<u8>, Seq<u8>)>, units: Seq<Seq<u8>>, i: int)
    requires
        best_from(ms, units, i) is Some,
    ensures
        i <= best_from(ms, units, i).unwrap().0 < units.len() - 1,
        spec_rank(
            ms,
            units[best_from(ms, units, i).unwrap().0],
            units[best_from(ms, units, i).unwrap().0 + 1],
        ) == Some(best_from(ms, units, i).unwrap().1),
    decreases units.len() - i,
{
    if !(i < 0 || i + 1 >= units.len()) {
        if best_from(ms, units, i + 1) is Some {
            lemma_best_bounds(ms, units, i + 1);
        }
    }
}

/// The unit list after merging the adjacent pair at `j`.
pub open spec fn merge_at(units: Seq<Seq<u8>>, j: int) -> Seq<Seq<u8>> {
    units.take(j) + seq![units[j] + units[j + 1]] + units.skip(j + 2)
}

/// Repeated merging until no adjacent pair is in the table.
pub open spec fn bpe_run(ms: Seq<(Seq<u8>, Seq<u8>)>, units: Seq<Seq<u8>>) -> Seq<Seq<u8>>
    decreases units.len(),
        via bpe_run_dec
{
    match spec_best(ms, units) {
        None => units,
        Some(p) => bpe_run(ms, merge_at(units, p.0)),
    }
}

#[via_fn]
proof fn bpe_run_dec(ms: Seq<(Seq<u8>, Seq<u8>)>, units: Seq<Seq<u8>>) {
    if spec_best(ms, units) is Some {
        lemma_best_bounds(ms, units, 0);
    }
}

/// Merging never lengthens a word's unit list, and never empties it: each
/// merge step shortens the list by exactly one.
pub proof fn lemma_bpe_monotone(ms: Seq<(Seq<u8>, Seq<u8>)>, units: Seq<Seq<u8>>)
    ensures
        bpe_run(ms, units).len() <= units.len(),
        units.len() >= 1 ==> bpe_run(ms, units).len() >= 1,
    decreases units.len(),
{
    match spec_best(ms, units) {
        None => {},
        Some(p) => {
            lemma_best_bounds(ms, units, 0);
            assert(merge_at(units, p.0).len() == units.len() - 1);
            lemma_bpe_monotone(ms, merge_at(units, p.0));
        },
    }
}

/// Merging keeps the bytes: the units always concatenate to the word they
/// came from.
pub open spec fn units_cat(units: Seq<Seq<u8>>) -> Seq<u8>
    decreases units.len(),
{
    if units.len() == 0 {
        Seq::empty()
    } else {
        units[0] + units_cat(units.drop_first())
    }
}

proof fn lemma_units_cat_split(units: Seq<Seq<u8>>, j: int)
    requires
        0 <= j <= units.len(),
    ensures
        units_cat(units) == units_cat(units.take(j)) + units_cat(units.skip(j)),
    decreases j,
{
    if j == 0 {
        assert(units.take(0) =~= Seq::<Seq<u8>>::empty());
        assert(units.skip(0) =~= units);
        assert(units_cat(units.take(0)) + units_cat(units) =~= units_cat(units));
    } else {
        assert(units.take(j)[0] == units[0]);
        assert(units.take(j).drop_first() =~= units.drop_first().take(j - 1));
        assert(units.skip(j) =~= units.drop_first().skip(j - 1));
        lemma_units_cat_split(units.drop_first(), j - 1);
        assert(units_cat(units.take(j)) == units[0] + units_cat(units.drop_first().take(j - 1)));
        assert(units[0] + (units_cat(units.drop_first().take(j - 1)) + units_cat(
            units.drop_first().skip(j - 1),
        )) =~= (units[0] + units_cat(units.drop_first().take(j - 1))) + units_cat(
            units.drop_first().skip(j - 1),
        ));
    }
}

proof fn lemma_units_cat_single(u: Seq<u8>)
    ensures
        units_cat(seq![u]) == u,
{
    assert(seq![u].drop_first() =~= Seq::<Seq<u8>>::empty());
    assert(units_cat(Seq::<Seq<u8>>::empty()) == Seq::<u8>::empty());
    assert(u + Seq::<u8>::empty() =~= u);
}

proof fn lemma_units_cat_pair(a: Seq<u8>, b: Seq<u8>)
    ensures
        units_cat(seq![a, b]) == a + b,
{
    assert(seq![a, b].drop_first() =~= seq![b]);
    lemma_units_cat_single(b);
}

/// One merge step keeps the concatenation of the units.
pub proof fn lemma_merge_keeps_cat(units: Seq<Seq<u8>>, j: int)
    requires
        0 <= j < units.len() - 1,
    ensures
        units_cat(merge_at(units, j)) == units_cat(units),
{
    let a = units[j];
    let b = units[j + 1];
    let merged = merge_at(units, j);
    lemma_units_cat_split(units, j);
    lemma_units_cat_split(units.skip(j), 2);
    assert(units.skip(j).take(2) =~= seq![a, b]);
    assert(units.skip(j).skip(2) =~= units.skip(j + 2));
    lemma_units_cat_pair(a, b);
    lemma_units_cat_split(merged, j);
    assert(merged.take(j) =~= units.take(j));
    lemma_units_cat_split(merged.skip(j), 1);
    assert(merged.skip(j).take(1) =~= seq![a + b]);
    assert(merged.skip(j).skip(1) =~= units.skip(j + 2));
    lemma_units_cat_single(a + b);
    assert(units_cat(merged) =~= units_cat(units));
}

/// The full run keeps the concatenation of the units.
pub proof fn lemma_bpe_keeps_cat(ms: Seq<(Seq<u8>, Seq<u8>)>, units: Seq<Seq<u8>>)
    ensures
        units_cat(bpe_run(ms, units)) == units_cat(units),
    decreases units.len(),
{
    match spec_best(ms, units) {
        None => {},
        Some(p) => {
            lemma_best_bounds(ms, units, 0);
            lemma_merge_keeps_cat(units, p.0);
            lemma_bpe_keeps_cat(ms, merge_at(units, p.0));
        },
    }
}

/// A word as its single-byte start units.
pub open spec fn singletons(w: Seq<u8>) -> Seq<Seq<u8>> {
    Seq::new(w.len(), |i: int| seq![w[i]])
}

/// Executable mirror of [`singletons`].
pub fn split_singletons(w: &Vec<u8>) -> (r: Vec<Vec<u8>>)
    ensures
        units_view(r@) == singletons(w@),
{
    let mut out: Vec<Vec<u8>> = Vec::new();
    let mut k: usize = 0;
    while k < w.len()
        invariant
            k <= w@.len(),
            out@.len() == k,
            forall|i: int| 0 <= i < k ==> #[trigger] out@[i]@ == seq![w@[i]],
        decreases w.len() - k,
    {
        let mut unit: Vec<u8> = Vec::new();
        unit.push(w[k]);
        proof {
            assert(unit@ =~= seq![w@[k as int]]);
        }
        out.push(unit);
        k = k + 1;
    }
    proof {
        assert(units_view(out@) =~= singletons(w@));
    }
    out
}

fn rank_of_from(ms: &Vec<(Vec<u8>, Vec<u8>)>, a: &Vec<u8>, b: &Vec<u8>, i: usize) -> (r: Option<
    usize,
>)
    requires
        i <= ms@.len(),
    ensures
        match r {
            Some(k) => rank_from(merges_view(ms@), a@, b@, i as int) == Some(k as int),
            None => rank_from(merges_view(ms@), a@, b@, i as int) is None,
        },
    decreases ms@.len() - i,
{
    if i >= ms.len() {
        None
    } else {
        let p = &ms[i];
        if bytes_eq(&p.0, a) && bytes_eq(&p.1, b) {
            Some(i)
        } else {
            rank_of_from(ms, a, b, i + 1)
        }
    }
}

fn best_pair_from(ms: &Vec<(Vec<u8>, Vec<u8>)>, units: &Vec<Vec<u8>>, i: usize) -> (r: Option<
    (usize, usize),
>)
    requires
        i <= units@.len(),
    ensures
        match r {
            Some(p) => best_from(merges_view(ms@), units_view(units@), i as int) == Some(
                (p.0 as int, p.1 as int),
            ),
            None => best_from(merges_view(ms@), units_view(units@), i as int) is None,
        },
    decreases units@.len() - i,
{
    if units.len() - i <= 1 {
        None
    } else {
        let rest = best_pair_from(ms, units, i + 1);
        match rank_of_from(ms, &units[i], &units[i + 1], 0) {
            None => rest,
            Some(r) => match rest {
                None => Some((i, r)),
                Some(p) => if r <= p.1 {
                    Some((i, r))
                } else {
                    Some(p)
                },
            },
        }
    }
}

fn merge_units(units: &Vec<Vec<u8>>, j: usize) -> (r: Vec<Vec<u8>>)
    requires
        j + 1 < units@.len(),
    ensures
        units_view(r@) == merge_at(units_view(units@), j as int),
        r@.len() == units@.len() - 1,
{
    let n = units.len();
    let mut out: Vec<Vec<u8>> = Vec::new();
    let mut k: usize = 0;
    while k < j
        invariant
            k <= j,
            n == units@.len(),
            j + 1 < units@.len(),
            out@.len() == k,
            forall|i: int| 0 <= i < k ==> #[trigger] out@[i]@ == units_view(units@)[i],
        decreases j - k,
    {
        out.push(subvec(&units[k], 0, units[k].len()));
        k = k + 1;
        proof {
            assert(out@[k - 1]@ =~= units_view(units@)[k - 1]);
        }
    }
    out.push(concat_bytes(&units[j], &units[j + 1]));
    let mut k: usize = j + 2;
    while k < units.len()
        invariant
            j + 2 <= k <= units@.len(),
            out@.len() == k - 1,
            forall|i: int| 0 <= i < j ==> #[trigger] out@[i]@ == units_view(units@)[i],
            out@[j as int]@ == units_view(units@)[j as int] + units_view(units@)[j + 1],
            forall|i: int|
                j < i < k - 1 ==> #[trigger] out@[i]@ == units_view(units@)[i + 1],
        decreases units@.len() - k,
    {
        out.push(subvec(&units[k], 0, units[k].len()));
        k = k + 1;
        proof {
            assert(out@[k - 2]@ =~= units_view(units@)[k - 1]);
        }
    }
    proof {
        assert(units_view(out@) =~= merge_at(units_view(units@), j as int));
    }
    out
}

/// Executable mirror of [`bpe_run`].
pub fn bpe_apply(ms: &Vec<(Vec<u8>, Vec<u8>)>, units: Vec<Vec<u8>>) -> (r: Vec<Vec<u8>>)
    ensures
        units_view(r@) == bpe_run(merges_view(ms@), units_view(units@)),
    decreases units@.len(),
{
    match best_pair_from(ms, &units, 0) {
        None => units,
        Some(p) => {
            proof {
                lemma_best_bounds(merges_view(ms@), units_view(units@), 0);
            }
            let merged = merge_units(&units, p.0);
            bpe_apply(ms, merged)
        },
    }
}

} // verus!
