//! The vocabulary: a table from token byte-string to id, immutable once an
//! engine is built, with lookup in both directions.

use vstd::prelude::*;

use crate::bytes::{bytes_eq, subvec};

verus! {

/// First entry at or after `i` whose token equals `tok`, as an id.
pub open spec fn id_from(es: Seq<(Seq<u8>, u32)>, tok: Seq<u8>, i: int) -> Option<u32>
    decreases es.len() - i,
{
    if i < 0 || i >= es.len() {
        None
    } else if es[i].0 == tok {
        Some(es[i].1)
    } else {
        id_from(es, tok, i + 1)
    }
}

/// The id of `tok` in the table, if any.
pub open spec fn spec_id_of(es: Seq<(Seq<u8>, u32)>, tok: Seq<u8>) -> Option<u32> {
    id_from(es, tok, 0)
}

/// First entry at or after `i` whose id equals `id`, as a token.
pub open spec fn token_from(es: Seq<(Seq<u8>, u32)>, id: u32, i: int) -> Option<Seq<u8>>
    decreases es.len() - i,
{
    if i < 0 || i >= es.len() {
        None
    } else if es[i].1 == id {
        Some(es[i].0)
    } else {
        token_from(es, id, i + 1)
    }
}

/// The token carrying `id` in the table, if any.
pub open spec fn spec_token_of(es: Seq<(Seq<u8>, u32)>, id: u32) -> Option<Seq<u8>> {
    token_from(es, id, 0)
}

/// A well-formed table: no two entries share a token, no two share an id.
pub open spec fn table_wf(es: Seq<(Seq<u8>, u32)>) -> bool {
    forall|i: int, j: int|
        0 <= i < j < es.len() ==> es[i].0 != es[j].0 && es[i].1 != es[j].1
}

/// The table a list of owned entries denotes.
pub open spec fn pairs_view(v: Seq<(Vec<u8>, u32)>) -> Seq<(Seq<u8>, u32)> {
    v.map_values(|p: (Vec<u8>, u32)| (p.0@, p.1))
}

/// A vocabulary, stored as an ordered entry list.
pub struct Vocab {
    pub entries: Vec<(Vec<u8>, u32)>,
}

impl Vocab {
    /// The table the entry list denotes.
    pub open spec fn table(&self) -> Seq<(Seq<u8>, u32)> {
        pairs_view(self.entries@)
    }

    /// No duplicate tokens, no duplicate ids.
    pub open spec fn wf(&self) -> bool {
        table_wf(self.table())
    }

    /// An empty vocabulary.
    pub fn new() -> (r: Vocab)
        ensures
            r.table() =~= Seq::<(Seq<u8>, u32)>::empty(),
            r.wf(),
    {
        Vocab { entries: Vec::new() }
    }

    /// Number of entries.
    pub fn size(&self) -> (r: usize)
        ensures
            r == self.table().len(),
    {
        self.entries.len()
    }

    fn id_of_from(&self, tok: &Vec<u8>, i: usize) -> (r: Option<u32>)
        requires
            i <= self.entries@.len(),
        ensures
            r == id_from(self.table(), tok@, i as int),
        decreases self.entries@.len() - i,
    {
        if i >= self.entries.len() {
            None
        } else {
            let p = &self.entries[i];
            if bytes_eq(&p.0, tok) {
                Some(p.1)
            } else {
                self.id_of_from(tok, i + 1)
            }
        }
    }

    /// Forward lookup: the id of a token, if the token is in the vocabulary.
    pub fn id_of(&self, tok: &Vec<u8>) -> (r: Option<u32>)
        ensures
            r == spec_id_of(self.table(), tok@),
    {
        self.id_of_from(tok, 0)
    }

    fn token_of_from(&self, id: u32, i: usize) -> (r: Option<Vec<u8>>)
        requires
            i <= self.entries@.len(),
        ensures
            (r is Some) == (token_from(self.table(), id, i as int) is Some),
            r is Some ==> r.unwrap()@ == token_from(self.table(), id, i as int).unwrap(),
        decreases self.entries@.len() - i,
    {
        if i >= self.entries.len() {
            None
        } else {
            let p = &self.entries[i];
            if p.1 == id {
                Some(subvec(&p.0, 0, p.0.len()))
            } else {
                self.token_of_from(id, i + 1)
            }
        }
    }

    /// Reverse lookup: the token carrying an id, if any entry has the id.
    pub fn token_of(&self, id: u32) -> (r: Option<Vec<u8>>)
        ensures
            (r is Some) == (spec_token_of(self.table(), id) is Some),
            r is Some ==> r.unwrap()@ == spec_token_of(self.table(), id).unwrap(),
    {
        self.token_of_from(id, 0)
    }
}

/// A successful forward lookup names an actual entry of the table.
pub proof fn lemma_id_from_entry(es: Seq<(Seq<u8>, u32)>, tok: Seq<u8>, i: int, id: u32)
    requires
        0 <= i <= es.len(),
        id_from(es, tok, i) == Some(id),
    ensures
        exists|k: int| i <= k < es.len() && es[k].0 == tok && #[trigger] es[k].1 == id,
    decreases es.len() - i,
{
    if i < es.len() {
        if es[i].0 == tok {
            assert(es[i].1 == id);
        } else {
            lemma_id_from_entry(es, tok, i + 1, id);
        }
    }
}

/// In a well-formed table, reverse lookup of an entry's id finds that
/// entry's token.
pub proof fn lemma_token_from_unique(es: Seq<(Seq<u8>, u32)>, k: int, j: int)
    requires
        table_wf(es),
        0 <= j <= k < es.len(),
    ensures
        token_from(es, es[k].1, j) == Some(es[k].0),
    decreases k - j,
{
    if j < k {
        assert(es[j].1 != es[k].1);
        lemma_token_from_unique(es, k, j + 1);
    }
}

/// A failed forward lookup means no entry carries the token.
pub proof fn lemma_id_from_none(es: Seq<(Seq<u8>, u32)>, tok: Seq<u8>, i: int)
    requires
        0 <= i,
        id_from(es, tok, i) is None,
    ensures
        forall|k: int| i <= k < es.len() ==> (#[trigger] es[k]).0 != tok,
    decreases es.len() - i,
{
    if i < es.len() {
        lemma_id_from_none(es, tok, i + 1);
    }
}

/// A failed reverse lookup means no entry carries the id.
pub proof fn lemma_token_from_none(es: Seq<(Seq<u8>, u32)>, id: u32, i: int)
    requires
        0 <= i,
        token_from(es, id, i) is None,
    ensures
        forall|k: int| i <= k < es.len() ==> (#[trigger] es[k]).1 != id,
    decreases es.len() - i,
{
    if i < es.len() {
        lemma_token_from_none(es, id, i + 1);
    }
}

/// Adding an entry whose token and id are both fresh keeps a table
/// well-formed.
pub proof fn lemma_push_keeps_wf(es: Seq<(Seq<u8>, u32)>, tok: Seq<u8>, id: u32)
    requires
        table_wf(es),
        spec_id_of(es, tok) is None,
        spec_token_of(es, id) is None,
    ensures
        table_wf(es.push((tok, id))),
{
    lemma_id_from_none(es, tok, 0);
    lemma_token_from_none(es, id, 0);
    let es2 = es.push((tok, id));
    assert forall|i: int, j: int| 0 <= i < j < es2.len() implies es2[i].0 != es2[j].0
        && es2[i].1 != es2[j].1 by {
        if j == es.len() {
            assert(es2[i] == es[i]);
            assert(es2[j] == (tok, id));
        } else {
            assert(es2[i] == es[i]);
            assert(es2[j] == es[j]);
        }
    }
}

/// Looking a token up and reverse-looking the id up gives the token back,
/// provided the table is well-formed.
pub proof fn lemma_lookup_inverse(es: Seq<(Seq<u8>, u32)>, tok: Seq<u8>, id: u32)
    requires
        table_wf(es),
        spec_id_of(es, tok) == Some(id),
    ensures
        spec_token_of(es, id) == Some(tok),
{
    lemma_id_from_entry(es, tok, 0, id);
    let k = choose|k: int| 0 <= k < es.len() && es[k].0 == tok && #[trigger] es[k].1 == id;
    lemma_token_from_unique(es, k, 0);
}

} // verus!
