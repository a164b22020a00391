//! Decoding id sequences back into readable text, and introspection of an
//! engine's configuration.  Both use the same special-token classifier.

use vstd::prelude::*;

use crate::bytes::{bytes_have_marker, concat_bytes, has_marker, subvec};
use crate::engine::{token_special, token_special_exec, Engine};
use crate::error::TokError;
use crate::vocab::{pairs_view, spec_token_of};

verus! {

/// What one kept token adds to the decoded text: a continuation loses its
/// marker and joins the previous token directly; any other token is
/// preceded by a single space unless it opens the output.
pub open spec fn join_form(t: Seq<u8>, first: bool) -> Seq<u8> {
    if has_marker(t) {
        t.skip(2)
    } else if first {
        t
    } else {
        seq![32u8] + t
    }
}

/// The decoded text from the `k`th id on; `first` says whether nothing has
/// been emitted yet.  `None` means some id has no vocabulary entry
/// ([`TokError::UnknownTokenId`]).
pub open spec fn decode_from(e: Engine, ids: Seq<u32>, skip: bool, k: int, first: bool) -> Option<
    Seq<u8>,
>
    decreases ids.len() - k,
{
    if k < 0 || k >= ids.len() {
        Some(Seq::empty())
    } else {
        match spec_token_of(e.table(), ids[k]) {
            None => None,
            Some(t) => if skip && token_special(e, t, ids[k]) {
                decode_from(e, ids, skip, k + 1, first)
            } else {
                match decode_from(e, ids, skip, k + 1, false) {
                    None => None,
                    Some(rest) => Some(join_form(t, first) + rest),
                }
            },
        }
    }
}

/// What `decode` returns for an id sequence.
pub open spec fn spec_decode(e: Engine, ids: Seq<u32>, skip: bool) -> Option<Seq<u8>> {
    decode_from(e, ids, skip, 0, true)
}

fn decode_at(e: &Engine, ids: &Vec<u32>, skip: bool, k: usize, first: bool) -> (r: Option<Vec<u8>>)
    requires
        k <= ids@.len(),
    ensures
        match r {
            Some(v) => decode_from(*e, ids@, skip, k as int, first) == Some(v@),
            None => decode_from(*e, ids@, skip, k as int, first) is None,
        },
    decreases ids@.len() - k,
{
    if k >= ids.len() {
        let out: Vec<u8> = Vec::new();
        proof {
            assert(out@ =~= Seq::<u8>::empty());
        }
        Some(out)
    } else {
        match e.vocab.token_of(ids[k]) {
            None => None,
            Some(t) => {
                if skip && token_special_exec(e, &t, ids[k]) {
                    decode_at(e, ids, skip, k + 1, first)
                } else {
                    match decode_at(e, ids, skip, k + 1, false) {
                        None => None,
                        Some(rest) => {
                            let joined: Vec<u8> = if bytes_have_marker(&t) {
                                subvec(&t, 2, t.len())
                            } else if first {
                                subvec(&t, 0, t.len())
                            } else {
                                let mut sp: Vec<u8> = Vec::new();
                                sp.push(32);
                                concat_bytes(&sp, &t)
                            };
                            proof {
                                assert(joined@ =~= join_form(t@, first));
                            }
                            Some(concat_bytes(&joined, &rest))
                        },
                    }
                }
            },
        }
    }
}

/// The declared or detected special entries of the table, from entry `k`
/// on, in table order.
pub open spec fn specials_from(e: Engine, k: int) -> Seq<(Seq<u8>, u32)>
    decreases e.table().len() - k,
{
    if k < 0 || k >= e.table().len() {
        Seq::empty()
    } else {
        let ent = e.table()[k];
        if token_special(e, ent.0, ent.1) {
            seq![ent] + specials_from(e, k + 1)
        } else {
            specials_from(e, k + 1)
        }
    }
}

/// The structured report `get_config` returns: the vocabulary size, the
/// full token table, and the special entries.
pub struct ConfigReport {
    pub vocab_size: usize,
    pub entries: Vec<(Vec<u8>, u32)>,
    pub specials: Vec<(Vec<u8>, u32)>,
}

pub(crate) fn append_pairs(dst: &mut Vec<(Vec<u8>, u32)>, src: &Vec<(Vec<u8>, u32)>)
    ensures
        final(dst)@.len() == old(dst)@.len() + src@.len(),
        pairs_view(final(dst)@) == pairs_view(old(dst)@) + pairs_view(src@),
{
    let mut k: usize = 0;
    while k < src.len()
        invariant
            k <= src@.len(),
            dst@.len() == old(dst)@.len() + k,
            forall|m: int| 0 <= m < old(dst)@.len() ==> #[trigger] dst@[m] == old(dst)@[m],
            forall|m: int|
                old(dst)@.len() <= m < dst@.len() ==> {
                    let p = #[trigger] dst@[m];
                    let q = src@[m - old(dst)@.len()];
                    p.0@ == q.0@ && p.1 == q.1
                },
        decreases src@.len() - k,
    {
        let p = &src[k];
        let tok = subvec(&p.0, 0, p.0.len());
        proof {
            assert(tok@ =~= src@[k as int].0@);
        }
        dst.push((tok, p.1));
        k = k + 1;
    }
    proof {
        assert(pairs_view(dst@) =~= pairs_view(old(dst)@) + pairs_view(src@));
    }
}

fn specials_at(e: &Engine, k: usize) -> (r: Vec<(Vec<u8>, u32)>)
    requires
        k <= e.vocab.entries@.len(),
    ensures
        pairs_view(r@) == specials_from(*e, k as int),
    decreases e.vocab.entries@.len() - k,
{
    if k >= e.vocab.entries.len() {
        let out: Vec<(Vec<u8>, u32)> = Vec::new();
        proof {
            assert(pairs_view(out@) =~= Seq::<(Seq<u8>, u32)>::empty());
        }
        out
    } else {
        let rest = specials_at(e, k + 1);
        let ent = &e.vocab.entries[k];
        proof {
            assert(e.table()[k as int] == (ent.0@, ent.1));
        }
        if token_special_exec(e, &ent.0, ent.1) {
            let mut out: Vec<(Vec<u8>, u32)> = Vec::new();
            let tok = subvec(&ent.0, 0, ent.0.len());
            proof {
                assert(tok@ =~= ent.0@);
            }
            out.push((tok, ent.1));
            append_pairs(&mut out, &rest);
            proof {
                assert(pairs_view(out@) =~= seq![
                    (ent.0@, ent.1),
                ] + pairs_view(rest@));
            }
            out
        } else {
            rest
        }
    }
}

impl Engine {
    /// Decode an id sequence: look every id up, drop special tokens when
    /// `skip_special_tokens` is on, strip continuation markers, and join
    /// the remaining tokens with single spaces.  Fails with
    /// [`TokError::UnknownTokenId`] exactly when some id has no vocabulary
    /// entry; this engine rejects such input rather than substituting a
    /// placeholder.
    pub fn decode(&self, ids: &Vec<u32>, skip_special_tokens: bool) -> (r: Result<
        Vec<u8>,
        TokError,
    >)
        ensures
            (r is Ok) == (spec_decode(*self, ids@, skip_special_tokens) is Some),
            r is Err ==> r->Err_0 == TokError::UnknownTokenId,
            r is Ok ==> r.unwrap()@ == spec_decode(*self, ids@, skip_special_tokens).unwrap(),
    {
        match decode_at(self, ids, skip_special_tokens, 0, true) {
            None => Err(TokError::UnknownTokenId),
            Some(v) => Ok(v),
        }
    }

    /// Report the engine's configuration: the vocabulary size, the full
    /// token table in its stored order, and exactly those entries the
    /// special-token classifier accepts (declared ids first count, then
    /// the form heuristic).
    pub fn get_config(&self) -> (r: ConfigReport)
        ensures
            r.vocab_size == self.table().len(),
            pairs_view(r.entries@) == self.table(),
            pairs_view(r.specials@) == specials_from(*self, 0),
    {
        let mut entries: Vec<(Vec<u8>, u32)> = Vec::new();
        append_pairs(&mut entries, &self.vocab.entries);
        proof {
            assert(pairs_view(entries@) =~= self.table());
        }
        let specials = specials_at(self, 0);
        ConfigReport { vocab_size: self.vocab.size(), entries, specials }
    }
}

} // verus!
