//! The global order of the records: by canonical bytes, then by position in
//! the input.
use vstd::prelude::*;
use vstd::relations::{sorted_by, total_ordering};
use vstd::seq_lib::lemma_sorted_unique;
use rayon::slice::ParallelSliceMut;
use crate::order::{lex_lt, lemma_lex_asymmetric, lemma_lex_irreflexive, lemma_lex_total, lemma_lex_transitive};

verus! {

/// A sort key: canonical bytes and position in the input.
pub type Key = (Vec<u8>, usize);

pub open spec fn key_le(a: (Seq<u8>, usize), b: (Seq<u8>, usize)) -> bool {
    lex_lt(a.0, b.0) || (a.0 == b.0 && a.1 <= b.1)
}

pub open spec fn key_order() -> spec_fn((Seq<u8>, usize), (Seq<u8>, usize)) -> bool {
    |a: (Seq<u8>, usize), b: (Seq<u8>, usize)| key_le(a, b)
}

pub open spec fn key_views(v: Seq<Key>) -> Seq<(Seq<u8>, usize)> {
    v.map_values(|x: Key| (x.0@, x.1))
}

pub proof fn lemma_key_order_total()
    ensures
        total_ordering(key_order()),
{
    assert forall|a: (Seq<u8>, usize)| #[trigger] key_order()(a, a) by {
        lemma_lex_irreflexive(a.0);
    }
    assert forall|a: (Seq<u8>, usize), b: (Seq<u8>, usize)| #[trigger] key_order()(a, b) && #[trigger] key_order()(b, a) implies a == b by {
        lemma_lex_asymmetric(a.0, b.0);
        lemma_lex_irreflexive(a.0);
    }
    assert forall|a: (Seq<u8>, usize), b: (Seq<u8>, usize), c: (Seq<u8>, usize)| #[trigger] key_order()(a, b) && #[trigger] key_order()(b, c) implies key_order()(a, c) by {
        if lex_lt(a.0, b.0) && lex_lt(b.0, c.0) {
            lemma_lex_transitive(a.0, b.0, c.0);
        }
    }
    assert forall|a: (Seq<u8>, usize), b: (Seq<u8>, usize)| #[trigger] key_order()(a, b) || #[trigger] key_order()(b, a) by {
        lemma_lex_total(a.0, b.0);
    }
}

/// Relies on rayon's `ParallelSliceMut::par_sort`: sorts ascending by `Ord`,
/// which for a pair compares the first components, byte vectors
/// lexicographically, and then the second; the items are only reordered.
#[verifier::external_body]
fn par_sort_keys(keys: &mut Vec<Key>)
    ensures
        key_views(final(keys)@).to_multiset() == key_views(old(keys)@).to_multiset(),
        sorted_by(key_views(final(keys)@), key_order()),
{
    keys.par_sort();
}

/// Sorts keys by canonical bytes, then by position.
pub fn sort_keys(keys: &mut Vec<Key>)
    ensures
        key_views(final(keys)@) == key_views(old(keys)@).sort_by(key_order()),
{
    let ghost before = key_views(keys@);
    par_sort_keys(keys);
    proof {
        lemma_key_order_total();
        before.lemma_sort_by_ensures(key_order());
        lemma_sorted_unique(key_views(keys@), before.sort_by(key_order()), key_order());
    }
}

} // verus!
