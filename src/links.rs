//! Renumbering links after the global reorder, and their order in a header.
use vstd::prelude::*;
use vstd::relations::{sorted_by, total_ordering};
use vstd::seq_lib::lemma_sorted_unique;
use crate::header::{link_view, link_views, Link};

verus! {

broadcast use vstd::seq_lib::group_to_multiset_ensures;

pub open spec fn bool_lt(a: bool, b: bool) -> bool {
    !a && b
}

/// Order of links in a written header: by the first sign, then the target,
/// then the second sign, `+` before `-`.
pub open spec fn link_le(a: (bool, nat, bool), b: (bool, nat, bool)) -> bool {
    ||| bool_lt(a.0, b.0)
    ||| a.0 == b.0 && a.1 < b.1
    ||| a.0 == b.0 && a.1 == b.1 && (a.2 == b.2 || bool_lt(a.2, b.2))
}

pub open spec fn link_order() -> spec_fn((bool, nat, bool), (bool, nat, bool)) -> bool {
    |a: (bool, nat, bool), b: (bool, nat, bool)| link_le(a, b)
}

pub proof fn lemma_link_order_total()
    ensures
        total_ordering(link_order()),
{
}

fn link_le_exec(a: &Link, b: &Link) -> (r: bool)
    ensures
        r == link_le(link_view(*a), link_view(*b)),
{
    if a.flip_here != b.flip_here {
        return b.flip_here;
    }
    if a.target != b.target {
        return a.target < b.target;
    }
    a.flip_there == b.flip_there || b.flip_there
}

/// The links in header order.
pub fn sort_links(ls: &Vec<Link>) -> (r: Vec<Link>)
    ensures
        link_views(r@) == link_views(ls@).sort_by(link_order()),
{
    broadcast use vstd::multiset::group_multiset_axioms;

    let mut out: Vec<Link> = Vec::new();
    let mut i: usize = 0;
    proof {
        lemma_link_order_total();
        assert(link_views(ls@).take(0) =~= Seq::<(bool, nat, bool)>::empty());
        assert(link_views(out@) =~= Seq::<(bool, nat, bool)>::empty());
    }
    while i < ls.len()
        invariant
            i <= ls.len(),
            total_ordering(link_order()),
            sorted_by(link_views(out@), link_order()),
            link_views(out@).to_multiset() == link_views(ls@).take(i as int).to_multiset(),
        decreases ls.len() - i,
    {
        let x = ls[i];
        let mut pos: usize = 0;
        while pos < out.len() && link_le_exec(&out[pos], &x)
            invariant
                pos <= out.len(),
                forall|j: int| 0 <= j < pos ==> link_le(#[trigger] link_views(out@)[j], link_view(x)),
            decreases out.len() - pos,
        {
            pos += 1;
        }
        let ghost before = link_views(out@);
        out.insert(pos, x);
        proof {
            let after = link_views(out@);
            assert(after =~= before.insert(pos as int, link_view(x)));
            assert(after.remove(pos as int) =~= before);
            assert(link_views(ls@).take(i + 1) =~= link_views(ls@).take(i as int).push(link_view(x)));
            assert(after.to_multiset() =~= before.to_multiset().insert(link_view(x)));
            assert forall|a: int, b: int| 0 <= a < b < after.len() implies #[trigger] link_order()(after[a], after[b]) by {
                if pos < before.len() {
                    assert(!link_le(before[pos as int], link_view(x)));
                }
                if a < pos && b == pos {
                } else if a == pos && b > pos {
                    if pos < b - 1 {
                        assert(link_order()(before[pos as int], before[b - 1]));
                    }
                } else if a < pos && b > pos {
                    assert(link_order()(before[a], before[b - 1]));
                } else if a > pos {
                    assert(link_order()(before[a - 1], before[b - 1]));
                } else {
                    assert(link_order()(before[a], before[b]));
                }
            }
        }
        i += 1;
    }
    proof {
        assert(link_views(ls@).take(ls.len() as int) =~= link_views(ls@));
        link_views(ls@).lemma_sort_by_ensures(link_order());
        lemma_sorted_unique(link_views(out@), link_views(ls@).sort_by(link_order()), link_order());
    }
    out
}

} // verus!
