//! Properties of canonical forms that relate several records.
use vstd::prelude::*;
use vstd::arithmetic::div_mod::{lemma_mod_add_multiples_vanish, lemma_mod_bound, lemma_small_mod, lemma_sub_mod_noop_right, lemma_add_mod_noop, lemma_add_mod_noop_right, lemma_mod_twice};
use vstd::relations::total_ordering;
use vstd::seq_lib::lemma_sorted_unique;
use crate::order::{lex_le, lex_lt, lemma_lex_asymmetric, lemma_lex_total, lemma_lex_transitive};
use crate::sort::{key_order, lemma_key_order_total};
use crate::split::NEWLINE;
use crate::pipeline::{canonical_keys, output_order, output_text, record_pairs, record_text};
use crate::dna::{all_bases, is_base, lemma_orient_idempotent, lemma_orient_revcomp, lemma_revcomp_involutive, orient, orient_flips, revcomp};
use crate::canon::{candidate, candidate_flips, canonical_flipped, canonical_form, circular_flag, cycle_len, ends_match, is_first_least, is_least_candidate, is_own_revcomp, lemma_canonical_is_least, lemma_first_least_unique, rotation};

verus! {

/// A record whose ends do not match has the same canonical bytes as its
/// reverse complement.
pub proof fn lemma_orientation_invariance(s: Seq<u8>, k: int)
    requires
        1 <= k <= s.len(),
        all_bases(s),
        !ends_match(s, k),
    ensures
        canonical_form(revcomp(s), k) == canonical_form(s, k),
{
    let n = s.len() as int;
    let r = revcomp(s);
    let head = s.subrange(0, k - 1);
    let tail = s.subrange(n - (k - 1), n);
    assert(r.subrange(0, k - 1) =~= revcomp(tail));
    assert(r.subrange(n - (k - 1), n) =~= revcomp(head));
    if ends_match(r, k) {
        lemma_revcomp_involutive(head);
        lemma_revcomp_involutive(tail);
    }
    lemma_orient_revcomp(s);
}

/// Index of a least candidate among the first `t + 1`.
spec fn least_index(s: Seq<u8>, k: int, t: int) -> int
    decreases t,
{
    if t <= 0 {
        0
    } else {
        let b = least_index(s, k, t - 1);
        if lex_lt(candidate(s, k, t), candidate(s, k, b)) {
            t
        } else {
            b
        }
    }
}

proof fn lemma_least_index(s: Seq<u8>, k: int, t: int)
    requires
        t >= 0,
    ensures
        0 <= least_index(s, k, t) <= t,
        forall|u: int| 0 <= u <= t ==> !lex_lt(#[trigger] candidate(s, k, u), candidate(s, k, least_index(s, k, t))),
    decreases t,
{
    if t == 0 {
        crate::order::lemma_lex_irreflexive(candidate(s, k, 0));
    } else {
        lemma_least_index(s, k, t - 1);
        let b = least_index(s, k, t - 1);
        if lex_lt(candidate(s, k, t), candidate(s, k, b)) {
            assert forall|u: int| 0 <= u <= t implies !lex_lt(#[trigger] candidate(s, k, u), candidate(s, k, t)) by {
                if u == t {
                    crate::order::lemma_lex_irreflexive(candidate(s, k, t));
                } else if lex_lt(candidate(s, k, u), candidate(s, k, t)) {
                    lemma_lex_transitive(candidate(s, k, u), candidate(s, k, t), candidate(s, k, b));
                }
            }
        }
    }
}

/// Every record with matching ends has a least candidate.
pub proof fn lemma_least_exists(s: Seq<u8>, k: int)
    ensures
        exists|r: Seq<u8>| is_least_candidate(s, k, r),
{
    lemma_least_index(s, k, s.len() as int);
    let b = least_index(s, k, s.len() as int);
    assert(is_least_candidate(s, k, candidate(s, k, b)));
}

/// A record with matching ends repeats its cycle throughout.
proof fn lemma_periodic(s: Seq<u8>, k: int, i: int)
    requires
        1 <= k <= s.len(),
        ends_match(s, k),
        0 <= i < s.len(),
    ensures
        s[i] == s[i % cycle_len(s, k)],
    decreases i,
{
    let m = cycle_len(s, k);
    if i < m {
        lemma_small_mod(i as nat, m as nat);
    } else {
        assert(s.subrange(0, k - 1)[i - m] == s.subrange(m, s.len() as int)[i - m]);
        lemma_periodic(s, k, i - m);
        lemma_mod_add_multiples_vanish(i - m, m);
    }
}

proof fn lemma_rotation_zero(s: Seq<u8>, k: int)
    requires
        1 <= k <= s.len(),
        ends_match(s, k),
    ensures
        rotation(s, k, 0) == s,
{
    assert forall|i: int| 0 <= i < s.len() implies #[trigger] rotation(s, k, 0)[i] == s[i] by {
        lemma_periodic(s, k, i);
    }
    assert(rotation(s, k, 0) =~= s);
}

/// On a record with matching ends, the candidates are the oriented rotations.
proof fn lemma_candidate_rotation(s: Seq<u8>, k: int, t: int)
    requires
        1 <= k <= s.len(),
        ends_match(s, k),
        0 <= t <= s.len(),
    ensures
        candidate(s, k, t) == orient(rotation(s, k, t % cycle_len(s, k))),
{
    if t == 0 {
        lemma_rotation_zero(s, k);
        lemma_small_mod(0, cycle_len(s, k) as nat);
    }
}

proof fn lemma_rotation_facts(s: Seq<u8>, k: int, d: int)
    requires
        1 <= k <= s.len(),
        ends_match(s, k),
        all_bases(s),
        0 <= d < cycle_len(s, k),
    ensures
        rotation(s, k, d).len() == s.len(),
        cycle_len(rotation(s, k, d), k) == cycle_len(s, k),
        all_bases(rotation(s, k, d)),
        ends_match(rotation(s, k, d), k),
        forall|j: int| 0 <= j < cycle_len(s, k) ==> #[trigger] rotation(rotation(s, k, d), k, j) == rotation(s, k, (d + j) % cycle_len(s, k)),
{
    let m = cycle_len(s, k);
    let w = rotation(s, k, d);
    assert forall|i: int| 0 <= i < w.len() implies is_base(#[trigger] w[i]) by {
        lemma_mod_bound(i + d, m);
    }
    let n = s.len() as int;
    assert forall|i: int| 0 <= i < k - 1 implies #[trigger] w.subrange(0, k - 1)[i] == w.subrange(n - (k - 1), n)[i] by {
        lemma_mod_add_multiples_vanish(i + d, m);
        assert(m + i + d == m + (i + d));
        assert(w.subrange(n - (k - 1), n)[i] == w[m + i]);
    }
    assert(w.subrange(0, k - 1) =~= w.subrange(n - (k - 1), n));
    assert forall|j: int| 0 <= j < m implies #[trigger] rotation(w, k, j) == rotation(s, k, (d + j) % m) by {
        assert forall|i: int| 0 <= i < n implies #[trigger] rotation(w, k, j)[i] == rotation(s, k, (d + j) % m)[i] by {
            lemma_mod_bound(i + j, m);
            lemma_small_mod(d as nat, m as nat);
            lemma_add_mod_noop(i + j, d, m);
            lemma_add_mod_noop_right(i, d + j, m);
            assert(i + j + d == i + (d + j));
            assert(rotation(w, k, j)[i] == w[(i + j) % m]);
        }
        assert(rotation(w, k, j) =~= rotation(s, k, (d + j) % m));
    }
}

/// Turning the cycle of a record whose ends match does not change its
/// canonical bytes.
pub proof fn lemma_rotation_invariance(s: Seq<u8>, k: int, d: int)
    requires
        1 <= k <= s.len(),
        all_bases(s),
        ends_match(s, k),
        0 <= d < cycle_len(s, k),
    ensures
        canonical_form(rotation(s, k, d), k) == canonical_form(s, k),
        circular_flag(s, k),
        circular_flag(rotation(s, k, d), k),
{
    let m = cycle_len(s, k);
    let n = s.len() as int;
    let w = rotation(s, k, d);
    lemma_rotation_facts(s, k, d);
    lemma_least_exists(s, k);
    let r = canonical_form(s, k);
    assert(is_least_candidate(s, k, r));
    let t0 = choose|t: int| 0 <= t <= s.len() && candidate(s, k, t) == r;
    lemma_candidate_rotation(s, k, t0);
    let u = t0 % m;
    lemma_mod_bound(t0, m);
    let j = (u - d) % m;
    lemma_mod_bound(u - d, m);
    lemma_small_mod(j as nat, m as nat);
    lemma_candidate_rotation(w, k, j);
    lemma_small_mod(u as nat, m as nat);
    lemma_sub_mod_noop_right(u, u - d, m);
    assert(u - (u - d) == d);
    lemma_add_mod_noop(d, u - d, m);
    lemma_small_mod(d as nat, m as nat);
    lemma_mod_twice(u - d, m);
    assert((d + j) % m == u) by {
        assert(d + (u - d) == u);
    }
    assert(candidate(w, k, j) == r);
    assert forall|t: int| 0 <= t <= n implies !lex_lt(#[trigger] candidate(w, k, t), r) by {
        lemma_candidate_rotation(w, k, t);
        lemma_mod_bound(t, m);
        let v = (d + t % m) % m;
        lemma_mod_bound(d + t % m, m);
        lemma_candidate_rotation(s, k, v);
        lemma_small_mod(v as nat, m as nat);
        assert(candidate(s, k, v) == candidate(w, k, t));
    }
    assert(is_least_candidate(w, k, r));
    lemma_canonical_is_least(w, k, r);
}

proof fn lemma_revcomp_ends(s: Seq<u8>, k: int)
    requires
        1 <= k <= s.len(),
        all_bases(s),
    ensures
        ends_match(revcomp(s), k) == ends_match(s, k),
        revcomp(s).subrange(0, k - 1) == revcomp(s.subrange(s.len() - (k - 1), s.len() as int)),
        revcomp(s).subrange(s.len() - (k - 1), s.len() as int) == revcomp(s.subrange(0, k - 1)),
{
    let n = s.len() as int;
    let r = revcomp(s);
    let head = s.subrange(0, k - 1);
    let tail = s.subrange(n - (k - 1), n);
    assert(r.subrange(0, k - 1) =~= revcomp(tail));
    assert(r.subrange(n - (k - 1), n) =~= revcomp(head));
    lemma_revcomp_involutive(head);
    lemma_revcomp_involutive(tail);
}

/// Rotating the reverse complement is reverse complementing a rotation.
proof fn lemma_rotation_revcomp(w: Seq<u8>, k: int, j: int)
    requires
        1 <= k <= w.len(),
        all_bases(w),
        ends_match(w, k),
        0 <= j < cycle_len(w, k),
    ensures
        rotation(revcomp(w), k, j) == revcomp(rotation(w, k, (cycle_len(w, k) - j) % cycle_len(w, k))),
{
    let m = cycle_len(w, k);
    let n = w.len() as int;
    let r = revcomp(w);
    let jj = (m - j) % m;
    assert forall|i: int| 0 <= i < n implies #[trigger] rotation(r, k, j)[i] == revcomp(rotation(w, k, jj))[i] by {
        lemma_mod_bound(i + j, m);
        let x = n - 1 - (i + j) % m;
        lemma_periodic(w, k, x);
        lemma_sub_mod_noop_right(n - 1, i + j, m);
        lemma_add_mod_noop_right(n - 1 - i, m - j, m);
        lemma_mod_add_multiples_vanish(n - 1 - i - j, m);
        assert(m + (n - 1 - i - j) == n - 1 - i + (m - j));
        assert(n - 1 - (i + j) == n - 1 - i - j);
        lemma_mod_bound(n - 1 - i + jj, m);
        assert(rotation(w, k, jj)[n - 1 - i] == w[(n - 1 - i + jj) % m]);
        assert(rotation(r, k, j)[i] == r[(i + j) % m]);
    }
    assert(rotation(r, k, j) =~= revcomp(rotation(w, k, jj)));
}

/// A record whose ends match has the same canonical bytes as its reverse
/// complement.
proof fn lemma_revcomp_circular(w: Seq<u8>, k: int)
    requires
        1 <= k <= w.len(),
        all_bases(w),
        ends_match(w, k),
    ensures
        ends_match(revcomp(w), k),
        canonical_form(revcomp(w), k) == canonical_form(w, k),
{
    let m = cycle_len(w, k);
    let n = w.len() as int;
    let r = revcomp(w);
    lemma_revcomp_ends(w, k);
    lemma_least_exists(w, k);
    let c = canonical_form(w, k);
    assert(is_least_candidate(w, k, c));
    // every candidate of the reverse complement is a candidate of `w`
    assert forall|t: int| 0 <= t <= n implies !lex_lt(#[trigger] candidate(r, k, t), c) by {
        lemma_candidate_rotation(r, k, t);
        lemma_mod_bound(t, m);
        let j = t % m;
        lemma_rotation_revcomp(w, k, j);
        let jj = (m - j) % m;
        lemma_mod_bound(m - j, m);
        assert forall|i: int| 0 <= i < rotation(w, k, jj).len() implies is_base(#[trigger] rotation(w, k, jj)[i]) by {
            lemma_mod_bound(i + jj, m);
        }
        lemma_orient_revcomp(rotation(w, k, jj));
        lemma_candidate_rotation(w, k, jj);
        lemma_small_mod(jj as nat, m as nat);
        assert(candidate(w, k, jj) == candidate(r, k, t));
        assert(!lex_lt(candidate(w, k, jj), c));
    }
    let t0 = choose|t: int| 0 <= t <= w.len() && candidate(w, k, t) == c;
    lemma_candidate_rotation(w, k, t0);
    lemma_mod_bound(t0, m);
    let u = t0 % m;
    let j = (m - u) % m;
    lemma_mod_bound(m - u, m);
    lemma_small_mod(j as nat, m as nat);
    lemma_rotation_revcomp(w, k, j);
    lemma_sub_mod_noop_right(m, m - u, m);
    lemma_mod_add_multiples_vanish(u, m);
    lemma_small_mod(u as nat, m as nat);
    assert(m - (m - u) == u);
    assert((m - j) % m == u);
    assert forall|i: int| 0 <= i < rotation(w, k, u).len() implies is_base(#[trigger] rotation(w, k, u)[i]) by {
        lemma_mod_bound(i + u, m);
    }
    lemma_orient_revcomp(rotation(w, k, u));
    lemma_candidate_rotation(r, k, j);
    assert(candidate(r, k, j) == c);
    assert(is_least_candidate(r, k, c));
    lemma_canonical_is_least(r, k, c);
}

/// Canonicalizing canonical bytes again gives the same bytes, not flipped,
/// with the same circular mark.
pub proof fn lemma_canonical_idempotent(s: Seq<u8>, k: int)
    requires
        1 <= k <= s.len(),
        all_bases(s),
    ensures
        canonical_form(canonical_form(s, k), k) == canonical_form(s, k),
        !canonical_flipped(canonical_form(s, k), k),
        circular_flag(canonical_form(s, k), k) == circular_flag(s, k),
{
    let c = canonical_form(s, k);
    let n = s.len() as int;
    if !ends_match(s, k) {
        lemma_revcomp_ends(s, k);
        lemma_orient_idempotent(s);
        let head = s.subrange(0, k - 1);
        let tail = s.subrange(n - (k - 1), n);
        lemma_revcomp_involutive(head);
        lemma_revcomp_involutive(tail);
        if orient_flips(s) {
            assert(is_own_revcomp(revcomp(tail)) == is_own_revcomp(tail));
            assert(is_own_revcomp(revcomp(head)) == is_own_revcomp(head));
        }
    } else {
        let m = cycle_len(s, k);
        lemma_least_exists(s, k);
        assert(is_least_candidate(s, k, c));
        let t0 = choose|t: int| 0 <= t <= s.len() && candidate(s, k, t) == c;
        lemma_candidate_rotation(s, k, t0);
        lemma_mod_bound(t0, m);
        let u = t0 % m;
        let w = rotation(s, k, u);
        lemma_rotation_facts(s, k, u);
        lemma_rotation_invariance(s, k, u);
        lemma_orient_idempotent(w);
        if orient_flips(w) {
            lemma_revcomp_circular(w, k);
        }
        assert(ends_match(c, k));
        assert(canonical_form(c, k) == c);
        // the first least candidate of `c` is `c` itself
        assert(candidate(c, k, 0) == c);
        assert(is_first_least(c, k, 0));
        let f = choose|t: int| is_first_least(c, k, t);
        lemma_first_least_unique(c, k, f, 0);
        assert(candidate_flips(c, k, 0) == orient_flips(c));
    }
}

pub open spec fn lex_order() -> spec_fn(Seq<u8>, Seq<u8>) -> bool {
    |a: Seq<u8>, b: Seq<u8>| lex_le(a, b)
}

proof fn lemma_lex_order_total()
    ensures
        total_ordering(lex_order()),
{
    assert forall|a: Seq<u8>, b: Seq<u8>| #[trigger] lex_order()(a, b) && #[trigger] lex_order()(b, a) implies a == b by {
        lemma_lex_asymmetric(a, b);
    }
    assert forall|a: Seq<u8>, b: Seq<u8>, c: Seq<u8>| #[trigger] lex_order()(a, b) && #[trigger] lex_order()(b, c) implies lex_order()(a, c) by {
        if lex_lt(a, b) && lex_lt(b, c) {
            lemma_lex_transitive(a, b, c);
        }
    }
    assert forall|a: Seq<u8>, b: Seq<u8>| #[trigger] lex_order()(a, b) || #[trigger] lex_order()(b, a) by {
        lemma_lex_total(a, b);
    }
}

/// Mapping both sides keeps two sequences with equal multisets equal as
/// multisets.
proof fn lemma_map_multiset<A, B>(a: Seq<A>, b: Seq<A>, f: spec_fn(A) -> B)
    requires
        a.to_multiset() == b.to_multiset(),
    ensures
        a.map_values(f).to_multiset() == b.map_values(f).to_multiset(),
    decreases a.len(),
{
    broadcast use vstd::seq_lib::group_to_multiset_ensures;
    broadcast use vstd::multiset::group_multiset_axioms;

    if a.len() == 0 {
        assert(a.to_multiset().len() == a.len());
        assert(b.to_multiset().len() == b.len());
        assert(b.len() == 0);
        assert(a.map_values(f) =~= b.map_values(f));
    } else {
        let x = a.last();
        assert(a.to_multiset().count(x) > 0) by {
            assert(a.contains(x));
        }
        assert(b.contains(x));
        let j = choose|j: int| 0 <= j < b.len() && b[j] == x;
        assert(a.remove(a.len() - 1) =~= a.drop_last());
        assert(a.drop_last().to_multiset() =~= a.to_multiset().remove(x));
        assert(b.remove(j).to_multiset() =~= b.to_multiset().remove(x));
        lemma_map_multiset(a.drop_last(), b.remove(j), f);
        assert(a.map_values(f) =~= a.drop_last().map_values(f).push(f(x)));
        let bm = b.map_values(f);
        assert(bm.remove(j) =~= b.remove(j).map_values(f));
        assert(bm.remove(j).to_multiset() =~= bm.to_multiset().remove(f(x)));
        assert(bm.contains(f(x))) by {
            assert(bm[j] == f(x));
        }
        assert(bm.to_multiset().count(f(x)) > 0);
        assert(bm.to_multiset() =~= bm.remove(j).to_multiset().insert(f(x)));
    }
}

/// Canonical bytes in output order.
spec fn sorted_forms(pairs: Seq<(Seq<u8>, Seq<u8>)>, k: int) -> Seq<Seq<u8>> {
    canonical_keys(pairs, k).sort_by(key_order()).map_values(|x: (Seq<u8>, usize)| x.0)
}

/// The lines `ls`, each followed by a newline.
spec fn joined_lines(ls: Seq<Seq<u8>>) -> Seq<u8>
    decreases ls.len(),
{
    if ls.len() == 0 {
        seq![]
    } else {
        joined_lines(ls.drop_last()) + ls.last() + seq![NEWLINE]
    }
}

proof fn lemma_plain_output(pairs: Seq<(Seq<u8>, Seq<u8>)>, k: int, p: int)
    requires
        pairs.len() <= usize::MAX,
        0 <= p <= pairs.len(),
    ensures
        output_text(pairs, k, false, p) == joined_lines(sorted_forms(pairs, k).take(p)),
    decreases p,
{
    crate::pipeline::lemma_output_order_facts(pairs, k);
    if p == 0 {
        assert(sorted_forms(pairs, k).take(0) =~= Seq::<Seq<u8>>::empty());
    } else {
        lemma_plain_output(pairs, k, p - 1);
        assert(sorted_forms(pairs, k).take(p).drop_last() =~= sorted_forms(pairs, k).take(p - 1));
        let x = canonical_keys(pairs, k).sort_by(key_order())[p - 1];
        assert(output_order(pairs, k)[p - 1] == x.1);
        assert(record_text(pairs, k, false, p - 1) =~= x.0 + seq![NEWLINE]);
    }
}

/// In plain mode the written file depends only on the sequences of the
/// records, counted with multiplicity, not on their order.
pub proof fn lemma_order_independence(b1: Seq<u8>, b2: Seq<u8>, k: int)
    requires
        record_pairs(b1).len() <= usize::MAX,
        record_pairs(b2).len() <= usize::MAX,
        record_pairs(b1).map_values(|r: (Seq<u8>, Seq<u8>)| r.1).to_multiset() == record_pairs(
            b2,
        ).map_values(|r: (Seq<u8>, Seq<u8>)| r.1).to_multiset(),
    ensures
        output_text(record_pairs(b1), k, false, record_pairs(b1).len() as int) == output_text(
            record_pairs(b2),
            k,
            false,
            record_pairs(b2).len() as int,
        ),
{
    broadcast use vstd::seq_lib::group_to_multiset_ensures;

    let pairs_a = record_pairs(b1);
    let pairs_b = record_pairs(b2);
    let proj = |x: (Seq<u8>, usize)| x.0;
    let form = |s: Seq<u8>| canonical_form(s, k);
    let seqs = |r: (Seq<u8>, Seq<u8>)| r.1;
    lemma_key_order_total();
    lemma_lex_order_total();
    lemma_map_multiset(pairs_a.map_values(seqs), pairs_b.map_values(seqs), form);
    assert(canonical_keys(pairs_a, k).map_values(proj) =~= pairs_a.map_values(seqs).map_values(form));
    assert(canonical_keys(pairs_b, k).map_values(proj) =~= pairs_b.map_values(seqs).map_values(form));
    canonical_keys(pairs_a, k).lemma_sort_by_ensures(key_order());
    canonical_keys(pairs_b, k).lemma_sort_by_ensures(key_order());
    lemma_map_multiset(canonical_keys(pairs_a, k).sort_by(key_order()), canonical_keys(pairs_a, k), proj);
    lemma_map_multiset(canonical_keys(pairs_b, k).sort_by(key_order()), canonical_keys(pairs_b, k), proj);
    assert(sorted_forms(pairs_a, k) =~= canonical_keys(pairs_a, k).sort_by(key_order()).map_values(proj));
    assert(sorted_forms(pairs_b, k) =~= canonical_keys(pairs_b, k).sort_by(key_order()).map_values(proj));
    assert forall|i: int, j: int| 0 <= i < j < sorted_forms(pairs_a, k).len() implies #[trigger] lex_order()(sorted_forms(pairs_a, k)[i], sorted_forms(pairs_a, k)[j]) by {
        assert(key_order()(canonical_keys(pairs_a, k).sort_by(key_order())[i], canonical_keys(pairs_a, k).sort_by(key_order())[j]));
    }
    assert forall|i: int, j: int| 0 <= i < j < sorted_forms(pairs_b, k).len() implies #[trigger] lex_order()(sorted_forms(pairs_b, k)[i], sorted_forms(pairs_b, k)[j]) by {
        assert(key_order()(canonical_keys(pairs_b, k).sort_by(key_order())[i], canonical_keys(pairs_b, k).sort_by(key_order())[j]));
    }
    lemma_sorted_unique(sorted_forms(pairs_a, k), sorted_forms(pairs_b, k), lex_order());
    crate::pipeline::lemma_output_order_facts(pairs_a, k);
    crate::pipeline::lemma_output_order_facts(pairs_b, k);
    lemma_plain_output(pairs_a, k, pairs_a.len() as int);
    lemma_plain_output(pairs_b, k, pairs_b.len() as int);
    assert(sorted_forms(pairs_a, k).take(pairs_a.len() as int) =~= sorted_forms(pairs_a, k));
    assert(sorted_forms(pairs_b, k).take(pairs_b.len() as int) =~= sorted_forms(pairs_b, k));
}


/// The reverse complement of any rotation of a record whose ends match has
/// the record's canonical bytes, and is marked circular too.
pub proof fn lemma_reversed_rotation_invariance(s: Seq<u8>, k: int, d: int)
    requires
        1 <= k <= s.len(),
        all_bases(s),
        ends_match(s, k),
        0 <= d < cycle_len(s, k),
    ensures
        canonical_form(revcomp(rotation(s, k, d)), k) == canonical_form(s, k),
        circular_flag(revcomp(rotation(s, k, d)), k),
{
    lemma_rotation_facts(s, k, d);
    lemma_rotation_invariance(s, k, d);
    lemma_revcomp_circular(rotation(s, k, d), k);
}


proof fn lemma_same_plain_output(a: Seq<(Seq<u8>, Seq<u8>)>, b: Seq<(Seq<u8>, Seq<u8>)>, k: int, p: int)
    requires
        forall|r: int| 0 <= r < p ==> #[trigger] record_text(a, k, false, r) == record_text(b, k, false, r),
    ensures
        output_text(a, k, false, p) == output_text(b, k, false, p),
    decreases p,
{
    if p > 0 {
        lemma_same_plain_output(a, b, k, p - 1);
    }
}

/// In plain mode, writing some records in the other orientation does not
/// change the written file, as long as their ends do not match.
pub proof fn lemma_orientation_invariance_file(b1: Seq<u8>, b2: Seq<u8>, k: int)
    requires
        1 <= k,
        record_pairs(b1).len() <= usize::MAX,
        record_pairs(b1).len() == record_pairs(b2).len(),
        forall|i: int| 0 <= i < record_pairs(b1).len() ==> {
            let s1 = #[trigger] record_pairs(b1)[i].1;
            let s2 = record_pairs(b2)[i].1;
            s1 == s2 || (k <= s1.len() && all_bases(s1) && !ends_match(s1, k) && s2 == revcomp(s1))
        },
    ensures
        output_text(record_pairs(b1), k, false, record_pairs(b1).len() as int) == output_text(
            record_pairs(b2),
            k,
            false,
            record_pairs(b2).len() as int,
        ),
{
    let pa = record_pairs(b1);
    let pb = record_pairs(b2);
    assert forall|i: int| 0 <= i < pa.len() implies #[trigger] canonical_form(pa[i].1, k) == canonical_form(pb[i].1, k) by {
        if pa[i].1 != pb[i].1 {
            lemma_orientation_invariance(pa[i].1, k);
        }
    }
    assert(canonical_keys(pa, k) =~= canonical_keys(pb, k));
    assert(output_order(pa, k) == output_order(pb, k));
    assert forall|p: int| 0 <= p < pa.len() implies #[trigger] record_text(pa, k, false, p) == record_text(pb, k, false, p) by {
        crate::pipeline::lemma_output_order_facts(pa, k);
        assert(canonical_keys(pa, k).sort_by(key_order())[p].1 < pa.len());
        let i = output_order(pa, k)[p] as int;
        assert(canonical_form(pa[i].1, k) == canonical_form(pb[i].1, k));
    }
    lemma_same_plain_output(pa, pb, k, pa.len() as int);
}

} // verus!
