//! The canonical form of one record: the smaller orientation, and for a
//! cyclic record the least orientation over every rotation of its cycle.
use vstd::prelude::*;
use vstd::arithmetic::div_mod::{lemma_fundamental_div_mod_converse, lemma_mod_bound, lemma_add_mod_noop, lemma_small_mod};
use crate::order::{lex_less, lex_lt, lemma_lex_irreflexive, lemma_lex_total, lemma_lex_transitive};
use crate::dna::{all_bases, complement_base, is_base, orient, orient_canonical, orient_flips, revcomp};

verus! {

/// The first `k - 1` bytes equal the last `k - 1` bytes: the record spells a
/// cycle of length `len - (k - 1)` and repeats its start at its end.
pub open spec fn ends_match(s: Seq<u8>, k: int) -> bool {
    s.subrange(0, k - 1) == s.subrange(s.len() - (k - 1), s.len() as int)
}

/// Length of the cycle that a record with matching ends spells.
pub open spec fn cycle_len(s: Seq<u8>, k: int) -> int {
    s.len() - (k - 1)
}

/// The cycle turned left by `j` (it starts at its byte `j`), written out at
/// the record's length.
pub open spec fn rotation(s: Seq<u8>, k: int, j: int) -> Seq<u8> {
    Seq::new(s.len(), |i: int| s[(i + j) % cycle_len(s, k)])
}

/// The candidates of the rotation search, in the order in which they are
/// tried: the record itself, then the left turns by 1, 2, ... of its cycle,
/// one per byte of the record.
pub open spec fn candidate(s: Seq<u8>, k: int, t: int) -> Seq<u8> {
    if t == 0 {
        orient(s)
    } else {
        orient(rotation(s, k, t % cycle_len(s, k)))
    }
}

pub open spec fn candidate_flips(s: Seq<u8>, k: int, t: int) -> bool {
    if t == 0 {
        orient_flips(s)
    } else {
        orient_flips(rotation(s, k, t % cycle_len(s, k)))
    }
}

/// `r` is a candidate and no candidate is smaller.
pub open spec fn is_least_candidate(s: Seq<u8>, k: int, r: Seq<u8>) -> bool {
    &&& exists|t: int| 0 <= t <= s.len() && candidate(s, k, t) == r
    &&& forall|t: int| 0 <= t <= s.len() ==> !lex_lt(#[trigger] candidate(s, k, t), r)
}

/// The canonical bytes of a record.
pub open spec fn canonical_form(s: Seq<u8>, k: int) -> Seq<u8> {
    if ends_match(s, k) {
        choose|r: Seq<u8>| is_least_candidate(s, k, r)
    } else {
        orient(s)
    }
}

pub open spec fn is_first_least(s: Seq<u8>, k: int, t: int) -> bool {
    &&& 0 <= t <= s.len()
    &&& candidate(s, k, t) == canonical_form(s, k)
    &&& forall|u: int| 0 <= u < t ==> #[trigger] candidate(s, k, u) != canonical_form(s, k)
}

/// Whether the canonical bytes are a reverse complement: for a cyclic record,
/// that of the first candidate that reaches the least bytes.
pub open spec fn canonical_flipped(s: Seq<u8>, k: int) -> bool {
    if ends_match(s, k) {
        candidate_flips(s, k, choose|t: int| is_first_least(s, k, t))
    } else {
        orient_flips(s)
    }
}

pub open spec fn is_own_revcomp(w: Seq<u8>) -> bool {
    w == revcomp(w)
}

/// The record is marked circular: its ends match, or its first or last
/// `k - 1` bytes are their own reverse complement.
pub open spec fn circular_flag(s: Seq<u8>, k: int) -> bool {
    ||| ends_match(s, k)
    ||| is_own_revcomp(s.subrange(0, k - 1))
    ||| is_own_revcomp(s.subrange(s.len() - (k - 1), s.len() as int))
}

/// Number of k-mers in a record of length `n`.
pub open spec fn kmers_of(n: int, k: int) -> int {
    n - k + 1
}

/// A record has at most one least candidate.
pub proof fn lemma_least_candidate_unique(s: Seq<u8>, k: int, r1: Seq<u8>, r2: Seq<u8>)
    requires
        is_least_candidate(s, k, r1),
        is_least_candidate(s, k, r2),
    ensures
        r1 == r2,
{
    let t1 = choose|t: int| 0 <= t <= s.len() && candidate(s, k, t) == r1;
    let t2 = choose|t: int| 0 <= t <= s.len() && candidate(s, k, t) == r2;
    assert(!lex_lt(candidate(s, k, t1), r2));
    assert(!lex_lt(candidate(s, k, t2), r1));
    lemma_lex_total(r1, r2);
}

/// Once some least candidate is known, the canonical form is that candidate.
pub proof fn lemma_canonical_is_least(s: Seq<u8>, k: int, r: Seq<u8>)
    requires
        ends_match(s, k),
        is_least_candidate(s, k, r),
    ensures
        canonical_form(s, k) == r,
{
    let c = choose|r0: Seq<u8>| is_least_candidate(s, k, r0);
    lemma_least_candidate_unique(s, k, c, r);
}

pub proof fn lemma_first_least_unique(s: Seq<u8>, k: int, t1: int, t2: int)
    requires
        is_first_least(s, k, t1),
        is_first_least(s, k, t2),
    ensures
        t1 == t2,
{
    if t1 < t2 {
        assert(candidate(s, k, t1) != canonical_form(s, k));
    } else if t2 < t1 {
        assert(candidate(s, k, t2) != canonical_form(s, k));
    }
}

/// Index into the cycle for position `i` of the rotation by `j`.
fn cycle_index(i: usize, j: usize, m: usize) -> (r: usize)
    requires
        j < m,
    ensures
        r as int == (i as int + j as int) % (m as int),
        r < m,
{
    let p = i % m;
    proof {
        lemma_small_mod(j as nat, m as nat);
        lemma_add_mod_noop(i as int, j as int, m as int);
        lemma_mod_bound(i as int, m as int);
    }
    if p >= m - j {
        proof {
            lemma_fundamental_div_mod_converse(p + j, m as int, 1, p - (m - j));
        }
        p - (m - j)
    } else {
        proof {
            lemma_fundamental_div_mod_converse(p + j, m as int, 0, p + j);
        }
        p + j
    }
}

/// The rotation by `j` of the cycle of length `m` that `s` spells.
fn rotated(s: &Vec<u8>, k: usize, j: usize) -> (r: Vec<u8>)
    requires
        1 <= k <= s.len(),
        j < cycle_len(s@, k as int),
    ensures
        r@ == rotation(s@, k as int, j as int),
{
    let n = s.len();
    let m = n - (k - 1);
    let mut r: Vec<u8> = Vec::with_capacity(n);
    let mut i: usize = 0;
    while i < n
        invariant
            n == s.len(),
            m == cycle_len(s@, k as int),
            j < m <= n,
            i <= n,
            r@ =~= rotation(s@, k as int, j as int).take(i as int),
        decreases n - i,
    {
        let idx = cycle_index(i, j, m);
        r.push(s[idx]);
        i += 1;
    }
    r
}

/// Whether the first `k - 1` bytes equal the last `k - 1` bytes.
pub fn ends_overlap(s: &Vec<u8>, k: usize) -> (r: bool)
    requires
        1 <= k <= s.len(),
    ensures
        r == ends_match(s@, k as int),
{
    let w = k - 1;
    let start = s.len() - w;
    let ghost head = s@.subrange(0, w as int);
    let ghost tail = s@.subrange(start as int, s.len() as int);
    let mut i: usize = 0;
    while i < w
        invariant
            w == k - 1,
            start == s.len() - w,
            w <= s.len(),
            i <= w,
            head == s@.subrange(0, w as int),
            tail == s@.subrange(start as int, s.len() as int),
            forall|u: int| 0 <= u < i ==> head[u] == #[trigger] tail[u],
        decreases w - i,
    {
        if s[i] != s[start + i] {
            proof {
                assert(head[i as int] != tail[i as int]);
            }
            return false;
        }
        i += 1;
    }
    proof {
        assert(head =~= tail);
    }
    true
}

/// Whether the `len` bytes at `start` are their own reverse complement.
fn window_is_own_revcomp(s: &Vec<u8>, start: usize, len: usize) -> (r: bool)
    requires
        start + len <= s.len(),
        all_bases(s@),
    ensures
        r == is_own_revcomp(s@.subrange(start as int, start + len)),
{
    let ghost w = s@.subrange(start as int, start + len);
    let mut i: usize = 0;
    while i < len
        invariant
            start + len <= s.len(),
            all_bases(s@),
            w == s@.subrange(start as int, start + len),
            i <= len,
            forall|u: int| 0 <= u < i ==> w[u] == #[trigger] revcomp(w)[u],
        decreases len - i,
    {
        let c = complement_base(s[start + len - 1 - i]);
        if s[start + i] != c {
            proof {
                assert(w[i as int] != revcomp(w)[i as int]);
            }
            return false;
        }
        i += 1;
    }
    proof {
        assert(w =~= revcomp(w));
    }
    true
}

/// Whether a record is marked circular.
pub fn is_circular(s: &Vec<u8>, k: usize) -> (r: bool)
    requires
        1 <= k <= s.len(),
        all_bases(s@),
    ensures
        r == circular_flag(s@, k as int),
{
    let w = k - 1;
    let a = ends_overlap(s, k);
    let b = window_is_own_revcomp(s, 0, w);
    let c = window_is_own_revcomp(s, s.len() - w, w);
    a || b || c
}

/// The canonical bytes of a record and whether they are a reverse
/// complement. For a record whose ends match, every rotation of its cycle is
/// tried in both orientations and the least bytes win; on a tie the candidate
/// found first is kept.
pub fn canonical_sequence(s: &Vec<u8>, k: usize) -> (r: (Vec<u8>, bool))
    requires
        1 <= k <= s.len(),
        all_bases(s@),
    ensures
        r.0@ == canonical_form(s@, k as int),
        r.1 == canonical_flipped(s@, k as int),
{
    if !ends_overlap(s, k) {
        return orient_canonical(s.clone());
    }
    let n = s.len();
    let m = n - (k - 1);
    let ghost kk = k as int;
    let (mut best, mut flip) = orient_canonical(s.clone());
    let ghost mut best_t: int = 0;
    let mut t: usize = 0;
    proof {
        lemma_lex_irreflexive(best@);
    }
    while t < n
        invariant
            n == s.len(),
            m == cycle_len(s@, kk),
            kk == k,
            1 <= m <= n,
            all_bases(s@),
            t <= n,
            0 <= best_t <= t,
            best@ == candidate(s@, kk, best_t),
            flip == candidate_flips(s@, kk, best_t),
            forall|u: int| 0 <= u <= t ==> !lex_lt(#[trigger] candidate(s@, kk, u), best@),
            forall|u: int| 0 <= u < best_t ==> #[trigger] candidate(s@, kk, u) != best@,
        decreases n - t,
    {
        let step = t + 1;
        let rot = rotated(s, k, step % m);
        proof {
            assert forall|i: int| 0 <= i < rot@.len() implies is_base(#[trigger] rot@[i]) by {
                lemma_mod_bound(i + (step % m) as int, m as int);
            }
        }
        let (c, f) = orient_canonical(rot);
        assert(c@ == candidate(s@, kk, step as int));
        if lex_less(&c, &best) {
            proof {
                assert forall|u: int| 0 <= u <= step implies !lex_lt(#[trigger] candidate(s@, kk, u), c@) by {
                    if u == step {
                        lemma_lex_irreflexive(c@);
                    } else if lex_lt(candidate(s@, kk, u), c@) {
                        lemma_lex_transitive(candidate(s@, kk, u), c@, best@);
                    }
                }
                assert forall|u: int| 0 <= u < step implies #[trigger] candidate(s@, kk, u) != c@ by {
                    if candidate(s@, kk, u) == c@ {
                        assert(!lex_lt(candidate(s@, kk, u), best@));
                    }
                }
            }
            best = c;
            flip = f;
            proof {
                best_t = step as int;
            }
        }
        t = step;
    }
    proof {
        assert(is_least_candidate(s@, kk, best@));
        lemma_canonical_is_least(s@, kk, best@);
        assert(is_first_least(s@, kk, best_t));
        let t0 = choose|t: int| is_first_least(s@, kk, t);
        lemma_first_least_unique(s@, kk, t0, best_t);
    }
    (best, flip)
}

} // verus!
