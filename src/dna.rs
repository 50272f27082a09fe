//! The nucleotide alphabet, reverse complements, and the choice between a
//! sequence and its reverse complement.
use vstd::prelude::*;
use crate::order::{lex_less, lex_lt, lemma_lex_asymmetric, lemma_lex_irreflexive, lemma_lex_total};

verus! {

pub const BASE_A: u8 = 65;

pub const BASE_C: u8 = 67;

pub const BASE_G: u8 = 71;

pub const BASE_T: u8 = 84;

pub open spec fn is_base(b: u8) -> bool {
    b == BASE_A || b == BASE_C || b == BASE_G || b == BASE_T
}

pub open spec fn all_bases(s: Seq<u8>) -> bool {
    forall|i: int| 0 <= i < s.len() ==> is_base(#[trigger] s[i])
}

/// A <-> T, C <-> G.
pub open spec fn complement(b: u8) -> u8 {
    if b == BASE_A {
        BASE_T
    } else if b == BASE_C {
        BASE_G
    } else if b == BASE_G {
        BASE_C
    } else {
        BASE_A
    }
}

pub open spec fn revcomp(s: Seq<u8>) -> Seq<u8> {
    Seq::new(s.len(), |i: int| complement(s[s.len() - 1 - i]))
}

/// The smaller of a sequence and its reverse complement; the sequence itself
/// when the two are equal.
pub open spec fn orient(s: Seq<u8>) -> Seq<u8> {
    if orient_flips(s) {
        revcomp(s)
    } else {
        s
    }
}

/// Whether `orient` takes the reverse complement.
pub open spec fn orient_flips(s: Seq<u8>) -> bool {
    lex_lt(revcomp(s), s)
}

pub proof fn lemma_revcomp_bases(s: Seq<u8>)
    requires
        all_bases(s),
    ensures
        all_bases(revcomp(s)),
        revcomp(s).len() == s.len(),
{
}

pub proof fn lemma_revcomp_involutive(s: Seq<u8>)
    requires
        all_bases(s),
    ensures
        revcomp(revcomp(s)) == s,
{
    assert(revcomp(revcomp(s)) =~= s);
}

/// Orienting a sequence or its reverse complement gives the same bytes.
pub proof fn lemma_orient_revcomp(s: Seq<u8>)
    requires
        all_bases(s),
    ensures
        orient(revcomp(s)) == orient(s),
{
    lemma_revcomp_involutive(s);
    lemma_lex_asymmetric(s, revcomp(s));
    lemma_lex_total(s, revcomp(s));
}

/// An oriented sequence is not larger than its own reverse complement, so
/// orienting it again changes nothing.
pub proof fn lemma_orient_idempotent(s: Seq<u8>)
    requires
        all_bases(s),
    ensures
        orient(orient(s)) == orient(s),
        !orient_flips(orient(s)),
{
    lemma_revcomp_involutive(s);
    lemma_lex_asymmetric(s, revcomp(s));
    lemma_lex_irreflexive(s);
}

/// Whether a byte belongs to the nucleotide alphabet.
pub fn is_nucleotide(b: u8) -> (r: bool)
    ensures
        r == is_base(b),
{
    b == BASE_A || b == BASE_C || b == BASE_G || b == BASE_T
}

/// The position of the first byte outside the alphabet, if any.
pub fn first_invalid_base(s: &Vec<u8>) -> (r: Option<usize>)
    ensures
        r is None <==> all_bases(s@),
        r matches Some(i) ==> i < s@.len() && !is_base(s@[i as int]) && all_bases(
            s@.take(i as int),
        ),
{
    let mut i: usize = 0;
    while i < s.len()
        invariant
            i <= s.len(),
            all_bases(s@.take(i as int)),
        decreases s.len() - i,
    {
        if !is_nucleotide(s[i]) {
            return Some(i);
        }
        proof {
            assert(s@.take(i + 1) =~= s@.take(i as int).push(s@[i as int]));
        }
        i += 1;
    }
    proof {
        assert(s@.take(i as int) =~= s@);
    }
    None
}

pub(crate) fn complement_base(b: u8) -> (r: u8)
    requires
        is_base(b),
    ensures
        r == complement(b),
{
    match b {
        BASE_A => BASE_T,
        BASE_C => BASE_G,
        BASE_G => BASE_C,
        _ => BASE_A,
    }
}

/// The reverse complement of a sequence over the alphabet.
pub fn reverse_complement(s: &Vec<u8>) -> (r: Vec<u8>)
    requires
        all_bases(s@),
    ensures
        r@ == revcomp(s@),
{
    let n = s.len();
    let mut r: Vec<u8> = Vec::with_capacity(n);
    let mut i: usize = 0;
    while i < n
        invariant
            n == s.len(),
            i <= n,
            all_bases(s@),
            r@ =~= revcomp(s@).take(i as int),
        decreases n - i,
    {
        let c = complement_base(s[n - 1 - i]);
        r.push(c);
        i += 1;
    }
    r
}

/// The smaller of `s` and its reverse complement, and whether the reverse
/// complement was taken.
pub fn orient_canonical(s: Vec<u8>) -> (r: (Vec<u8>, bool))
    requires
        all_bases(s@),
    ensures
        r.0@ == orient(s@),
        r.1 == orient_flips(s@),
{
    let rc = reverse_complement(&s);
    if lex_less(&rc, &s) {
        (rc, true)
    } else {
        (s, false)
    }
}

} // verus!
