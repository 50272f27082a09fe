//! The whole transformation of a loaded buffer: split, check and canonicalize
//! every record, sort, renumber links, write.
use vstd::prelude::*;
use std::collections::HashMap;
use crate::canon::{canonical_flipped, canonical_form, circular_flag, kmers_of};
use crate::header::{header_index, header_links, link_view, link_views, Link};
use crate::links::{link_order, sort_links};
use crate::record::{canonicalize_record, record_error, record_matches, Record, RecordError};
use crate::sort::{key_order, key_views, sort_keys, Key};
use crate::split::{fields_of, group_fields, is_header, lines_of, pieces, split_fields, split_lines, views, NEWLINE};
use crate::text::{header_text, push_header};

verus! {

broadcast use vstd::std_specs::hash::group_hash_axioms;

/// The records of a buffer as (header, sequence) pairs: consecutive fields,
/// two at a time; a last unpaired field is dropped.
pub open spec fn record_pairs(b: Seq<u8>) -> Seq<(Seq<u8>, Seq<u8>)> {
    let f = split_fields(b);
    Seq::new(f.len() / 2, |i: int| (f[2 * i], f[2 * i + 1]))
}

/// Total k-mers of the records.
pub open spec fn kmer_total(pairs: Seq<(Seq<u8>, Seq<u8>)>, k: int) -> int
    decreases pairs.len(),
{
    if pairs.len() == 0 {
        0
    } else {
        kmer_total(pairs.drop_last(), k) + kmers_of(pairs.last().1.len() as int, k)
    }
}

/// Sort keys of the canonical records, in input order.
pub open spec fn canonical_keys(pairs: Seq<(Seq<u8>, Seq<u8>)>, k: int) -> Seq<(Seq<u8>, usize)> {
    Seq::new(pairs.len(), |i: int| (canonical_form(pairs[i].1, k), i as usize))
}

/// For each output position, the input position of the record written there.
pub open spec fn output_order(pairs: Seq<(Seq<u8>, Seq<u8>)>, k: int) -> Seq<usize> {
    canonical_keys(pairs, k).sort_by(key_order()).map_values(|x: (Seq<u8>, usize)| x.1)
}

/// The header indices of the records in output order.
pub open spec fn indices_in_order(pairs: Seq<(Seq<u8>, Seq<u8>)>, k: int) -> Seq<nat> {
    output_order(pairs, k).map_values(|i: usize| header_index(pairs[i as int].0))
}

/// The last position of `t` in `s`, or -1.
pub open spec fn last_position(s: Seq<nat>, t: nat) -> int
    decreases s.len(),
{
    if s.len() == 0 {
        -1
    } else if s.last() == t {
        s.len() - 1
    } else {
        last_position(s.drop_last(), t)
    }
}

/// The output position of the record with header index `t` (the last one,
/// should several share it).
pub open spec fn new_position(pairs: Seq<(Seq<u8>, Seq<u8>)>, k: int, t: nat) -> int {
    last_position(indices_in_order(pairs, k), t)
}

/// A link of record `i` after the reorder: both signs relative to the
/// canonical orientations, the target renumbered.
pub open spec fn rewritten_link(pairs: Seq<(Seq<u8>, Seq<u8>)>, k: int, i: int, l: (bool, nat, bool)) -> (bool, nat, bool) {
    let q = new_position(pairs, k, l.1);
    let j = output_order(pairs, k)[q] as int;
    (l.0 != canonical_flipped(pairs[i].1, k), q as nat, l.2 != canonical_flipped(pairs[j].1, k))
}

pub open spec fn rewritten_links(pairs: Seq<(Seq<u8>, Seq<u8>)>, k: int, i: int) -> Seq<(bool, nat, bool)> {
    header_links(pairs[i].0).map_values(|l: (bool, nat, bool)| rewritten_link(pairs, k, i, l))
}

/// The text of the record written at output position `p`.
pub open spec fn record_text(pairs: Seq<(Seq<u8>, Seq<u8>)>, k: int, link_mode: bool, p: int) -> Seq<u8> {
    let i = output_order(pairs, k)[p] as int;
    let head = if link_mode {
        header_text(
            p as nat,
            rewritten_links(pairs, k, i).sort_by(link_order()),
            circular_flag(pairs[i].1, k),
        )
    } else {
        seq![]
    };
    head + canonical_form(pairs[i].1, k) + seq![NEWLINE]
}

/// The text of the first `p` output records.
pub open spec fn output_text(pairs: Seq<(Seq<u8>, Seq<u8>)>, k: int, link_mode: bool, p: int) -> Seq<u8>
    decreases p,
{
    if p <= 0 {
        seq![]
    } else {
        output_text(pairs, k, link_mode, p - 1) + record_text(pairs, k, link_mode, p - 1)
    }
}

/// Some record has header index `t`.
pub open spec fn index_known(pairs: Seq<(Seq<u8>, Seq<u8>)>, t: nat) -> bool {
    exists|i: int| 0 <= i < pairs.len() && header_index(pairs[i].0) == t
}

/// Position in record `i`'s links of the first link to an unknown record, or
/// the number of links.
pub open spec fn first_unknown_link(pairs: Seq<(Seq<u8>, Seq<u8>)>, i: int) -> int {
    let ls = header_links(pairs[i].0);
    if forall|j: int| 0 <= j < ls.len() ==> index_known(pairs, #[trigger] ls[j].1) {
        ls.len() as int
    } else {
        choose|j: int| 0 <= j < ls.len() && !index_known(pairs, ls[j].1) && forall|j2: int| 0 <= j2 < j ==> index_known(pairs, #[trigger] ls[j2].1)
    }
}

/// Every link of record `i` names the index of some record.
pub open spec fn links_known(pairs: Seq<(Seq<u8>, Seq<u8>)>, i: int) -> bool {
    forall|j: int| 0 <= j < header_links(pairs[i].0).len() ==> index_known(pairs, #[trigger] header_links(pairs[i].0)[j].1)
}

#[derive(Clone, Copy, Debug, PartialEq, Eq, Structural)]
pub enum CanonError {
    /// The record at this input position cannot be canonicalized.
    Record { record: usize, error: RecordError },
    /// A link of the record at this input position names an index that no
    /// record has.
    UnknownLinkTarget { record: usize, target: usize },
}

/// The written records with their count and their k-mers.
pub struct Canonicalized {
    pub output: Vec<u8>,
    pub record_count: usize,
    pub total_kmers: u64,
}

/// Sum of the lengths of byte strings.
pub open spec fn total_len(ls: Seq<Seq<u8>>) -> int
    decreases ls.len(),
{
    if ls.len() == 0 {
        0
    } else {
        total_len(ls.drop_last()) + ls.last().len()
    }
}

proof fn lemma_total_len_pieces(b: Seq<u8>)
    ensures
        total_len(pieces(b)) + pieces(b).len() == b.len() + 1,
    decreases b.len(),
{
    if b.len() > 0 {
        lemma_total_len_pieces(b.drop_last());
        crate::split::lemma_pieces_nonempty(b.drop_last());
        let p = pieces(b.drop_last());
        if b.last() != NEWLINE {
            let q = p.update(p.len() - 1, p.last().push(b.last()));
            assert(q.drop_last() =~= p.drop_last());
            assert(total_len(q) == total_len(q.drop_last()) + q.last().len());
            assert(total_len(p) == total_len(p.drop_last()) + p.last().len());
            assert(pieces(b) == q);
        } else {
            let q = p.push(Seq::empty());
            assert(q.drop_last() =~= p);
            assert(total_len(q) == total_len(q.drop_last()) + q.last().len());
            assert(pieces(b) == q);
        }
    } else {
        let e = pieces(b);
        assert(e.drop_last() =~= Seq::<Seq<u8>>::empty());
        assert(total_len(e) == total_len(e.drop_last()) + e.last().len());
    }
}

proof fn lemma_total_len_lines(b: Seq<u8>)
    ensures
        total_len(lines_of(b)) <= b.len(),
{
    lemma_total_len_pieces(b);
    crate::split::lemma_pieces_nonempty(b);
}

proof fn lemma_total_len_fields(ls: Seq<Seq<u8>>)
    ensures
        total_len(fields_of(ls)) == total_len(ls),
    decreases ls.len(),
{
    if ls.len() > 0 {
        lemma_total_len_fields(ls.drop_last());
        let f = fields_of(ls.drop_last());
        if ls.len() >= 2 && !is_header(ls.last()) && !is_header(ls[ls.len() - 2]) {
            crate::split::lemma_fields_nonempty(ls.drop_last());
            let g = f.update(f.len() - 1, f.last() + ls.last());
            assert(g.drop_last() =~= f.drop_last());
        } else {
            assert(f.push(ls.last()).drop_last() =~= f);
        }
    }
}

proof fn lemma_total_len_prefix(ls: Seq<Seq<u8>>, j: int)
    requires
        0 <= j <= ls.len(),
    ensures
        total_len(ls.take(j)) <= total_len(ls),
    decreases ls.len(),
{
    if j < ls.len() {
        lemma_total_len_prefix(ls.drop_last(), j);
        assert(ls.drop_last().take(j) =~= ls.take(j));
    } else {
        assert(ls.take(j) =~= ls);
    }
}


/// Every record passes its checks.
pub open spec fn records_ok(pairs: Seq<(Seq<u8>, Seq<u8>)>, k: int, link_mode: bool) -> bool {
    forall|i: int| 0 <= i < pairs.len() ==> (#[trigger] record_error(pairs[i].0, pairs[i].1, k, link_mode)) is None
}

pub open spec fn all_links_known(pairs: Seq<(Seq<u8>, Seq<u8>)>) -> bool {
    forall|i: int| 0 <= i < pairs.len() ==> #[trigger] links_known(pairs, i)
}

/// `last_position` is -1 or a position that holds `t`.
pub proof fn lemma_last_position_facts(s: Seq<nat>, t: nat)
    ensures
        -1 <= last_position(s, t) < s.len(),
        last_position(s, t) >= 0 <==> s.contains(t),
        last_position(s, t) >= 0 ==> s[last_position(s, t)] == t,
    decreases s.len(),
{
    if s.len() > 0 {
        lemma_last_position_facts(s.drop_last(), t);
        if s.last() != t {
            if s.contains(t) {
                let j = choose|j: int| 0 <= j < s.len() && s[j] == t;
                assert(s.drop_last()[j] == t);
            }
            if s.drop_last().contains(t) {
                let j = choose|j: int| 0 <= j < s.drop_last().len() && s.drop_last()[j] == t;
                assert(s[j] == t);
            }
        } else {
            assert(s[s.len() - 1] == t);
        }
    }
}

/// The output order lists every input position once; each written record
/// carries the canonical bytes of the record at that position.
pub proof fn lemma_output_order_facts(pairs: Seq<(Seq<u8>, Seq<u8>)>, k: int)
    requires
        pairs.len() <= usize::MAX,
    ensures
        canonical_keys(pairs, k).sort_by(key_order()).len() == pairs.len(),
        output_order(pairs, k).len() == pairs.len(),
        forall|p: int| 0 <= p < pairs.len() ==> {
            let x = #[trigger] canonical_keys(pairs, k).sort_by(key_order())[p];
            &&& x.1 < pairs.len()
            &&& x.0 == canonical_form(pairs[x.1 as int].1, k)
        },
        forall|i: usize| i < pairs.len() ==> #[trigger] output_order(pairs, k).contains(i),
{
    broadcast use vstd::seq_lib::group_to_multiset_ensures;

    let keys = canonical_keys(pairs, k);
    let sorted = keys.sort_by(key_order());
    crate::sort::lemma_key_order_total();
    keys.lemma_sort_by_ensures(key_order());
    assert(sorted.to_multiset().len() == sorted.len());
    assert(keys.to_multiset().len() == keys.len());
    assert(sorted.len() == keys.len());
    assert forall|p: int| 0 <= p < pairs.len() implies {
        let x = #[trigger] sorted[p];
        &&& x.1 < pairs.len()
        &&& x.0 == canonical_form(pairs[x.1 as int].1, k)
    } by {
        assert(sorted.contains(sorted[p]));
        assert(keys.to_multiset().count(sorted[p]) > 0);
        assert(keys.contains(sorted[p]));
        let i = choose|i: int| 0 <= i < keys.len() && keys[i] == sorted[p];
        assert(keys[i].1 == i as usize);
        assert(sorted[p].1 as int == i);
    }
    assert forall|i: usize| i < pairs.len() implies #[trigger] output_order(pairs, k).contains(i) by {
        assert(keys.contains(keys[i as int]));
        assert(sorted.to_multiset().count(keys[i as int]) > 0);
        assert(sorted.contains(keys[i as int]));
        let p = choose|p: int| 0 <= p < sorted.len() && sorted[p] == keys[i as int];
        assert(output_order(pairs, k)[p] == sorted[p].1);
    }
}

/// Checks and canonicalizes every record, in input order.
fn build_records(fields: &Vec<Vec<u8>>, k: usize, link_mode: bool, Ghost(pairs): Ghost<Seq<(Seq<u8>, Seq<u8>)>>) -> (r: Result<(Vec<Record>, Vec<Key>, usize), CanonError>)
    requires
        k >= 1,
        pairs == Seq::new(views(fields@).len() / 2, |i: int| (views(fields@)[2 * i], views(fields@)[2 * i + 1])),
        total_len(views(fields@)) <= usize::MAX,
    ensures
        match r {
            Ok((records, keys, total)) => {
                &&& records_ok(pairs, k as int, link_mode)
                &&& records@.len() == pairs.len()
                &&& forall|i: int| 0 <= i < pairs.len() ==> record_matches(#[trigger] records@[i], pairs[i].0, pairs[i].1, k as int, link_mode)
                &&& key_views(keys@) == canonical_keys(pairs, k as int)
                &&& total == kmer_total(pairs, k as int)
            },
            Err(e) => {
                &&& e matches CanonError::Record { record, error }
                &&& record < pairs.len()
                &&& record_error(pairs[record as int].0, pairs[record as int].1, k as int, link_mode) == Some(error)
                &&& forall|j: int| 0 <= j < record ==> (#[trigger] record_error(pairs[j].0, pairs[j].1, k as int, link_mode)) is None
            },
        },
{
    let n = fields.len() / 2;
    let mut records: Vec<Record> = Vec::new();
    let mut keys: Vec<Key> = Vec::new();
    let mut total: usize = 0;
    let mut i: usize = 0;
    proof {
        assert(key_views(keys@) =~= canonical_keys(pairs, k as int).take(0));
        assert(pairs.take(0) =~= Seq::<(Seq<u8>, Seq<u8>)>::empty());
        assert(views(fields@).take(0) =~= Seq::<Seq<u8>>::empty());
    }
    while i < n
        invariant
            n == fields.len() / 2,
            n == pairs.len(),
            k >= 1,
            pairs == Seq::new(views(fields@).len() / 2, |i: int| (views(fields@)[2 * i], views(fields@)[2 * i + 1])),
            total_len(views(fields@)) <= usize::MAX,
            i <= n,
            records@.len() == i,
            forall|j: int| 0 <= j < i ==> record_matches(#[trigger] records@[j], pairs[j].0, pairs[j].1, k as int, link_mode),
            forall|j: int| 0 <= j < i ==> (#[trigger] record_error(pairs[j].0, pairs[j].1, k as int, link_mode)) is None,
            key_views(keys@) == canonical_keys(pairs, k as int).take(i as int),
            total == kmer_total(pairs.take(i as int), k as int),
            total <= total_len(views(fields@).take(2 * i)),
        decreases n - i,
    {
        let header = &fields[2 * i];
        let seq = &fields[2 * i + 1];
        assert(pairs[i as int] == (header@, seq@));
        match canonicalize_record(header, seq, k, link_mode) {
            Ok(rec) => {
                proof {
                    let fv = views(fields@);
                    assert(fv.take(2 * i + 2).drop_last() =~= fv.take(2 * i + 1));
                    assert(fv.take(2 * i + 1).drop_last() =~= fv.take(2 * i));
                    let t2 = fv.take(2 * i + 2);
                    let t1 = fv.take(2 * i + 1);
                    assert(total_len(t2) == total_len(t2.drop_last()) + t2.last().len());
                    assert(total_len(t1) == total_len(t1.drop_last()) + t1.last().len());
                    assert(total_len(fv.take(2 * i + 2)) == total_len(fv.take(2 * i)) + fv[2 * i].len() + fv[2 * i + 1].len());
                    lemma_total_len_prefix(fv, 2 * i + 2);
                    assert(pairs.take(i + 1).drop_last() =~= pairs.take(i as int));
                }
                total = total + (seq.len() - k + 1);
                let ghost before = key_views(keys@);
                keys.push((rec.sequence.clone(), i));
                proof {
                    assert(key_views(keys@) =~= before.push((rec.sequence@, i)));
                    assert(key_views(keys@) =~= canonical_keys(pairs, k as int).take(i + 1));
                }
                records.push(rec);
                i += 1;
            },
            Err(e) => {
                return Err(CanonError::Record { record: i, error: e });
            },
        }
    }
    proof {
        assert(pairs.take(n as int) =~= pairs);
        assert(canonical_keys(pairs, k as int).take(n as int) =~= canonical_keys(pairs, k as int));
    }
    Ok((records, keys, total))
}


pub proof fn lemma_known_iff(pairs: Seq<(Seq<u8>, Seq<u8>)>, k: int, t: nat)
    requires
        pairs.len() <= usize::MAX,
    ensures
        new_position(pairs, k, t) >= 0 <==> index_known(pairs, t),
        new_position(pairs, k, t) < pairs.len(),
{
    let s = indices_in_order(pairs, k);
    lemma_output_order_facts(pairs, k);
    lemma_last_position_facts(s, t);
    if s.contains(t) {
        let q = choose|q: int| 0 <= q < s.len() && s[q] == t;
        let i = output_order(pairs, k)[q] as int;
        assert(canonical_keys(pairs, k).sort_by(key_order())[q].1 < pairs.len());
        assert(0 <= i < pairs.len() && header_index(pairs[i].0) == t);
    }
    if index_known(pairs, t) {
        let i = choose|i: int| 0 <= i < pairs.len() && header_index(pairs[i].0) == t;
        assert(output_order(pairs, k).contains(i as usize));
        let q = choose|q: int| 0 <= q < pairs.len() && output_order(pairs, k)[q] == i as usize;
        assert(s[q] == t);
    }
}

/// Output positions by header index, and the orientation flags in output order.
fn build_positions(records: &Vec<Record>, keys: &Vec<Key>, k: usize, Ghost(pairs): Ghost<Seq<(Seq<u8>, Seq<u8>)>>) -> (r: (HashMap<usize, usize>, Vec<bool>))
    requires
        pairs.len() <= usize::MAX,
        records@.len() == pairs.len(),
        forall|i: int| 0 <= i < pairs.len() ==> record_matches(#[trigger] records@[i], pairs[i].0, pairs[i].1, k as int, true),
        key_views(keys@) == canonical_keys(pairs, k as int).sort_by(key_order()),
    ensures
        forall|t: usize| #[trigger] r.0@.contains_key(t) <==> new_position(pairs, k as int, t as nat) >= 0,
        forall|t: usize| r.0@.contains_key(t) ==> #[trigger] r.0@[t] == new_position(pairs, k as int, t as nat),
        r.1@.len() == pairs.len(),
        forall|q: int| 0 <= q < pairs.len() ==> #[trigger] r.1@[q] == canonical_flipped(pairs[output_order(pairs, k as int)[q] as int].1, k as int),
{
    let ghost s = indices_in_order(pairs, k as int);
    proof {
        lemma_output_order_facts(pairs, k as int);
    }
    let n = records.len();
    let mut pos_of: HashMap<usize, usize> = HashMap::new();
    let mut flips: Vec<bool> = Vec::new();
    let mut p: usize = 0;
    proof {
        assert(s.take(0) =~= Seq::<nat>::empty());
        assert(key_views(keys@).len() == keys@.len());
    }
    while p < n
        invariant
            n == records@.len(),
            n == pairs.len(),
            keys@.len() == n,
            s == indices_in_order(pairs, k as int),
            s.len() == n,
            forall|i: int| 0 <= i < pairs.len() ==> record_matches(#[trigger] records@[i], pairs[i].0, pairs[i].1, k as int, true),
            key_views(keys@) == canonical_keys(pairs, k as int).sort_by(key_order()),
            forall|q: int| 0 <= q < pairs.len() ==> {
                let x = #[trigger] canonical_keys(pairs, k as int).sort_by(key_order())[q];
                &&& x.1 < pairs.len()
                &&& x.0 == canonical_form(pairs[x.1 as int].1, k as int)
            },
            p <= n,
            forall|t: usize| #[trigger] pos_of@.contains_key(t) <==> last_position(s.take(p as int), t as nat) >= 0,
            forall|t: usize| pos_of@.contains_key(t) ==> #[trigger] pos_of@[t] == last_position(s.take(p as int), t as nat),
            flips@.len() == p,
            forall|q: int| 0 <= q < p ==> #[trigger] flips@[q] == canonical_flipped(pairs[output_order(pairs, k as int)[q] as int].1, k as int),
        decreases n - p,
    {
        let i = keys[p].1;
        proof {
            assert(key_views(keys@)[p as int].1 == i);
            assert(output_order(pairs, k as int)[p as int] == i);
            assert(canonical_keys(pairs, k as int).sort_by(key_order())[p as int].1 < pairs.len());
            assert(s[p as int] == header_index(pairs[i as int].0));
            assert(s.take(p + 1).drop_last() =~= s.take(p as int));
        }
        let index = records[i].original_index;
        pos_of.insert(index, p);
        flips.push(records[i].flipped);
        p += 1;
    }
    proof {
        assert(s.take(n as int) =~= s);
    }
    (pos_of, flips)
}

/// Checks, in input order, that every link names the index of some record.
fn check_links(records: &Vec<Record>, pos_of: &HashMap<usize, usize>, k: usize, Ghost(pairs): Ghost<Seq<(Seq<u8>, Seq<u8>)>>) -> (r: Result<(), CanonError>)
    requires
        pairs.len() <= usize::MAX,
        records@.len() == pairs.len(),
        forall|i: int| 0 <= i < pairs.len() ==> record_matches(#[trigger] records@[i], pairs[i].0, pairs[i].1, k as int, true),
        forall|t: usize| #[trigger] pos_of@.contains_key(t) <==> new_position(pairs, k as int, t as nat) >= 0,
    ensures
        r is Ok <==> all_links_known(pairs),
        r matches Err(e) ==> e is UnknownLinkTarget,
        r matches Err(CanonError::UnknownLinkTarget { record, target }) ==> {
            &&& record < pairs.len()
            &&& !links_known(pairs, record as int)
            &&& forall|j: int| 0 <= j < record ==> #[trigger] links_known(pairs, j)
            &&& target == header_links(pairs[record as int].0)[first_unknown_link(pairs, record as int)].1
        },
{
    let n = records.len();
    let mut i: usize = 0;
    while i < n
        invariant
            n == records@.len(),
            n == pairs.len(),
            pairs.len() <= usize::MAX,
            i <= n,
            forall|i: int| 0 <= i < pairs.len() ==> record_matches(#[trigger] records@[i], pairs[i].0, pairs[i].1, k as int, true),
            forall|t: usize| #[trigger] pos_of@.contains_key(t) <==> new_position(pairs, k as int, t as nat) >= 0,
            forall|j: int| 0 <= j < i ==> #[trigger] links_known(pairs, j),
        decreases n - i,
    {
        let links = &records[i].links;
        let ghost ls = header_links(pairs[i as int].0);
        assert(link_views(links@) == ls);
        let mut j: usize = 0;
        while j < links.len()
            invariant
                n == records@.len(),
                n == pairs.len(),
                pairs.len() <= usize::MAX,
                i < n,
                links == &records@[i as int].links,
                link_views(links@) == ls,
                ls == header_links(pairs[i as int].0),
                j <= links@.len(),
                forall|t: usize| #[trigger] pos_of@.contains_key(t) <==> new_position(pairs, k as int, t as nat) >= 0,
                forall|j2: int| 0 <= j2 < j ==> index_known(pairs, #[trigger] ls[j2].1),
                forall|j: int| 0 <= j < i ==> #[trigger] links_known(pairs, j),
            decreases links@.len() - j,
        {
            let t = links[j].target;
            assert(ls[j as int] == link_view(links@[j as int]));
            proof {
                lemma_known_iff(pairs, k as int, t as nat);
            }
            if !pos_of.contains_key(&t) {
                proof {
                    let f = first_unknown_link(pairs, i as int);
                    assert(!index_known(pairs, ls[j as int].1));
                    assert(0 <= j < ls.len() && !index_known(pairs, ls[j as int].1) && forall|j2: int| 0 <= j2 < j ==> index_known(pairs, #[trigger] ls[j2].1));
                    assert(!(forall|j2: int| 0 <= j2 < ls.len() ==> index_known(pairs, #[trigger] ls[j2].1)));
                    assert(0 <= f < ls.len() && !index_known(pairs, ls[f].1));
                    if f < j {
                    } else if f > j {
                        assert(index_known(pairs, ls[j as int].1));
                    }
                    assert(f == j);
                    assert(t as nat == ls[f].1);
                    assert(t == header_links(pairs[i as int].0)[first_unknown_link(pairs, i as int)].1);
                    assert(!links_known(pairs, i as int));
                    assert(!all_links_known(pairs));
                }
                return Err(CanonError::UnknownLinkTarget { record: i, target: t });
            }
            j += 1;
        }
        assert(links_known(pairs, i as int));
        i += 1;
    }
    Ok(())
}


/// The links of record `i` after the reorder.
fn rewrite_links(links: &Vec<Link>, flipped: bool, pos_of: &HashMap<usize, usize>, flips: &Vec<bool>, k: usize, Ghost(pairs): Ghost<Seq<(Seq<u8>, Seq<u8>)>>, Ghost(i): Ghost<int>) -> (nl: Vec<Link>)
    requires
        pairs.len() <= usize::MAX,
        0 <= i < pairs.len(),
        link_views(links@) == header_links(pairs[i].0),
        flipped == canonical_flipped(pairs[i].1, k as int),
        links_known(pairs, i),
        forall|t: usize| #[trigger] pos_of@.contains_key(t) <==> new_position(pairs, k as int, t as nat) >= 0,
        forall|t: usize| pos_of@.contains_key(t) ==> #[trigger] pos_of@[t] == new_position(pairs, k as int, t as nat),
        flips@.len() == pairs.len(),
        forall|q: int| 0 <= q < pairs.len() ==> #[trigger] flips@[q] == canonical_flipped(pairs[output_order(pairs, k as int)[q] as int].1, k as int),
    ensures
        link_views(nl@) == rewritten_links(pairs, k as int, i),
{
    let ghost rl = rewritten_links(pairs, k as int, i);
    let ghost ls = header_links(pairs[i].0);
    let mut nl: Vec<Link> = Vec::new();
    let mut j: usize = 0;
    proof {
        assert(link_views(nl@) =~= rl.take(0));
        assert(link_views(links@).len() == links@.len());
    }
    while j < links.len()
        invariant
            pairs.len() <= usize::MAX,
            0 <= i < pairs.len(),
            link_views(links@) == ls,
            ls == header_links(pairs[i].0),
            rl == rewritten_links(pairs, k as int, i),
            rl.len() == ls.len(),
            ls.len() == links@.len(),
            flipped == canonical_flipped(pairs[i].1, k as int),
            forall|j2: int| 0 <= j2 < ls.len() ==> index_known(pairs, #[trigger] ls[j2].1),
            forall|t: usize| #[trigger] pos_of@.contains_key(t) <==> new_position(pairs, k as int, t as nat) >= 0,
            forall|t: usize| pos_of@.contains_key(t) ==> #[trigger] pos_of@[t] == new_position(pairs, k as int, t as nat),
            flips@.len() == pairs.len(),
            forall|q: int| 0 <= q < pairs.len() ==> #[trigger] flips@[q] == canonical_flipped(pairs[output_order(pairs, k as int)[q] as int].1, k as int),
            j <= links@.len(),
            link_views(nl@) == rl.take(j as int),
        decreases links@.len() - j,
    {
        let l = links[j];
        proof {
            assert(ls[j as int] == link_view(l));
            assert(index_known(pairs, ls[j as int].1));
            lemma_known_iff(pairs, k as int, l.target as nat);
        }
        let q = *pos_of.get(&l.target).unwrap();
        let item = Link { flip_here: l.flip_here != flipped, target: q, flip_there: l.flip_there != flips[q] };
        let ghost old_nl = link_views(nl@);
        nl.push(item);
        proof {
            assert(rl[j as int] == rewritten_link(pairs, k as int, i, ls[j as int]));
            assert(link_views(nl@) =~= old_nl.push(link_view(item)));
            assert(rl.take(j + 1) =~= rl.take(j as int).push(rl[j as int]));
        }
        j += 1;
    }
    proof {
        assert(rl.take(links@.len() as int) =~= rl);
    }
    nl
}

/// Writes the records in output order.
fn render(records: &Vec<Record>, keys: &Vec<Key>, pos_of: &HashMap<usize, usize>, flips: &Vec<bool>, k: usize, link_mode: bool, Ghost(pairs): Ghost<Seq<(Seq<u8>, Seq<u8>)>>) -> (out: Vec<u8>)
    requires
        pairs.len() <= usize::MAX,
        records@.len() == pairs.len(),
        forall|i: int| 0 <= i < pairs.len() ==> record_matches(#[trigger] records@[i], pairs[i].0, pairs[i].1, k as int, link_mode),
        key_views(keys@) == canonical_keys(pairs, k as int).sort_by(key_order()),
        link_mode ==> all_links_known(pairs),
        link_mode ==> forall|t: usize| #[trigger] pos_of@.contains_key(t) <==> new_position(pairs, k as int, t as nat) >= 0,
        link_mode ==> forall|t: usize| pos_of@.contains_key(t) ==> #[trigger] pos_of@[t] == new_position(pairs, k as int, t as nat),
        link_mode ==> flips@.len() == pairs.len(),
        link_mode ==> forall|q: int| 0 <= q < pairs.len() ==> #[trigger] flips@[q] == canonical_flipped(pairs[output_order(pairs, k as int)[q] as int].1, k as int),
    ensures
        out@ == output_text(pairs, k as int, link_mode, pairs.len() as int),
{
    proof {
        lemma_output_order_facts(pairs, k as int);
    }
    let n = records.len();
    let mut out: Vec<u8> = Vec::new();
    let mut p: usize = 0;
    while p < n
        invariant
            n == records@.len(),
            n == pairs.len(),
            pairs.len() <= usize::MAX,
            keys@.len() == n,
            p <= n,
            forall|i: int| 0 <= i < pairs.len() ==> record_matches(#[trigger] records@[i], pairs[i].0, pairs[i].1, k as int, link_mode),
            key_views(keys@) == canonical_keys(pairs, k as int).sort_by(key_order()),
            forall|q: int| 0 <= q < pairs.len() ==> {
                let x = #[trigger] canonical_keys(pairs, k as int).sort_by(key_order())[q];
                &&& x.1 < pairs.len()
                &&& x.0 == canonical_form(pairs[x.1 as int].1, k as int)
            },
            output_order(pairs, k as int).len() == n,
            link_mode ==> all_links_known(pairs),
            link_mode ==> forall|t: usize| #[trigger] pos_of@.contains_key(t) <==> new_position(pairs, k as int, t as nat) >= 0,
            link_mode ==> forall|t: usize| pos_of@.contains_key(t) ==> #[trigger] pos_of@[t] == new_position(pairs, k as int, t as nat),
            link_mode ==> flips@.len() == pairs.len(),
            link_mode ==> forall|q: int| 0 <= q < pairs.len() ==> #[trigger] flips@[q] == canonical_flipped(pairs[output_order(pairs, k as int)[q] as int].1, k as int),
            out@ == output_text(pairs, k as int, link_mode, p as int),
        decreases n - p,
    {
        let i = keys[p].1;
        proof {
            assert(key_views(keys@)[p as int].1 == i);
            assert(output_order(pairs, k as int)[p as int] == i);
            assert(canonical_keys(pairs, k as int).sort_by(key_order())[p as int].1 < pairs.len());
        }
        let rec = &records[i];
        let ghost before = out@;
        if link_mode {
            proof {
                assert(links_known(pairs, i as int));
            }
            let nl = rewrite_links(&rec.links, rec.flipped, pos_of, flips, k, Ghost(pairs), Ghost(i as int));
            let sorted = sort_links(&nl);
            push_header(&mut out, p, &sorted, rec.circular);
        }
        let mut body = rec.sequence.clone();
        assert(body@ =~= rec.sequence@);
        out.append(&mut body);
        out.push(NEWLINE);
        proof {
            assert(out@ =~= before + record_text(pairs, k as int, link_mode, p as int));
        }
        p += 1;
    }
    out
}

/// Canonicalizes every record of a loaded buffer and writes them sorted by
/// canonical bytes. In link mode every header is parsed, and the written
/// headers carry the new indices, the links renumbered and re-signed, and
/// the circular marker.
pub fn canonicalize_buffer(buf: &Vec<u8>, k: usize, normalize_links: bool) -> (r: Result<Canonicalized, CanonError>)
    requires
        k >= 1,
    ensures
        !records_ok(record_pairs(buf@), k as int, normalize_links) ==> (r matches Err(
            CanonError::Record { record, error },
        ) && record < record_pairs(buf@).len() && record_error(
            record_pairs(buf@)[record as int].0,
            record_pairs(buf@)[record as int].1,
            k as int,
            normalize_links,
        ) == Some(error) && forall|j: int| 0 <= j < record ==> (#[trigger] record_error(
            record_pairs(buf@)[j].0,
            record_pairs(buf@)[j].1,
            k as int,
            normalize_links,
        )) is None),
        records_ok(record_pairs(buf@), k as int, normalize_links) && normalize_links
            && !all_links_known(record_pairs(buf@)) ==> (r matches Err(
            CanonError::UnknownLinkTarget { record, target },
        ) && record < record_pairs(buf@).len() && !links_known(record_pairs(buf@), record as int)
            && (forall|j: int| 0 <= j < record ==> #[trigger] links_known(record_pairs(buf@), j))
            && target == header_links(record_pairs(buf@)[record as int].0)[first_unknown_link(
            record_pairs(buf@),
            record as int,
        )].1),
        records_ok(record_pairs(buf@), k as int, normalize_links) && (normalize_links
            ==> all_links_known(record_pairs(buf@))) ==> (r matches Ok(c) && c.output@ == output_text(
            record_pairs(buf@),
            k as int,
            normalize_links,
            record_pairs(buf@).len() as int,
        ) && c.record_count == record_pairs(buf@).len() && c.total_kmers == kmer_total(
            record_pairs(buf@),
            k as int,
        )),
{
    let ghost pairs = record_pairs(buf@);
    let blen = buf.len();
    let lines = split_lines(buf);
    let fields = group_fields(&lines);
    proof {
        lemma_total_len_lines(buf@);
        lemma_total_len_fields(lines_of(buf@));
        assert(views(fields@) == split_fields(buf@));
        assert(pairs =~= Seq::new(views(fields@).len() / 2, |i: int| (views(fields@)[2 * i], views(fields@)[2 * i + 1])));
    }
    let (records, mut keys, total) = match build_records(&fields, k, normalize_links, Ghost(pairs)) {
        Ok(x) => x,
        Err(e) => {
            return Err(e);
        },
    };
    let record_count = records.len();
    sort_keys(&mut keys);
    let (pos_of, flips) = if normalize_links {
        let (pos_of, flips) = build_positions(&records, &keys, k, Ghost(pairs));
        match check_links(&records, &pos_of, k, Ghost(pairs)) {
            Ok(()) => {},
            Err(e) => {
                return Err(e);
            },
        }
        (pos_of, flips)
    } else {
        (HashMap::new(), Vec::new())
    };
    let output = render(&records, &keys, &pos_of, &flips, k, normalize_links, Ghost(pairs));
    Ok(Canonicalized { output, record_count, total_kmers: total as u64 })
}

} // verus!
