//! Reading a written link-mode file back: it splits into the records that
//! were written, and canonicalizing it again writes it unchanged.
use vstd::prelude::*;
use vstd::arithmetic::div_mod::{lemma_fundamental_div_mod, lemma_mod_bound};
use crate::header::{decimal, digit_run, has_index, header_index, header_links, is_digit, link_at, link_value, links_from, COLON, DIGIT_ZERO, LETTER_L};
use crate::split::{fields_of, is_header, lines_of, pieces, split_fields, MARKER, NEWLINE};
use crate::text::{circular_text, decimal_text, link_text, links_text, SPACE};
use crate::dna::{all_bases, is_base, lemma_revcomp_bases};
use crate::canon::{candidate, canonical_form, circular_flag, cycle_len, ends_match, is_least_candidate, rotation};
use crate::links::link_order;
use crate::pipeline::{all_links_known, canonical_keys, index_known, indices_in_order, last_position, lemma_known_iff, lemma_output_order_facts, links_known, new_position, output_order, output_text, record_pairs, record_text, records_ok, rewritten_link, rewritten_links};
use crate::header::{header_error, links_fit};
use crate::canon::canonical_flipped;
use crate::links::lemma_link_order_total;
use crate::sort::lemma_key_order_total;
use vstd::seq_lib::lemma_sorted_unique;
use crate::record::record_error;
use crate::sort::key_order;

verus! {

proof fn lemma_decimal_text(n: nat)
    ensures
        decimal_text(n).len() >= 1,
        forall|i: int| 0 <= i < decimal_text(n).len() ==> is_digit(#[trigger] decimal_text(n)[i]),
        decimal(decimal_text(n)) == n,
    decreases n,
{
    if n >= 10 {
        lemma_decimal_text(n / 10);
        lemma_fundamental_div_mod(n as int, 10);
        lemma_mod_bound(n as int, 10);
        let t = decimal_text(n);
        assert(t.drop_last() =~= decimal_text(n / 10));
        assert(t.last() == (DIGIT_ZERO + n % 10) as u8);
        assert(((DIGIT_ZERO + n % 10) as u8) as int == 48 + n % 10);
        assert(decimal(t) == decimal(t.drop_last()) * 10 + (t.last() - DIGIT_ZERO) as nat);
        assert(decimal(t) == (n / 10) * 10 + n % 10);
    } else {
        let t = decimal_text(n);
        assert(t.drop_last() =~= Seq::<u8>::empty());
        assert(decimal(t) == decimal(t.drop_last()) * 10 + (t.last() - DIGIT_ZERO) as nat);
    }
}

/// The run of digits at `a` has length `d` when `d` digits follow `a` and
/// then a non-digit or the end.
proof fn lemma_digit_run_exact(h: Seq<u8>, a: int, d: int)
    requires
        0 <= a,
        0 <= d,
        a + d <= h.len(),
        forall|i: int| a <= i < a + d ==> is_digit(#[trigger] h[i]),
        a + d < h.len() ==> !is_digit(h[a + d]),
    ensures
        digit_run(h, a) == d,
    decreases d,
{
    if d > 0 {
        lemma_digit_run_exact(h, a + 1, d - 1);
    }
}

/// Splitting a buffer that ends at a line boundary, extended by one more
/// line.
proof fn lemma_pieces_extend(x: Seq<u8>, w: Seq<u8>)
    requires
        x.len() == 0 || x.last() == NEWLINE,
        forall|i: int| 0 <= i < w.len() ==> #[trigger] w[i] != NEWLINE,
    ensures
        pieces(x + w) == lines_of(x).push(w),
    decreases w.len(),
{
    if w.len() == 0 {
        assert(x + w =~= x);
        assert(w =~= Seq::<u8>::empty());
        crate::split::lemma_pieces_nonempty(x);
        assert(pieces(x).last() =~= Seq::<u8>::empty());
        assert(lines_of(x) == pieces(x).drop_last());
        assert(pieces(x) =~= pieces(x).drop_last().push(Seq::<u8>::empty()));
    } else {
        let w2 = w.drop_last();
        assert(w2.push(w.last()) =~= w);
        lemma_pieces_extend(x, w2);
        assert((x + w).drop_last() =~= x + w2);
        assert((x + w).last() == w.last());
        let p = pieces(x + w2);
        assert(p.len() == lines_of(x).len() + 1);
        assert(p.last() == w2);
        assert(pieces(x + w) == p.update(p.len() - 1, p.last().push(w.last())));
        assert(p.last().push(w.last()) == w);
        assert(p.update(p.len() - 1, w) =~= lines_of(x).push(w));
    }
}

pub proof fn lemma_lines_extend(x: Seq<u8>, w: Seq<u8>)
    requires
        x.len() == 0 || x.last() == NEWLINE,
        forall|i: int| 0 <= i < w.len() ==> #[trigger] w[i] != NEWLINE,
    ensures
        lines_of(x + w + seq![NEWLINE]) == lines_of(x).push(w),
{
    lemma_pieces_extend(x, w);
    let y = x + w + seq![NEWLINE];
    assert(y.drop_last() =~= x + w);
    assert(pieces(y).drop_last() =~= pieces(x + w));
}

/// The links written in the header at output position `p`.
pub open spec fn written_links(pairs: Seq<(Seq<u8>, Seq<u8>)>, k: int, p: int) -> Seq<(bool, nat, bool)> {
    rewritten_links(pairs, k, output_order(pairs, k)[p] as int).sort_by(link_order())
}

/// The header line written at output position `p`, without its newline.
pub open spec fn head_line(pairs: Seq<(Seq<u8>, Seq<u8>)>, k: int, p: int) -> Seq<u8> {
    let i = output_order(pairs, k)[p] as int;
    seq![MARKER] + decimal_text(p as nat) + links_text(written_links(pairs, k, p)) + (if circular_flag(pairs[i].1, k) {
        circular_text()
    } else {
        seq![]
    })
}

/// The sequence line written at output position `p`, without its newline.
pub open spec fn body_line(pairs: Seq<(Seq<u8>, Seq<u8>)>, k: int, p: int) -> Seq<u8> {
    canonical_form(pairs[output_order(pairs, k)[p] as int].1, k)
}

/// The lines of the first `p` written records.
pub open spec fn written_lines(pairs: Seq<(Seq<u8>, Seq<u8>)>, k: int, p: int) -> Seq<Seq<u8>>
    decreases p,
{
    if p <= 0 {
        seq![]
    } else {
        written_lines(pairs, k, p - 1).push(head_line(pairs, k, p - 1)).push(body_line(pairs, k, p - 1))
    }
}

pub proof fn lemma_canonical_shape(s: Seq<u8>, k: int)
    requires
        1 <= k <= s.len(),
        all_bases(s),
    ensures
        canonical_form(s, k).len() == s.len(),
        all_bases(canonical_form(s, k)),
{
    lemma_revcomp_bases(s);
    if ends_match(s, k) {
        crate::laws::lemma_least_exists(s, k);
        let r = canonical_form(s, k);
        assert(is_least_candidate(s, k, r));
        let t = choose|t: int| 0 <= t <= s.len() && candidate(s, k, t) == r;
        if t != 0 {
            let m = cycle_len(s, k);
            let w = rotation(s, k, t % m);
            assert forall|i: int| 0 <= i < w.len() implies is_base(#[trigger] w[i]) by {
                lemma_mod_bound(i + t % m, m);
            }
            lemma_revcomp_bases(w);
        }
    }
}

proof fn lemma_decimal_text_bytes(n: nat)
    ensures
        forall|i: int| 0 <= i < decimal_text(n).len() ==> {
            let c = #[trigger] decimal_text(n)[i];
            c != NEWLINE && c != LETTER_L && c != MARKER && c != SPACE && c != COLON
        },
{
    lemma_decimal_text(n);
}

proof fn lemma_links_text_no_newline(ls: Seq<(bool, nat, bool)>)
    ensures
        forall|i: int| 0 <= i < links_text(ls).len() ==> #[trigger] links_text(ls)[i] != NEWLINE,
    decreases ls.len(),
{
    if ls.len() > 0 {
        lemma_links_text_no_newline(ls.drop_last());
        lemma_decimal_text_bytes(ls.last().1);
        let a = links_text(ls.drop_last());
        let b = link_text(ls.last());
        assert forall|i: int| 0 <= i < b.len() implies #[trigger] b[i] != NEWLINE by {
            if 5 <= i < 5 + decimal_text(ls.last().1).len() {
                assert(b[i] == decimal_text(ls.last().1)[i - 5]);
            }
        }
        assert forall|i: int| 0 <= i < links_text(ls).len() implies #[trigger] links_text(ls)[i] != NEWLINE by {
            if i < a.len() {
                assert(links_text(ls)[i] == a[i]);
            } else {
                assert(links_text(ls)[i] == b[i - a.len()]);
            }
        }
    }
}

proof fn lemma_head_line_no_newline(pairs: Seq<(Seq<u8>, Seq<u8>)>, k: int, p: int)
    ensures
        forall|i: int| 0 <= i < head_line(pairs, k, p).len() ==> #[trigger] head_line(pairs, k, p)[i] != NEWLINE,
        head_line(pairs, k, p).len() > 0,
        head_line(pairs, k, p)[0] == MARKER,
{
    let d = decimal_text(p as nat);
    let l = links_text(written_links(pairs, k, p));
    lemma_decimal_text_bytes(p as nat);
    lemma_links_text_no_newline(written_links(pairs, k, p));
    let h = head_line(pairs, k, p);
    assert forall|i: int| 0 <= i < h.len() implies #[trigger] h[i] != NEWLINE by {
        if 1 <= i < 1 + d.len() {
            assert(h[i] == d[i - 1]);
        } else if 1 + d.len() <= i < 1 + d.len() + l.len() {
            assert(h[i] == l[i - 1 - d.len()]);
        }
    }
}

proof fn lemma_written_lines_index(pairs: Seq<(Seq<u8>, Seq<u8>)>, k: int, p: int)
    requires
        p >= 0,
    ensures
        written_lines(pairs, k, p).len() == 2 * p,
        forall|q: int| 0 <= q < p ==> #[trigger] written_lines(pairs, k, p)[2 * q] == head_line(pairs, k, q)
            && written_lines(pairs, k, p)[2 * q + 1] == body_line(pairs, k, q),
    decreases p,
{
    if p > 0 {
        lemma_written_lines_index(pairs, k, p - 1);
        let w = written_lines(pairs, k, p);
        let v = written_lines(pairs, k, p - 1);
        assert forall|q: int| 0 <= q < p implies #[trigger] w[2 * q] == head_line(pairs, k, q) && w[2 * q + 1] == body_line(pairs, k, q) by {
            if q < p - 1 {
                assert(w[2 * q] == v[2 * q]);
                assert(w[2 * q + 1] == v[2 * q + 1]);
            }
        }
    }
}

proof fn lemma_written_fields(pairs: Seq<(Seq<u8>, Seq<u8>)>, k: int, p: int)
    requires
        p >= 0,
        forall|q: int| 0 <= q < p ==> !is_header(#[trigger] body_line(pairs, k, q)),
    ensures
        fields_of(written_lines(pairs, k, p)) == written_lines(pairs, k, p),
    decreases p,
{
    if p > 0 {
        lemma_written_fields(pairs, k, p - 1);
        lemma_head_line_no_newline(pairs, k, p - 1);
        let v = written_lines(pairs, k, p - 1);
        let h = head_line(pairs, k, p - 1);
        let b = body_line(pairs, k, p - 1);
        assert(v.push(h).push(b).drop_last() =~= v.push(h));
        assert(v.push(h).drop_last() =~= v);
        assert(fields_of(v.push(h)) == fields_of(v).push(h));
        assert(v.push(h).push(b)[v.len() as int] == h);
    }
}

/// The lines of a written link-mode file are its header and sequence lines.
proof fn lemma_output_lines(pairs: Seq<(Seq<u8>, Seq<u8>)>, k: int, p: int)
    requires
        1 <= k,
        pairs.len() <= usize::MAX,
        records_ok(pairs, k, true),
        0 <= p <= pairs.len(),
    ensures
        lines_of(output_text(pairs, k, true, p)) == written_lines(pairs, k, p),
        output_text(pairs, k, true, p).len() == 0 || output_text(pairs, k, true, p).last() == NEWLINE,
    decreases p,
{
    if p > 0 {
        lemma_output_lines(pairs, k, p - 1);
        lemma_output_order_facts(pairs, k);
        let x = output_text(pairs, k, true, p - 1);
        let h = head_line(pairs, k, p - 1);
        let b = body_line(pairs, k, p - 1);
        let i = output_order(pairs, k)[p - 1] as int;
        assert(canonical_keys(pairs, k).sort_by(key_order())[p - 1].1 < pairs.len());
        assert(0 <= i < pairs.len());
        assert(record_error(pairs[i].0, pairs[i].1, k, true) is None);
        lemma_canonical_shape(pairs[i].1, k);
        lemma_head_line_no_newline(pairs, k, p - 1);
        assert forall|j: int| 0 <= j < b.len() implies #[trigger] b[j] != NEWLINE by {
            assert(is_base(b[j]));
        }
        assert(record_text(pairs, k, true, p - 1) =~= h + seq![NEWLINE] + b + seq![NEWLINE]);
        lemma_lines_extend(x, h);
        let y = x + h + seq![NEWLINE];
        lemma_lines_extend(y, b);
        assert(output_text(pairs, k, true, p) =~= y + b + seq![NEWLINE]);
    }
}

/// A written link-mode file reads back as the records that were written.
pub proof fn lemma_output_records(pairs: Seq<(Seq<u8>, Seq<u8>)>, k: int)
    requires
        1 <= k,
        pairs.len() <= usize::MAX,
        records_ok(pairs, k, true),
    ensures
        record_pairs(output_text(pairs, k, true, pairs.len() as int)) == Seq::new(
            pairs.len(),
            |q: int| (head_line(pairs, k, q), body_line(pairs, k, q)),
        ),
{
    let n = pairs.len() as int;
    lemma_output_lines(pairs, k, n);
    lemma_output_order_facts(pairs, k);
    assert forall|q: int| 0 <= q < n implies !is_header(#[trigger] body_line(pairs, k, q)) by {
        let i = output_order(pairs, k)[q] as int;
        assert(canonical_keys(pairs, k).sort_by(key_order())[q].1 < pairs.len());
        assert(record_error(pairs[i].0, pairs[i].1, k, true) is None);
        lemma_canonical_shape(pairs[i].1, k);
        if body_line(pairs, k, q).len() > 0 {
            assert(is_base(body_line(pairs, k, q)[0]));
        }
    }
    lemma_written_fields(pairs, k, n);
    lemma_written_lines_index(pairs, k, n);
    let f = split_fields(output_text(pairs, k, true, n));
    assert(f == written_lines(pairs, k, n));
    assert(record_pairs(output_text(pairs, k, true, n)) =~= Seq::new(
        pairs.len(),
        |q: int| (head_line(pairs, k, q), body_line(pairs, k, q)),
    ));
}

proof fn lemma_skip(h: Seq<u8>, a: int, b: int)
    requires
        0 <= a <= b <= h.len(),
        forall|q: int| a <= q < b ==> #[trigger] h[q] != LETTER_L,
    ensures
        links_from(h, a) == links_from(h, b),
    decreases b - a,
{
    if a < b {
        lemma_skip(h, a + 1, b);
    }
}

proof fn lemma_one_link(h: Seq<u8>, b: int, l: (bool, nat, bool))
    requires
        0 <= b,
        b + link_text(l).len() <= h.len(),
        h.subrange(b, b + link_text(l).len()) == link_text(l),
    ensures
        links_from(h, b) == seq![l] + links_from(h, b + link_text(l).len()),
{
    let t = link_text(l);
    let d = decimal_text(l.1);
    lemma_decimal_text(l.1);
    assert(t.len() == 7 + d.len());
    assert(h[b] == t[0]);
    assert(h[b + 1] == t[1]);
    assert(h[b + 2] == t[2]);
    assert(h[b + 3] == t[3]);
    assert(h[b + 4] == t[4]);
    assert(h[b + 5 + d.len()] == t[5 + d.len() as int]);
    assert(h[b + 6 + d.len()] == t[6 + d.len() as int]);
    assert forall|i: int| b <= i < b + t.len() implies #[trigger] h[i] == t[i - b] by {
        assert(h[i] == h.subrange(b, b + t.len())[i - b]);
    }
    assert forall|i: int| b + 5 <= i < b + 5 + d.len() implies is_digit(#[trigger] h[i]) by {
        assert(h[i] == t[i - b]);
        assert(t[i - b] == d[i - b - 5]);
    }
    lemma_digit_run_exact(h, b + 5, d.len() as int);
    assert(link_at(h, b + 1));
    assert forall|j: int| 0 <= j < d.len() implies #[trigger] h.subrange(b + 5, b + 5 + d.len())[j] == d[j] by {
        assert(h[b + 5 + j] == t[5 + j]);
    }
    assert(h.subrange(b + 5, b + 5 + d.len()) =~= d);
    assert(link_value(h, b + 1) == l);
    assert(links_from(h, b) == links_from(h, b + 1));
}

proof fn lemma_links_region(h: Seq<u8>, a: int, ls: Seq<(bool, nat, bool)>)
    requires
        0 <= a,
        a + links_text(ls).len() <= h.len(),
        h.subrange(a, a + links_text(ls).len()) == links_text(ls),
    ensures
        links_from(h, a) == ls + links_from(h, a + links_text(ls).len()),
    decreases ls.len(),
{
    if ls.len() == 0 {
        assert(ls + links_from(h, a) =~= links_from(h, a));
    } else {
        let rest = ls.drop_last();
        let l = ls.last();
        let tr = links_text(rest);
        let tl = link_text(l);
        assert(links_text(ls) == tr + tl);
        assert((tr + tl).subrange(0, tr.len() as int) =~= tr);
        assert((tr + tl).subrange(tr.len() as int, (tr + tl).len() as int) =~= tl);
        assert(h.subrange(a, a + tr.len()) =~= h.subrange(a, a + links_text(ls).len()).subrange(0, tr.len() as int));
        lemma_links_region(h, a, rest);
        assert(h.subrange(a + tr.len(), a + tr.len() + tl.len()) =~= h.subrange(a, a + links_text(ls).len()).subrange(tr.len() as int, links_text(ls).len() as int));
        lemma_one_link(h, a + tr.len(), l);
        assert(rest + (seq![l] + links_from(h, a + links_text(ls).len())) =~= ls + links_from(h, a + links_text(ls).len()));
    }
}

proof fn lemma_links_text_start(ls: Seq<(bool, nat, bool)>)
    requires
        ls.len() > 0,
    ensures
        links_text(ls).len() > 0,
        links_text(ls)[0] == SPACE,
    decreases ls.len(),
{
    if ls.len() > 1 {
        lemma_links_text_start(ls.drop_last());
    } else {
        assert(links_text(ls.drop_last()) =~= Seq::<u8>::empty());
    }
}

/// A written header line reads back as its index and its links.
pub proof fn lemma_head_line_parse(pairs: Seq<(Seq<u8>, Seq<u8>)>, k: int, p: int)
    requires
        0 <= p,
    ensures
        has_index(head_line(pairs, k, p)),
        header_index(head_line(pairs, k, p)) == p,
        header_links(head_line(pairs, k, p)) == written_links(pairs, k, p),
{
    let h = head_line(pairs, k, p);
    let d = decimal_text(p as nat);
    let ls = written_links(pairs, k, p);
    let lt = links_text(ls);
    let i = output_order(pairs, k)[p] as int;
    let c = if circular_flag(pairs[i].1, k) {
        circular_text()
    } else {
        seq![]
    };
    lemma_decimal_text(p as nat);
    lemma_decimal_text_bytes(p as nat);
    assert(h =~= seq![MARKER] + d + lt + c);
    let a = 1 + d.len() as int;
    // the index
    assert forall|q: int| 1 <= q < a implies is_digit(#[trigger] h[q]) by {
        assert(h[q] == d[q - 1]);
    }
    if a < h.len() {
        if ls.len() > 0 {
            lemma_links_text_start(ls);
            assert(h[a] == lt[0]);
        } else {
            assert(h[a] == c[0]);
        }
    }
    lemma_digit_run_exact(h, 1, d.len() as int);
    assert(h.subrange(1, 1 + d.len() as int) =~= d);
    // the links
    assert forall|q: int| 0 <= q < a implies #[trigger] h[q] != LETTER_L by {
        if q > 0 {
            assert(h[q] == d[q - 1]);
        }
    }
    lemma_skip(h, 0, a);
    assert(h.subrange(a, a + lt.len() as int) =~= lt);
    lemma_links_region(h, a, ls);
    let e = a + lt.len() as int;
    if circular_flag(pairs[i].1, k) {
        assert forall|q: int| e <= q < e + 6 implies #[trigger] h[q] != LETTER_L by {
            assert(h[q] == c[q - e]);
        }
        lemma_skip(h, e, e + 6);
        assert(h[e + 7] == c[7]);
        assert(!link_at(h, e + 6));
        assert forall|q: int| e + 7 <= q < h.len() implies #[trigger] h[q] != LETTER_L by {
            assert(h[q] == c[q - e]);
        }
        lemma_skip(h, e + 7, h.len() as int);
    }
    assert(ls + links_from(h, h.len() as int) =~= ls);
}

proof fn lemma_last_position_identity(s: Seq<nat>, t: nat)
    requires
        forall|i: int| 0 <= i < s.len() ==> #[trigger] s[i] == i,
    ensures
        t < s.len() ==> last_position(s, t) == t,
        t >= s.len() ==> last_position(s, t) == -1,
    decreases s.len(),
{
    if s.len() > 0 {
        assert forall|i: int| 0 <= i < s.drop_last().len() implies #[trigger] s.drop_last()[i] == i by {
            assert(s.drop_last()[i] == s[i]);
        }
        lemma_last_position_identity(s.drop_last(), t);
        assert(s.last() == s.len() - 1);
    }
}

/// Sorting an already sorted sequence of links leaves it as it is.
proof fn lemma_sorted_links_fixed(ls: Seq<(bool, nat, bool)>)
    ensures
        ls.sort_by(link_order()).sort_by(link_order()) == ls.sort_by(link_order()),
{
    lemma_link_order_total();
    let a = ls.sort_by(link_order());
    ls.lemma_sort_by_ensures(link_order());
    a.lemma_sort_by_ensures(link_order());
    lemma_sorted_unique(a.sort_by(link_order()), a, link_order());
}

/// The written links have targets below the number of records.
proof fn lemma_written_targets(pairs: Seq<(Seq<u8>, Seq<u8>)>, k: int, p: int)
    requires
        pairs.len() <= usize::MAX,
        0 <= p < pairs.len(),
        all_links_known(pairs),
    ensures
        forall|j: int| 0 <= j < written_links(pairs, k, p).len() ==> #[trigger] written_links(pairs, k, p)[j].1 < pairs.len(),
{
    broadcast use vstd::seq_lib::group_to_multiset_ensures;

    lemma_output_order_facts(pairs, k);
    let i = output_order(pairs, k)[p] as int;
    assert(canonical_keys(pairs, k).sort_by(key_order())[p].1 < pairs.len());
    let rl = rewritten_links(pairs, k, i);
    let ls = crate::header::header_links(pairs[i].0);
    lemma_link_order_total();
    rl.lemma_sort_by_ensures(link_order());
    assert forall|j: int| 0 <= j < written_links(pairs, k, p).len() implies #[trigger] written_links(pairs, k, p)[j].1 < pairs.len() by {
        let x = written_links(pairs, k, p)[j];
        assert(written_links(pairs, k, p).contains(x));
        assert(rl.contains(x));
        let j2 = choose|j2: int| 0 <= j2 < rl.len() && rl[j2] == x;
        assert(links_known(pairs, i));
        assert(index_known(pairs, ls[j2].1));
        lemma_known_iff(pairs, k, ls[j2].1);
        assert(x == rewritten_link(pairs, k, i, ls[j2]));
    }
}

/// Canonicalizing a written link-mode file again succeeds and writes the
/// same file: every record passes its checks, every link names a record, and
/// the text written is the text read.
pub proof fn lemma_second_pass(pairs: Seq<(Seq<u8>, Seq<u8>)>, k: int)
    requires
        1 <= k,
        pairs.len() <= usize::MAX,
        records_ok(pairs, k, true),
        all_links_known(pairs),
    ensures
        record_pairs(output_text(pairs, k, true, pairs.len() as int)).len() == pairs.len(),
        records_ok(record_pairs(output_text(pairs, k, true, pairs.len() as int)), k, true),
        all_links_known(record_pairs(output_text(pairs, k, true, pairs.len() as int))),
        output_text(
            record_pairs(output_text(pairs, k, true, pairs.len() as int)),
            k,
            true,
            pairs.len() as int,
        ) == output_text(pairs, k, true, pairs.len() as int),
{
    let n = pairs.len() as int;
    let q = record_pairs(output_text(pairs, k, true, n));
    lemma_output_records(pairs, k);
    lemma_output_order_facts(pairs, k);
    let sorted = canonical_keys(pairs, k).sort_by(key_order());
    // each read record is a written one
    assert forall|p: int| 0 <= p < n implies {
        let i = #[trigger] output_order(pairs, k)[p] as int;
        &&& 0 <= i < n
        &&& q[p] == (head_line(pairs, k, p), body_line(pairs, k, p))
        &&& record_error(q[p].0, q[p].1, k, true) is None
        &&& canonical_form(q[p].1, k) == q[p].1
        &&& !canonical_flipped(q[p].1, k)
        &&& circular_flag(q[p].1, k) == circular_flag(pairs[i].1, k)
        &&& q[p].1 == sorted[p].0
        &&& header_index(q[p].0) == p
        &&& crate::header::header_links(q[p].0) == written_links(pairs, k, p)
    } by {
        let i = output_order(pairs, k)[p] as int;
        assert(sorted[p].1 < n);
        assert(record_error(pairs[i].0, pairs[i].1, k, true) is None);
        lemma_canonical_shape(pairs[i].1, k);
        crate::laws::lemma_canonical_idempotent(pairs[i].1, k);
        lemma_head_line_parse(pairs, k, p);
        lemma_written_targets(pairs, k, p);
        assert(links_fit(written_links(pairs, k, p)));
        assert(header_error(q[p].0) is None);
    }
    assert(records_ok(q, k, true));
    // the read records are already in order
    let kq = canonical_keys(q, k);
    lemma_key_order_total();
    canonical_keys(pairs, k).lemma_sort_by_ensures(key_order());
    assert forall|a: int, b: int| 0 <= a < b < kq.len() implies #[trigger] key_order()(kq[a], kq[b]) by {
        lemma_key_order_total();
        crate::sort::lemma_key_order_total();
        assert(key_order()(sorted[a], sorted[b]));
        let ia = output_order(pairs, k)[a];
        let ib = output_order(pairs, k)[b];
        assert(kq[a] == (sorted[a].0, a as usize));
        assert(kq[b] == (sorted[b].0, b as usize));
    }
    lemma_key_order_total();
    kq.lemma_sort_by_ensures(key_order());
    lemma_sorted_unique(kq, kq.sort_by(key_order()), key_order());
    assert forall|p: int| 0 <= p < n implies #[trigger] output_order(q, k)[p] == p by {
        assert(kq.sort_by(key_order())[p] == kq[p]);
    }
    // indices read back are the positions
    let iq = indices_in_order(q, k);
    assert forall|p: int| 0 <= p < iq.len() implies #[trigger] iq[p] == p by {
        assert(output_order(q, k)[p] == p);
    }
    assert forall|t: nat| t < n implies #[trigger] new_position(q, k, t) == t && index_known(q, t) by {
        lemma_last_position_identity(iq, t);
        assert(header_index(q[t as int].0) == t);
    }
    assert forall|p: int| 0 <= p < n implies #[trigger] links_known(q, p) by {
        lemma_written_targets(pairs, k, p);
        let ls = crate::header::header_links(q[p].0);
        assert forall|j: int| 0 <= j < ls.len() implies index_known(q, #[trigger] ls[j].1) by {
            assert(ls[j].1 < n);
            assert(new_position(q, k, ls[j].1) == ls[j].1 && index_known(q, ls[j].1));
        }
    }
    assert(all_links_known(q));
    // each record is written as before
    assert forall|p: int| 0 <= p < n implies #[trigger] record_text(q, k, true, p) == record_text(pairs, k, true, p) by {
        lemma_written_targets(pairs, k, p);
        let wl = written_links(pairs, k, p);
        let rq = rewritten_links(q, k, p);
        assert(output_order(q, k)[p] == p);
        assert forall|j: int| 0 <= j < rq.len() implies #[trigger] rq[j] == wl[j] by {
            let l = wl[j];
            assert(l.1 < n);
            lemma_last_position_identity(iq, l.1);
            assert(new_position(q, k, l.1) == l.1);
            assert(output_order(q, k)[l.1 as int] == l.1);
            assert(!canonical_flipped(q[l.1 as int].1, k));
            assert(!canonical_flipped(q[p].1, k));
        }
        assert(rq =~= wl);
        lemma_sorted_links_fixed(rewritten_links(pairs, k, output_order(pairs, k)[p] as int));
    }
    lemma_same_output(q, pairs, k, n);
}

proof fn lemma_same_output(a: Seq<(Seq<u8>, Seq<u8>)>, b: Seq<(Seq<u8>, Seq<u8>)>, k: int, p: int)
    requires
        forall|r: int| 0 <= r < p ==> #[trigger] record_text(a, k, true, r) == record_text(b, k, true, r),
    ensures
        output_text(a, k, true, p) == output_text(b, k, true, p),
    decreases p,
{
    if p > 0 {
        lemma_same_output(a, b, k, p - 1);
    }
}


/// A link read from record `i` is written, in the header of `i`'s output
/// position, as a link to the output position `q` of the record with the
/// named index, its first sign composed with `i`'s flip and its second with
/// the flip of the record at `q`.
pub proof fn lemma_link_round_trip(pairs: Seq<(Seq<u8>, Seq<u8>)>, k: int, i: int, j: int)
    requires
        pairs.len() <= usize::MAX,
        0 <= i < pairs.len(),
        0 <= j < header_links(pairs[i].0).len(),
        index_known(pairs, header_links(pairs[i].0)[j].1),
    ensures
        ({
            let l = header_links(pairs[i].0)[j];
            let q = new_position(pairs, k, l.1);
            let t = output_order(pairs, k)[q] as int;
            &&& 0 <= q < pairs.len()
            &&& 0 <= t < pairs.len()
            &&& header_index(pairs[t].0) == l.1
            &&& exists|p: int| 0 <= p < pairs.len() && output_order(pairs, k)[p] == i
                && written_links(pairs, k, p).contains(
                (l.0 != canonical_flipped(pairs[i].1, k), q as nat, l.2 != canonical_flipped(pairs[t].1, k)),
            )
        }),
{
    broadcast use vstd::seq_lib::group_to_multiset_ensures;

    let l = header_links(pairs[i].0)[j];
    lemma_known_iff(pairs, k, l.1);
    lemma_output_order_facts(pairs, k);
    let q = new_position(pairs, k, l.1);
    let s = indices_in_order(pairs, k);
    crate::pipeline::lemma_last_position_facts(s, l.1);
    assert(canonical_keys(pairs, k).sort_by(key_order())[q].1 < pairs.len());
    let t = output_order(pairs, k)[q] as int;
    assert(s[q] == header_index(pairs[t].0));
    assert(output_order(pairs, k).contains(i as usize));
    let p = choose|p: int| 0 <= p < pairs.len() && output_order(pairs, k)[p] == i as usize;
    let rl = rewritten_links(pairs, k, i);
    let x = rewritten_link(pairs, k, i, l);
    assert(rl[j] == x);
    assert(rl.contains(x));
    lemma_link_order_total();
    rl.lemma_sort_by_ensures(link_order());
    assert(rl.to_multiset().count(x) > 0);
    assert(written_links(pairs, k, p) == rl.sort_by(link_order()));
    assert(written_links(pairs, k, p).contains(x));
}

} // verus!
