//! Link-mode headers: `>` and a decimal record index, then any number of link
//! tokens `L:<sign>:<index>:<sign>` anywhere in the rest of the line, where a
//! sign is `+` or `-` (`-`: the link leaves or enters from the reverse
//! complement).
use vstd::prelude::*;
use crate::split::MARKER;

verus! {

pub const DIGIT_ZERO: u8 = 48;

pub const DIGIT_NINE: u8 = 57;

pub const LETTER_L: u8 = 76;

pub const COLON: u8 = 58;

pub const PLUS: u8 = 43;

pub const MINUS: u8 = 45;

/// A link from one end of a record to one end of another record.
#[derive(Clone, Copy, Debug, PartialEq, Eq, Structural)]
pub struct Link {
    /// The link leaves the record from its reverse complement.
    pub flip_here: bool,
    /// Index of the record that the link enters.
    pub target: usize,
    /// The link enters the target from its reverse complement.
    pub flip_there: bool,
}

#[derive(Clone, Copy, Debug, PartialEq, Eq, Structural)]
pub enum HeaderError {
    /// The header does not start with the marker and a digit.
    MissingIndex,
    /// The record index or a link target does not fit in `usize`.
    NumberTooLarge,
}

pub open spec fn is_digit(b: u8) -> bool {
    DIGIT_ZERO <= b <= DIGIT_NINE
}

pub open spec fn is_sign(b: u8) -> bool {
    b == PLUS || b == MINUS
}

/// Number of consecutive digits starting at `p`.
pub open spec fn digit_run(h: Seq<u8>, p: int) -> nat
    decreases h.len() - p,
{
    if 0 <= p < h.len() && is_digit(h[p]) {
        1 + digit_run(h, p + 1)
    } else {
        0
    }
}

/// The value of a string of decimal digits.
pub open spec fn decimal(ds: Seq<u8>) -> nat
    decreases ds.len(),
{
    if ds.len() == 0 {
        0
    } else {
        decimal(ds.drop_last()) * 10 + (ds.last() - DIGIT_ZERO) as nat
    }
}

/// A link token starts at `p`.
pub open spec fn link_at(h: Seq<u8>, p: int) -> bool {
    let d = digit_run(h, p + 4);
    &&& 0 <= p
    &&& d >= 1
    &&& p + 6 + d <= h.len()
    &&& h[p] == LETTER_L
    &&& h[p + 1] == COLON
    &&& is_sign(h[p + 2])
    &&& h[p + 3] == COLON
    &&& h[p + 4 + d] == COLON
    &&& is_sign(h[p + 5 + d])
}

pub open spec fn link_len(h: Seq<u8>, p: int) -> int {
    6 + digit_run(h, p + 4) as int
}

/// The link that the token at `p` denotes.
pub open spec fn link_value(h: Seq<u8>, p: int) -> (bool, nat, bool) {
    let d = digit_run(h, p + 4);
    (h[p + 2] == MINUS, decimal(h.subrange(p + 4, p + 4 + d)), h[p + 5 + d] == MINUS)
}

/// The link tokens from `p` on, found left to right without overlap.
pub open spec fn links_from(h: Seq<u8>, p: int) -> Seq<(bool, nat, bool)>
    decreases h.len() - p,
{
    if p < 0 || p >= h.len() {
        seq![]
    } else if link_at(h, p) {
        seq![link_value(h, p)] + links_from(h, p + link_len(h, p))
    } else {
        links_from(h, p + 1)
    }
}

pub open spec fn header_links(h: Seq<u8>) -> Seq<(bool, nat, bool)> {
    links_from(h, 0)
}

pub open spec fn has_index(h: Seq<u8>) -> bool {
    h.len() >= 2 && h[0] == MARKER && is_digit(h[1])
}

pub open spec fn header_index(h: Seq<u8>) -> nat {
    decimal(h.subrange(1, 1 + digit_run(h, 1) as int))
}

pub open spec fn links_fit(ls: Seq<(bool, nat, bool)>) -> bool {
    forall|i: int| 0 <= i < ls.len() ==> #[trigger] ls[i].1 <= usize::MAX
}

pub open spec fn header_error(h: Seq<u8>) -> Option<HeaderError> {
    if !has_index(h) {
        Some(HeaderError::MissingIndex)
    } else if header_index(h) > usize::MAX || !links_fit(header_links(h)) {
        Some(HeaderError::NumberTooLarge)
    } else {
        None
    }
}

pub open spec fn link_view(l: Link) -> (bool, nat, bool) {
    (l.flip_here, l.target as nat, l.flip_there)
}

pub open spec fn link_views(ls: Seq<Link>) -> Seq<(bool, nat, bool)> {
    ls.map_values(|l: Link| link_view(l))
}

proof fn lemma_decimal_prefix(ds: Seq<u8>, j: int)
    requires
        0 <= j <= ds.len(),
    ensures
        decimal(ds.take(j)) <= decimal(ds),
    decreases ds.len(),
{
    if j < ds.len() {
        lemma_decimal_prefix(ds.drop_last(), j);
        assert(ds.drop_last().take(j) =~= ds.take(j));
    } else {
        assert(ds.take(j) =~= ds);
    }
}

proof fn lemma_digit_run_bound(h: Seq<u8>, p: int)
    requires
        0 <= p <= h.len(),
    ensures
        p + digit_run(h, p) <= h.len(),
        forall|i: int| p <= i < p + digit_run(h, p) ==> is_digit(#[trigger] h[i]),
        p + digit_run(h, p) < h.len() ==> !is_digit(h[p + digit_run(h, p)]),
    decreases h.len() - p,
{
    if p < h.len() && is_digit(h[p]) {
        lemma_digit_run_bound(h, p + 1);
    }
}

fn is_ascii_digit(b: u8) -> (r: bool)
    ensures
        r == is_digit(b),
{
    DIGIT_ZERO <= b && b <= DIGIT_NINE
}

/// End of the run of digits that starts at `p`.
fn digits_end(h: &Vec<u8>, p: usize) -> (e: usize)
    requires
        p <= h.len(),
    ensures
        e == p + digit_run(h@, p as int),
        e <= h.len(),
{
    let mut e = p;
    proof {
        lemma_digit_run_bound(h@, p as int);
    }
    while e < h.len() && is_ascii_digit(h[e])
        invariant
            p <= e <= h.len(),
            digit_run(h@, p as int) == (e - p) + digit_run(h@, e as int),
        decreases h.len() - e,
    {
        e += 1;
    }
    e
}

/// The value of the digits in `h[start..end]`, if it fits in `usize`.
fn parse_decimal(h: &Vec<u8>, start: usize, end: usize) -> (r: Option<usize>)
    requires
        start <= end <= h.len(),
        forall|i: int| start <= i < end ==> is_digit(#[trigger] h@[i]),
    ensures
        r is Some <==> decimal(h@.subrange(start as int, end as int)) <= usize::MAX,
        r matches Some(v) ==> v == decimal(h@.subrange(start as int, end as int)),
{
    let ghost ds = h@.subrange(start as int, end as int);
    let mut v: usize = 0;
    let mut i = start;
    proof {
        assert(ds.take(0) =~= Seq::<u8>::empty());
    }
    while i < end
        invariant
            start <= i <= end <= h.len(),
            ds == h@.subrange(start as int, end as int),
            forall|j: int| start <= j < end ==> is_digit(#[trigger] h@[j]),
            v == decimal(ds.take(i - start)),
        decreases end - i,
    {
        let d = (h[i] - DIGIT_ZERO) as usize;
        proof {
            assert(ds.take(i + 1 - start).drop_last() =~= ds.take(i - start));
            assert(ds[i - start] == h@[i as int]);
        }
        let next = match v.checked_mul(10) {
            Some(t) => t.checked_add(d),
            None => None,
        };
        match next {
            Some(n) => {
                v = n;
            },
            None => {
                proof {
                    lemma_decimal_prefix(ds, i + 1 - start);
                }
                return None;
            },
        }
        i += 1;
    }
    proof {
        assert(ds.take(end - start) =~= ds);
    }
    Some(v)
}

fn is_sign_byte(b: u8) -> (r: bool)
    ensures
        r == is_sign(b),
{
    b == PLUS || b == MINUS
}

/// Whether a link token starts at `p`; if so, the end of its digits.
fn link_token_at(h: &Vec<u8>, p: usize) -> (r: Option<usize>)
    requires
        p < h.len(),
    ensures
        r is Some <==> link_at(h@, p as int),
        r matches Some(e) ==> e == p + 4 + digit_run(h@, p + 4),
{
    let n = h.len();
    if n - p < 7 {
        return None;
    }
    if !(h[p] == LETTER_L && h[p + 1] == COLON && is_sign_byte(h[p + 2]) && h[p + 3] == COLON) {
        return None;
    }
    let e = digits_end(h, p + 4);
    if e == p + 4 || n - e < 2 {
        return None;
    }
    if h[e] == COLON && is_sign_byte(h[e + 1]) {
        Some(e)
    } else {
        None
    }
}

/// The links named in a header, in order, or `NumberTooLarge` if a target
/// does not fit in `usize`.
pub fn parse_links(h: &Vec<u8>) -> (r: Result<Vec<Link>, HeaderError>)
    ensures
        links_fit(header_links(h@)) ==> (r matches Ok(ls) && link_views(ls@) == header_links(h@)),
        !links_fit(header_links(h@)) ==> r == Err::<Vec<Link>, HeaderError>(
            HeaderError::NumberTooLarge,
        ),
{
    let mut out: Vec<Link> = Vec::new();
    let mut p: usize = 0;
    proof {
        assert(link_views(out@) + links_from(h@, 0) =~= header_links(h@));
    }
    while p < h.len()
        invariant
            p <= h.len(),
            link_views(out@) + links_from(h@, p as int) == header_links(h@),
        decreases h.len() - p,
    {
        match link_token_at(h, p) {
            Some(e) => {
                proof {
                    lemma_digit_run_bound(h@, p + 4);
                }
                let target = parse_decimal(h, p + 4, e);
                match target {
                    Some(t) => {
                        let l = Link { flip_here: h[p + 2] == MINUS, target: t, flip_there: h[e + 1] == MINUS };
                        let ghost before = link_views(out@);
                        out.push(l);
                        proof {
                            assert(link_views(out@) =~= before.push(link_value(h@, p as int)));
                            assert(link_views(out@) + links_from(h@, e + 2) =~= before + links_from(h@, p as int));
                        }
                        p = e + 2;
                    },
                    None => {
                        proof {
                            let ls = header_links(h@);
                            let i = link_views(out@).len() as int;
                            let rest = links_from(h@, p as int);
                            assert(rest == seq![link_value(h@, p as int)] + links_from(
                                h@,
                                p + link_len(h@, p as int),
                            ));
                            assert(rest[0] == link_value(h@, p as int));
                            assert(ls[i] == rest[0]);
                            assert(ls[i].1 > usize::MAX);
                        }
                        return Err(HeaderError::NumberTooLarge);
                    },
                }
            },
            None => {
                p += 1;
            },
        }
    }
    proof {
        assert(link_views(out@) =~= header_links(h@));
        assert forall|i: int| 0 <= i < header_links(h@).len() implies #[trigger] header_links(h@)[i].1 <= usize::MAX by {
            assert(link_views(out@)[i] == link_view(out@[i]));
        }
    }
    Ok(out)
}

/// The record index and the links of a link-mode header.
pub fn parse_header(h: &Vec<u8>) -> (r: Result<(usize, Vec<Link>), HeaderError>)
    ensures
        header_error(h@) matches Some(e) ==> r == Err::<(usize, Vec<Link>), HeaderError>(e),
        header_error(h@) is None ==> (r matches Ok((i, ls)) && i == header_index(h@) && link_views(
            ls@,
        ) == header_links(h@)),
{
    if !(h.len() >= 2 && h[0] == MARKER && is_ascii_digit(h[1])) {
        return Err(HeaderError::MissingIndex);
    }
    let e = digits_end(h, 1);
    proof {
        lemma_digit_run_bound(h@, 1);
    }
    let index = match parse_decimal(h, 1, e) {
        Some(v) => v,
        None => {
            return Err(HeaderError::NumberTooLarge);
        },
    };
    match parse_links(h) {
        Ok(ls) => Ok((index, ls)),
        Err(err) => Err(err),
    }
}

} // verus!
