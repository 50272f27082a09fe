//! One record: its checks and its canonical form.
use vstd::prelude::*;
use crate::dna::{all_bases, first_invalid_base, is_base};
use crate::canon::{canonical_flipped, canonical_form, canonical_sequence, circular_flag, is_circular};
use crate::header::{header_error, header_index, header_links, link_views, parse_header, HeaderError, Link};

verus! {

/// A record after canonicalization.
pub struct Record {
    /// The canonical bytes.
    pub sequence: Vec<u8>,
    /// The index that the header gave (link mode; 0 otherwise).
    pub original_index: usize,
    /// The links that the header gave, as read (link mode; empty otherwise).
    pub links: Vec<Link>,
    /// The canonical bytes are a reverse complement of the bytes as read.
    pub flipped: bool,
    /// The record is marked circular.
    pub circular: bool,
}

#[derive(Clone, Copy, Debug, PartialEq, Eq, Structural)]
pub enum RecordError {
    /// The sequence is shorter than k.
    TooShort,
    /// The header of a link-mode record is malformed.
    Header(HeaderError),
    /// A byte of the sequence lies outside the alphabet.
    InvalidBase { position: usize, byte: u8 },
}

/// The position of the first byte outside the alphabet.
pub open spec fn first_invalid(s: Seq<u8>) -> int {
    choose|i: int| 0 <= i < s.len() && !is_base(s[i]) && all_bases(s.take(i))
}

/// Why a record cannot be canonicalized, checked in this order: its length,
/// its header (link mode only), its alphabet.
pub open spec fn record_error(header: Seq<u8>, seq: Seq<u8>, k: int, link_mode: bool) -> Option<
    RecordError,
> {
    if seq.len() < k {
        Some(RecordError::TooShort)
    } else if link_mode && header_error(header) is Some {
        Some(RecordError::Header(header_error(header)->Some_0))
    } else if !all_bases(seq) {
        Some(
            RecordError::InvalidBase {
                position: first_invalid(seq) as usize,
                byte: seq[first_invalid(seq)],
            },
        )
    } else {
        None
    }
}

/// The record that canonicalization makes of a header and a sequence.
pub open spec fn record_matches(r: Record, header: Seq<u8>, seq: Seq<u8>, k: int, link_mode: bool) -> bool {
    &&& r.sequence@ == canonical_form(seq, k)
    &&& r.flipped == canonical_flipped(seq, k)
    &&& r.circular == circular_flag(seq, k)
    &&& link_mode ==> r.original_index == header_index(header)
    &&& link_mode ==> link_views(r.links@) == header_links(header)
    &&& !link_mode ==> r.original_index == 0 && r.links@.len() == 0
}

proof fn lemma_first_invalid_unique(s: Seq<u8>, i: int)
    requires
        0 <= i < s.len(),
        !is_base(s[i]),
        all_bases(s.take(i)),
    ensures
        first_invalid(s) == i,
{
    let j = first_invalid(s);
    if j < i {
        assert(s.take(i)[j] == s[j]);
    } else if i < j {
        assert(s.take(j)[i] == s[i]);
    }
}

/// Checks one record and computes its canonical form.
pub fn canonicalize_record(header: &Vec<u8>, seq: &Vec<u8>, k: usize, link_mode: bool) -> (r: Result<
    Record,
    RecordError,
>)
    requires
        k >= 1,
    ensures
        record_error(header@, seq@, k as int, link_mode) matches Some(e) ==> r == Err::<
            Record,
            RecordError,
        >(e),
        record_error(header@, seq@, k as int, link_mode) is None ==> (r matches Ok(rec)
            && record_matches(rec, header@, seq@, k as int, link_mode)),
{
    if seq.len() < k {
        return Err(RecordError::TooShort);
    }
    let mut original_index: usize = 0;
    let mut links: Vec<Link> = Vec::new();
    if link_mode {
        match parse_header(header) {
            Ok((i, ls)) => {
                original_index = i;
                links = ls;
            },
            Err(e) => {
                return Err(RecordError::Header(e));
            },
        }
    }
    match first_invalid_base(seq) {
        Some(p) => {
            proof {
                lemma_first_invalid_unique(seq@, p as int);
            }
            return Err(RecordError::InvalidBase { position: p, byte: seq[p] });
        },
        None => {},
    }
    let circular = is_circular(seq, k);
    let (sequence, flipped) = canonical_sequence(seq, k);
    Ok(Record { sequence, original_index, links, flipped, circular })
}

} // verus!
