//! The text of a written record: decimal numbers, link tokens, markers.
use vstd::prelude::*;
use crate::header::{link_view, Link, COLON, DIGIT_ZERO, LETTER_L, MINUS, PLUS};
use crate::split::{MARKER, NEWLINE};

verus! {

pub const SPACE: u8 = 32;

/// The decimal digits of `n`, without leading zeros.
pub open spec fn decimal_text(n: nat) -> Seq<u8>
    decreases n,
{
    if n < 10 {
        seq![(DIGIT_ZERO + n) as u8]
    } else {
        decimal_text(n / 10).push((DIGIT_ZERO + n % 10) as u8)
    }
}

pub open spec fn sign_byte(flip: bool) -> u8 {
    if flip {
        MINUS
    } else {
        PLUS
    }
}

/// ` L:<sign>:<target>:<sign>`
pub open spec fn link_text(l: (bool, nat, bool)) -> Seq<u8> {
    seq![SPACE, LETTER_L, COLON, sign_byte(l.0), COLON] + decimal_text(l.1) + seq![
        COLON,
        sign_byte(l.2),
    ]
}

pub open spec fn links_text(ls: Seq<(bool, nat, bool)>) -> Seq<u8>
    decreases ls.len(),
{
    if ls.len() == 0 {
        seq![]
    } else {
        links_text(ls.drop_last()) + link_text(ls.last())
    }
}

/// ` CIRCULAR`
pub open spec fn circular_text() -> Seq<u8> {
    seq![SPACE, 67, 73, 82, 67, 85, 76, 65, 82]
}

/// A link-mode header line: the record's new index, its links, the circular
/// marker, the line end.
pub open spec fn header_text(index: nat, links: Seq<(bool, nat, bool)>, circular: bool) -> Seq<u8> {
    seq![MARKER] + decimal_text(index) + links_text(links) + (if circular {
        circular_text()
    } else {
        seq![]
    }) + seq![NEWLINE]
}

/// Appends the decimal digits of `n`.
pub fn push_decimal(out: &mut Vec<u8>, n: usize)
    ensures
        final(out)@ == old(out)@ + decimal_text(n as nat),
    decreases n,
{
    if n >= 10 {
        push_decimal(out, n / 10);
    }
    out.push(DIGIT_ZERO + (n % 10) as u8);
    proof {
        assert(final(out)@ =~= old(out)@ + decimal_text(n as nat));
    }
}

fn sign_of(flip: bool) -> (r: u8)
    ensures
        r == sign_byte(flip),
{
    if flip {
        MINUS
    } else {
        PLUS
    }
}

/// Appends the text of the links.
pub fn push_links(out: &mut Vec<u8>, ls: &Vec<Link>)
    ensures
        final(out)@ == old(out)@ + links_text(ls@.map_values(|l: Link| link_view(l))),
{
    let ghost views = ls@.map_values(|l: Link| link_view(l));
    let mut i: usize = 0;
    proof {
        assert(views.take(0) =~= Seq::<(bool, nat, bool)>::empty());
        assert(out@ =~= old(out)@ + links_text(views.take(0)));
    }
    while i < ls.len()
        invariant
            i <= ls.len(),
            views == ls@.map_values(|l: Link| link_view(l)),
            out@ == old(out)@ + links_text(views.take(i as int)),
        decreases ls.len() - i,
    {
        let l = ls[i];
        let ghost before = out@;
        out.push(SPACE);
        out.push(LETTER_L);
        out.push(COLON);
        out.push(sign_of(l.flip_here));
        out.push(COLON);
        let ghost mid = out@;
        push_decimal(out, l.target);
        out.push(COLON);
        out.push(sign_of(l.flip_there));
        proof {
            assert(views.take(i + 1).drop_last() =~= views.take(i as int));
            assert(views[i as int] == link_view(l));
            assert(out@ =~= before + link_text(link_view(l)));
        }
        i += 1;
    }
    proof {
        assert(views.take(ls.len() as int) =~= views);
    }
}

/// Appends a link-mode header line.
pub fn push_header(out: &mut Vec<u8>, index: usize, ls: &Vec<Link>, circular: bool)
    ensures
        final(out)@ == old(out)@ + header_text(
            index as nat,
            ls@.map_values(|l: Link| link_view(l)),
            circular,
        ),
{
    out.push(MARKER);
    push_decimal(out, index);
    push_links(out, ls);
    if circular {
        out.push(SPACE);
        out.push(67);
        out.push(73);
        out.push(82);
        out.push(67);
        out.push(85);
        out.push(76);
        out.push(65);
        out.push(82);
    }
    out.push(NEWLINE);
    proof {
        assert(final(out)@ =~= old(out)@ + header_text(
            index as nat,
            ls@.map_values(|l: Link| link_view(l)),
            circular,
        ));
    }
}

} // verus!
