//! Splitting a loaded buffer into records: lines, then fields (a header line,
//! or a sequence body whose continuation lines are joined), then pairs.
use vstd::prelude::*;

verus! {

pub const NEWLINE: u8 = 10;

/// First byte of a header line (`>`).
pub const MARKER: u8 = 62;

pub open spec fn views(v: Seq<Vec<u8>>) -> Seq<Seq<u8>> {
    v.map_values(|x: Vec<u8>| x@)
}

/// The pieces between newlines, the last one possibly empty.
pub open spec fn pieces(b: Seq<u8>) -> Seq<Seq<u8>>
    decreases b.len(),
{
    if b.len() == 0 {
        seq![Seq::empty()]
    } else {
        let p = pieces(b.drop_last());
        if b.last() == NEWLINE {
            p.push(Seq::empty())
        } else {
            p.update(p.len() - 1, p.last().push(b.last()))
        }
    }
}

/// The lines of a buffer, without their terminators; a final newline does
/// not start another line.
pub open spec fn lines_of(b: Seq<u8>) -> Seq<Seq<u8>> {
    if b.len() == 0 || b.last() == NEWLINE {
        pieces(b).drop_last()
    } else {
        pieces(b)
    }
}

pub open spec fn is_header(l: Seq<u8>) -> bool {
    l.len() > 0 && l[0] == MARKER
}

/// Each header line is a field of its own; each maximal run of other lines
/// is one field, the lines joined without terminators.
pub open spec fn fields_of(ls: Seq<Seq<u8>>) -> Seq<Seq<u8>>
    decreases ls.len(),
{
    if ls.len() == 0 {
        seq![]
    } else {
        let f = fields_of(ls.drop_last());
        if ls.len() >= 2 && !is_header(ls.last()) && !is_header(ls[ls.len() - 2]) {
            f.update(f.len() - 1, f.last() + ls.last())
        } else {
            f.push(ls.last())
        }
    }
}

/// The fields of a buffer in order.
pub open spec fn split_fields(b: Seq<u8>) -> Seq<Seq<u8>> {
    fields_of(lines_of(b))
}

pub proof fn lemma_pieces_nonempty(b: Seq<u8>)
    ensures
        pieces(b).len() >= 1,
    decreases b.len(),
{
    if b.len() > 0 {
        lemma_pieces_nonempty(b.drop_last());
    }
}

pub proof fn lemma_fields_nonempty(ls: Seq<Seq<u8>>)
    ensures
        ls.len() > 0 ==> fields_of(ls).len() > 0,
    decreases ls.len(),
{
    if ls.len() > 0 {
        lemma_fields_nonempty(ls.drop_last());
    }
}

/// The lines of a buffer.
pub fn split_lines(buf: &Vec<u8>) -> (r: Vec<Vec<u8>>)
    ensures
        views(r@) == lines_of(buf@),
{
    let mut done: Vec<Vec<u8>> = Vec::new();
    let mut cur: Vec<u8> = Vec::new();
    let mut i: usize = 0;
    proof {
        assert(buf@.take(0) =~= Seq::<u8>::empty());
        assert(views(done@).push(cur@) =~= pieces(buf@.take(0)));
    }
    while i < buf.len()
        invariant
            i <= buf.len(),
            views(done@).push(cur@) == pieces(buf@.take(i as int)),
        decreases buf.len() - i,
    {
        proof {
            assert(buf@.take(i + 1).drop_last() =~= buf@.take(i as int));
            lemma_pieces_nonempty(buf@.take(i as int));
        }
        if buf[i] == NEWLINE {
            let ghost old_done = views(done@);
            done.push(cur);
            cur = Vec::new();
            proof {
                assert(views(done@) =~= old_done.push(views(done@).last()));
                assert(views(done@).push(cur@) =~= pieces(buf@.take(i + 1)));
            }
        } else {
            let ghost prev = views(done@).push(cur@);
            cur.push(buf[i]);
            proof {
                assert(views(done@).push(cur@) =~= prev.update(prev.len() - 1, prev.last().push(buf@[i as int])));
            }
        }
        i += 1;
    }
    proof {
        assert(buf@.take(buf.len() as int) =~= buf@);
    }
    if buf.len() == 0 || buf[buf.len() - 1] == NEWLINE {
        proof {
            assert(views(done@) =~= views(done@).push(cur@).drop_last());
        }
    } else {
        let ghost prev = views(done@).push(cur@);
        done.push(cur);
        proof {
            assert(views(done@) =~= prev);
        }
    }
    done
}

/// Groups lines into fields.
pub fn group_fields(lines: &Vec<Vec<u8>>) -> (r: Vec<Vec<u8>>)
    ensures
        views(r@) == fields_of(views(lines@)),
{
    let mut fields: Vec<Vec<u8>> = Vec::new();
    let mut prev_body = false;
    let mut i: usize = 0;
    proof {
        assert(views(lines@).take(0) =~= Seq::<Seq<u8>>::empty());
    }
    while i < lines.len()
        invariant
            i <= lines.len(),
            views(fields@) == fields_of(views(lines@).take(i as int)),
            prev_body == (i > 0 && !is_header(lines@[i - 1]@)),
        decreases lines.len() - i,
    {
        let ghost ls = views(lines@).take(i + 1);
        proof {
            assert(ls.drop_last() =~= views(lines@).take(i as int));
            lemma_fields_nonempty(ls.drop_last());
        }
        let mut line = lines[i].clone();
        assert(line@ =~= lines@[i as int]@);
        let header = line.len() > 0 && line[0] == MARKER;
        if !header && prev_body {
            let ghost old_fields = views(fields@);
            let mut last = fields.pop().unwrap();
            last.append(&mut line);
            fields.push(last);
            proof {
                assert(views(fields@) =~= old_fields.update(
                    old_fields.len() - 1,
                    old_fields.last() + ls.last(),
                ));
            }
        } else {
            let ghost old_fields = views(fields@);
            fields.push(line);
            proof {
                assert(views(fields@) =~= old_fields.push(ls.last()));
            }
        }
        prev_body = !header;
        i += 1;
    }
    proof {
        assert(views(lines@).take(lines.len() as int) =~= views(lines@));
    }
    fields
}

} // verus!
