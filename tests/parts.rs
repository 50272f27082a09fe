use canonical_kmers::canon::{canonical_sequence, is_circular};
use canonical_kmers::dna::{first_invalid_base, orient_canonical, reverse_complement};
use canonical_kmers::header::{parse_header, HeaderError, Link};
use canonical_kmers::load::{is_lz4_name, load_buffer, LoadError};
use canonical_kmers::order::lex_less;
use canonical_kmers::split::{group_fields, split_lines};
use canonical_kmers::text::push_decimal;
use std::io::Write;

fn v(s: &str) -> Vec<u8> {
    s.as_bytes().to_vec()
}

#[test]
fn reverse_complement_of_sequence() {
    assert_eq!(reverse_complement(&v("AACG")), v("CGTT"));
    assert_eq!(reverse_complement(&v("ACGT")), v("ACGT"));
}

#[test]
fn orientation_choice() {
    assert_eq!(orient_canonical(v("CGTT")), (v("AACG"), true));
    assert_eq!(orient_canonical(v("AACG")), (v("AACG"), false));
}

#[test]
fn canonical_sequence_of_cycle() {
    assert_eq!(canonical_sequence(&v("CGTACG"), 3), (v("ACGTAC"), true));
    assert_eq!(canonical_sequence(&v("GTCCC"), 3), (v("GGGAC"), true));
    // equal candidates: the first left turn that reaches the least bytes decides
    assert_eq!(canonical_sequence(&v("CATG"), 1), (v("ATGC"), false));
    assert_eq!(canonical_sequence(&v("TCGA"), 1), (v("ATCG"), true));
}

#[test]
fn circular_marks() {
    assert!(is_circular(&v("ACGTAC"), 3));
    // first k - 1 bytes are their own reverse complement
    assert!(is_circular(&v("ATGGG"), 3));
    // last k - 1 bytes are their own reverse complement
    assert!(is_circular(&v("AACG"), 3));
    assert!(!is_circular(&v("AACT"), 3));
}

#[test]
fn invalid_base_position() {
    assert_eq!(first_invalid_base(&v("ACGT")), None);
    assert_eq!(first_invalid_base(&v("ACxT")), Some(2));
}

#[test]
fn lexicographic_order() {
    assert!(lex_less(&v("AC"), &v("ACA")));
    assert!(lex_less(&v("AC"), &v("AG")));
    assert!(!lex_less(&v("AG"), &v("AG")));
    assert!(!lex_less(&v("T"), &v("AG")));
}

#[test]
fn lines_and_fields() {
    let lines = split_lines(&v(">a\nAC\n\nGT\n>b\nT"));
    assert_eq!(lines, vec![v(">a"), v("AC"), v(""), v("GT"), v(">b"), v("T")]);
    assert_eq!(group_fields(&lines), vec![v(">a"), v("ACGT"), v(">b"), v("T")]);
    assert_eq!(split_lines(&v("\n")), vec![v("")]);
    assert_eq!(split_lines(&v("")), Vec::<Vec<u8>>::new());
}

#[test]
fn header_with_links() {
    let (index, links) = parse_header(&v(">12 L:+:3:- xL:-:40:+ L:+:x:- CIRCULAR")).unwrap();
    assert_eq!(index, 12);
    assert_eq!(
        links,
        vec![
            Link { flip_here: false, target: 3, flip_there: true },
            Link { flip_here: true, target: 40, flip_there: false },
        ]
    );
    assert_eq!(parse_header(&v("12")), Err(HeaderError::MissingIndex));
    assert_eq!(parse_header(&v(">99999999999999999999999")), Err(HeaderError::NumberTooLarge));
}

#[test]
fn decimal_text() {
    let mut out = v("x");
    push_decimal(&mut out, 1207);
    assert_eq!(out, v("x1207"));
    let mut zero = Vec::new();
    push_decimal(&mut zero, 0);
    assert_eq!(zero, v("0"));
}

#[test]
fn lz4_names() {
    assert!(is_lz4_name(&v("reads.fa.lz4")));
    assert!(!is_lz4_name(&v(".lz4")));
    assert!(!is_lz4_name(&v("reads.fa")));
}

#[test]
fn plain_file_is_taken_as_is() {
    assert_eq!(load_buffer(&v("a.fa"), v(">0\nACGT\n")), Ok(v(">0\nACGT\n")));
}

#[test]
fn lz4_file_is_decompressed() {
    let mut encoder = lz4::EncoderBuilder::new().build(Vec::new()).unwrap();
    encoder.write_all(b">0\nACGT\n").unwrap();
    let (frame, result) = encoder.finish();
    result.unwrap();
    assert_ne!(frame, v(">0\nACGT\n"));
    assert_eq!(load_buffer(&v("a.fa.lz4"), frame), Ok(v(">0\nACGT\n")));
}

#[test]
fn malformed_lz4_file_is_rejected() {
    assert_eq!(load_buffer(&v("a.fa.lz4"), v("not a frame")), Err(LoadError::Decompression));
}
