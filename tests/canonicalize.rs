use canonical_kmers::canonicalize_buffer;
use canonical_kmers::pipeline::CanonError;
use canonical_kmers::record::RecordError;
use canonical_kmers::header::HeaderError;

fn run(input: &str, k: usize, links: bool) -> (String, usize, u64) {
    let r = canonicalize_buffer(&input.as_bytes().to_vec(), k, links).expect("canonicalization fails");
    (String::from_utf8(r.output).unwrap(), r.record_count, r.total_kmers)
}

fn run_err(input: &str, k: usize, links: bool) -> CanonError {
    match canonicalize_buffer(&input.as_bytes().to_vec(), k, links) {
        Ok(_) => panic!("canonicalization succeeds"),
        Err(e) => e,
    }
}

#[test]
fn palindromic_sequence_is_kept() {
    assert_eq!(run(">0\nACGT\n", 3, false), ("ACGT\n".to_string(), 1, 2));
}

#[test]
fn smaller_orientation_is_kept() {
    assert_eq!(run(">0\nAACG\n", 3, false), ("AACG\n".to_string(), 1, 2));
}

#[test]
fn reverse_complement_gives_same_bytes() {
    assert_eq!(run(">0\nCGTT\n", 3, false), ("AACG\n".to_string(), 1, 2));
    assert_eq!(run(">0\nCGTT\n", 3, false).0, run(">0\nAACG\n", 3, false).0);
}

#[test]
fn circular_record_takes_least_rotation() {
    assert_eq!(run(">0\nACGTAC\n", 3, true), (">0 CIRCULAR\nACGTAC\n".to_string(), 1, 4));
    assert_eq!(run(">0\nCGTACG\n", 3, true), (">0 CIRCULAR\nACGTAC\n".to_string(), 1, 4));
}

#[test]
fn rotations_of_a_cycle_agree() {
    let a = run(">0\nTACGTA\n", 3, false);
    let b = run(">0\nCGTACG\n", 3, false);
    let c = run(">0\nGTACGT\n", 3, false);
    assert_eq!(a.0, "ACGTAC\n");
    assert_eq!(a, b);
    assert_eq!(b, c);
}

#[test]
fn every_record_is_circular_when_k_is_one() {
    assert_eq!(run(">0\nACA\n", 1, true), (">0 CIRCULAR\nAAC\n".to_string(), 1, 3));
}

#[test]
fn records_are_sorted_and_kmers_summed() {
    let out = run(">0\nTTGCA\n>1\nGATC\n>2\nCCCAT\n", 3, false);
    assert_eq!(out, ("ATGGG\nGATC\nTGCAA\n".to_string(), 3, 8));
}

#[test]
fn shuffled_input_gives_same_output() {
    let a = run(">0\nTTGCA\n>1\nGATC\n>2\nCCCAT\n", 3, false);
    let b = run(">0\nCCCAT\n>1\nTTGCA\n>2\nGATC\n", 3, false);
    assert_eq!(a, b);
}

#[test]
fn continuation_lines_are_joined() {
    assert_eq!(run(">x\nAC\nGT\nT\n>y\nTTT\n", 2, false), ("AAA\nAACGT\n".to_string(), 2, 6));
}

#[test]
fn links_follow_the_new_order() {
    let out = run(">0 L:+:1:-\nGGGAC\n>1 L:-:0:+\nAATTC\n>2\nCATG\n", 3, true);
    assert_eq!(out, (">0 L:-:2:+\nAATTC\n>1\nCATG\n>2 L:+:0:-\nGGGAC\n".to_string(), 3, 8));
}

#[test]
fn link_round_trip_through_flipped_records() {
    let out = run(">0 L:+:1:-\nGTCCC\n>1 L:-:0:+\nGAATT\n>2\nCATG\n", 3, true);
    assert_eq!(out.0, ">0 L:+:2:-\nAATTC\n>1\nCATG\n>2 L:-:0:+\nGGGAC\n");
    // record 0 (now 2, flipped) links to record 1 (now 0, flipped): both signs flip
    assert!(out.0.contains(">2 L:-:0:+\n"));
    assert!(out.0.contains(">0 L:+:2:-\n"));
}

#[test]
fn links_are_sorted_and_renumbered() {
    let out = run(">5 L:+:7:+ L:-:5:-\nTTTGA\n>7 L:+:5:-\nGAC\n", 3, true);
    assert_eq!(out, (">0 L:+:1:+\nGAC\n>1 L:+:1:+ L:-:0:+\nTCAAA\n".to_string(), 2, 4));
}

#[test]
fn second_pass_changes_nothing() {
    let first = run(">0 L:+:2:-\nTTGCA\n>1 L:-:1:-\nCGTACG\n>2 L:+:0:+\nGATC\n", 3, true);
    assert_eq!(first.0, ">0 L:+:0:+ CIRCULAR\nACGTAC\n>1 L:+:2:-\nGATC\n>2 L:-:1:-\nTGCAA\n");
    let second = run(&first.0, 3, true);
    assert_eq!(first, second);
}

#[test]
fn empty_input_gives_empty_output() {
    assert_eq!(run("", 3, false), (String::new(), 0, 0));
}

#[test]
fn unpaired_last_field_is_dropped() {
    assert_eq!(run(">0\nAACG\n>1\n", 3, false), ("AACG\n".to_string(), 1, 2));
}

#[test]
fn short_record_is_rejected() {
    assert_eq!(run_err(">0\nAACG\n>1\nAC\n", 3, false), CanonError::Record { record: 1, error: RecordError::TooShort });
}

#[test]
fn unknown_symbol_is_rejected() {
    assert_eq!(
        run_err(">0\nAANG\n", 3, false),
        CanonError::Record { record: 0, error: RecordError::InvalidBase { position: 2, byte: b'N' } }
    );
}

#[test]
fn header_without_index_is_rejected() {
    assert_eq!(
        run_err(">x\nAACG\n", 3, true),
        CanonError::Record { record: 0, error: RecordError::Header(HeaderError::MissingIndex) }
    );
}

#[test]
fn oversized_link_target_is_rejected() {
    assert_eq!(
        run_err(">0 L:+:99999999999999999999999:+\nAACG\n", 3, true),
        CanonError::Record { record: 0, error: RecordError::Header(HeaderError::NumberTooLarge) }
    );
}

#[test]
fn link_to_missing_record_is_rejected() {
    assert_eq!(
        run_err(">0 L:+:0:+\nAACG\n>1 L:+:4:-\nGGGA\n", 3, true),
        CanonError::UnknownLinkTarget { record: 1, target: 4 }
    );
}

#[test]
fn plain_mode_ignores_headers() {
    assert_eq!(run(">x L:+:4:-\nAACG\n", 3, false), ("AACG\n".to_string(), 1, 2));
}

#[test]
fn equal_canonical_bytes_keep_input_order() {
    let out = run(">0 L:+:1:+\nAAC\n>1 L:-:0:-\nGTT\n", 3, true);
    assert_eq!(out, (">0 L:+:1:-\nAAC\n>1 L:+:0:-\nAAC\n".to_string(), 2, 2));
}

#[test]
fn shuffled_linked_input_gives_same_output() {
    let a = run(">0 L:+:1:+\nAAC\n>1 L:-:0:-\nGTT\n", 3, true);
    let b = run(">1 L:-:0:-\nGTT\n>0 L:+:1:+\nAAC\n", 3, true);
    assert_eq!(a, b);
}

#[test]
fn repeated_index_resolves_to_last_record() {
    let out = run(">3\nAAC\n>3\nGTT\n>4 L:+:3:+\nCCC\n", 3, true);
    assert_eq!(out, (">0\nAAC\n>1\nAAC\n>2 L:+:1:- CIRCULAR\nCCC\n".to_string(), 3, 3));
}

#[test]
fn reversed_rotation_gives_same_bytes() {
    let expected = (">0 CIRCULAR\nAACGAA\n".to_string(), 1, 4);
    assert_eq!(run(">0\nAACGAA\n", 3, true), expected);
    assert_eq!(run(">0\nCGAACG\n", 3, true), expected);
    assert_eq!(run(">0\nCGTTCG\n", 3, true), expected);
}

#[test]
fn tie_keeps_first_left_turn() {
    assert_eq!(run(">0 L:+:0:+\nCATG\n", 1, true), (">0 L:+:0:+ CIRCULAR\nATGC\n".to_string(), 1, 4));
    assert_eq!(run(">0 L:+:0:+\nTCGA\n", 1, true), (">0 L:-:0:- CIRCULAR\nATCG\n".to_string(), 1, 4));
}
