use bio::alignment::pairwise::Aligner;
use bio::alignment::AlignmentOperation;
use reputils::tir::{
    can_align, is_ascii, match_score, operation_runs, revcomp_alignment, self_alignment,
    MAX_ALIGNED,
};
use reputils::utils::alignment::{Alignment, Refusal, Sequence};
use reputils::utils::operation::AlignmentOp;
use reputils::utils::revcomp::{complement, reverse_complement};
use reputils::utils::seqcount::SequentialCount;

fn alignment_of(rows: &[&str]) -> Alignment {
    let mut alignment = Alignment::new();
    for (i, symbols) in rows.iter().enumerate() {
        alignment.add_sequence(Sequence {
            name: format!("row{}", i),
            sequence: symbols.as_bytes().to_vec(),
        });
    }
    alignment
}

fn converted(op: &AlignmentOperation) -> AlignmentOp {
    match op {
        AlignmentOperation::Match => AlignmentOp::Match,
        AlignmentOperation::Subst => AlignmentOp::Subst,
        AlignmentOperation::Del => AlignmentOp::Del,
        AlignmentOperation::Ins => AlignmentOp::Ins,
        AlignmentOperation::Xclip(n) => AlignmentOp::Xclip(*n),
        AlignmentOperation::Yclip(n) => AlignmentOp::Yclip(*n),
    }
}

fn runs_of(ops: &[AlignmentOp], limit: usize) -> Vec<(usize, usize, AlignmentOp, usize)> {
    operation_runs(&ops.to_vec(), limit)
        .iter()
        .map(|run| (run.start, run.end, run.operation, run.count))
        .collect()
}

#[test]
fn complement_of_each_base() {
    assert_eq!(complement(b'A'), b'T');
    assert_eq!(complement(b'T'), b'A');
    assert_eq!(complement(b'C'), b'G');
    assert_eq!(complement(b'G'), b'C');
    assert_eq!(complement(b'a'), b't');
    assert_eq!(complement(b't'), b'a');
    assert_eq!(complement(b'c'), b'g');
    assert_eq!(complement(b'g'), b'c');
    assert_eq!(complement(b'N'), b'N');
    assert_eq!(complement(b'-'), b'-');
    assert_eq!(complement(b'?'), b'?');
}

#[test]
fn reverse_complement_of_a_sequence() {
    assert_eq!(reverse_complement(b"AACCC"), b"GGGTT".to_vec());
    assert_eq!(reverse_complement(b"ACGT"), b"ACGT".to_vec());
    assert_eq!(reverse_complement(b"acgN-T"), b"A-Ncgt".to_vec());
    assert!(reverse_complement(b"").is_empty());
}

#[test]
fn reverse_complement_twice_is_the_sequence() {
    let seq = b"ACGTTGCANNacgt-?RY".to_vec();
    assert_eq!(reverse_complement(&reverse_complement(&seq)), seq);
}

#[test]
fn score_of_two_symbols() {
    assert_eq!(match_score(b'A', b'A'), 1);
    assert_eq!(match_score(b'A', b'C'), -1);
    assert_eq!(match_score(b'a', b'A'), -1);
}

#[test]
fn runs_of_equal_items() {
    let mut runs = SequentialCount::new(vec![1u8, 1, 2, 2, 2, 3]);
    assert_eq!(runs.next(), Some((1, 2)));
    assert_eq!(runs.position, 2);
    assert_eq!(runs.next(), Some((2, 3)));
    assert_eq!(runs.next(), Some((3, 1)));
    assert_eq!(runs.next(), None);
    assert_eq!(runs.next(), None);
    assert_eq!(runs.position, 6);
    assert_eq!(runs.items, vec![1u8, 1, 2, 2, 2, 3]);
}

#[test]
fn runs_of_nothing_and_of_one_item() {
    let mut runs = SequentialCount::new(Vec::<u8>::new());
    assert_eq!(runs.next(), None);
    let mut runs = SequentialCount::new(vec![7u8]);
    assert_eq!(runs.next(), Some((7, 1)));
    assert_eq!(runs.next(), None);
}

#[test]
fn runs_of_operations() {
    let ops = [
        AlignmentOp::Match,
        AlignmentOp::Match,
        AlignmentOp::Match,
        AlignmentOp::Subst,
        AlignmentOp::Match,
        AlignmentOp::Match,
        AlignmentOp::Ins,
        AlignmentOp::Ins,
    ];
    assert_eq!(
        runs_of(&ops, 10),
        vec![
            (0, 3, AlignmentOp::Match, 3),
            (3, 4, AlignmentOp::Subst, 1),
            (4, 6, AlignmentOp::Match, 2),
            (6, 8, AlignmentOp::Ins, 2)
        ]
    );
    assert_eq!(
        runs_of(&ops, 2),
        vec![(0, 3, AlignmentOp::Match, 3), (3, 4, AlignmentOp::Subst, 1)]
    );
    assert!(runs_of(&ops, 0).is_empty());
    assert!(runs_of(&[], 10).is_empty());
}

#[test]
fn clips_of_different_lengths_are_different_runs() {
    let ops = [AlignmentOp::Xclip(2), AlignmentOp::Xclip(2), AlignmentOp::Xclip(3)];
    assert_eq!(
        runs_of(&ops, 10),
        vec![(0, 2, AlignmentOp::Xclip(2), 2), (2, 3, AlignmentOp::Xclip(3), 1)]
    );
    assert_ne!(AlignmentOp::Xclip(2), AlignmentOp::Yclip(2));
    assert_ne!(AlignmentOp::Del, AlignmentOp::Ins);
}

#[test]
fn lengths_that_can_be_aligned() {
    assert!(can_align(0, 0));
    assert!(can_align(1000, 1000));
    assert!(can_align(MAX_ALIGNED, MAX_ALIGNED));
    assert!(!can_align(MAX_ALIGNED + 1, 10));
    assert!(!can_align(10, MAX_ALIGNED + 1));
    assert!(!can_align(usize::MAX, usize::MAX));
}

#[test]
fn palindrome_aligns_with_itself() {
    // The reverse complement of ACGT is ACGT.
    let found = self_alignment(b"ACGT").unwrap();
    assert_eq!(found.alignment.score, 4);
    assert_eq!((found.alignment.xstart, found.alignment.xend), (0, 4));
    assert_eq!((found.alignment.ystart, found.alignment.yend), (0, 4));
    assert_eq!(found.alignment.operations, vec![AlignmentOp::Match; 4]);
    assert_eq!(found.printable, Some("ACGT\n||||\nACGT\n\n\n".to_string()));
}

#[test]
fn self_alignment_is_that_of_the_aligner() {
    let sequences: [&[u8]; 5] =
        [b"AACCC", b"ACGTTTTTTTACGGT", b"TTTTTTTT", b"A", b"GGGGCCCCATATTTTTGGGGCCCA"];
    for forward in sequences {
        let reverse = reverse_complement(forward);
        let score = |a: u8, b: u8| if a == b { 1i32 } else { -1i32 };
        let mut aligner = Aligner::with_capacity(forward.len(), reverse.len(), -5, -1, &score);
        let expected = aligner.semiglobal(forward, &reverse);
        let found = self_alignment(forward).unwrap();
        assert_eq!(found.alignment.score, expected.score);
        assert_eq!(found.alignment.xstart, expected.xstart);
        assert_eq!(found.alignment.xend, expected.xend);
        assert_eq!(found.alignment.ystart, expected.ystart);
        assert_eq!(found.alignment.yend, expected.yend);
        let operations: Vec<AlignmentOp> = expected.operations.iter().map(converted).collect();
        assert_eq!(found.alignment.operations, operations);
        assert!(!found.alignment.operations.is_empty());
        assert_eq!(found.printable, Some(expected.pretty(forward, &reverse, 100)));
    }
}

#[test]
fn printable_form_shows_the_two_sequences() {
    // AACCC against GGGTT: no symbol matches.
    let found = self_alignment(b"AACCC").unwrap();
    let text = found.printable.unwrap();
    let lines: Vec<&str> = text.split('\n').collect();
    assert_eq!(lines[0].trim(), "AACCC");
    assert!(lines[2].contains("GGGTT"));
}

#[test]
fn long_alignments_are_printed_in_lines_of_a_hundred() {
    let forward = vec![b'A'; 150];
    let found = self_alignment(&forward).unwrap();
    let text = found.printable.unwrap();
    let lines: Vec<&str> = text.split('\n').filter(|line| !line.is_empty()).collect();
    assert_eq!(lines.len(), 6);
    for line in &lines {
        assert!(line.len() <= 100);
    }
}

#[test]
fn symbols_that_are_not_ascii_are_aligned_but_not_printed() {
    let found = self_alignment(&[b'A', 0xC3, b'T']).unwrap();
    assert_eq!(found.alignment.operations.len(), 3);
    assert_eq!(found.printable, None);
}

#[test]
fn ascii_symbols() {
    assert!(is_ascii(b"ACGT-?n"));
    assert!(is_ascii(b""));
    assert!(is_ascii(&[0, 127]));
    assert!(!is_ascii(&[b'A', 128]));
    assert!(!is_ascii(&[255]));
}

#[test]
fn self_alignment_of_nothing() {
    let found = self_alignment(b"").unwrap();
    assert_eq!(found.alignment.score, 0);
    assert!(found.alignment.operations.is_empty());
    assert_eq!(found.printable, Some(String::new()));
}

#[test]
fn evidence_from_identical_rows() {
    let row = "ACGTTTAAACGT";
    let evidence = revcomp_alignment(alignment_of(&[row, row, row])).unwrap();
    assert_eq!(evidence.forward, row.as_bytes().to_vec());
    // ACGTTTAAACGT is its own reverse complement.
    assert_eq!(evidence.found.alignment.score, 12);
    assert_eq!(evidence.found.alignment.operations, vec![AlignmentOp::Match; 12]);
    assert_eq!(
        evidence.found.printable,
        Some("ACGTTTAAACGT\n||||||||||||\nACGTTTAAACGT\n\n\n".to_string())
    );
    assert_eq!(evidence.runs.len(), 1);
    assert_eq!(
        (evidence.runs[0].start, evidence.runs[0].end, evidence.runs[0].count),
        (0, 12, 12)
    );
    assert_eq!(evidence.runs[0].operation, AlignmentOp::Match);
}

#[test]
fn evidence_from_the_conserved_core() {
    // Columns 0 and 1 are mostly gaps; the core starts at column 2, and
    // the 15 columns of extension take in the whole alignment.
    let alignment = alignment_of(&["--ACGTAC", "--ACGTAC", "-TACGTAC", "A-ACGTAC"]);
    let evidence = revcomp_alignment(alignment).unwrap();
    assert_eq!(evidence.forward, b"ACGTAC".to_vec());
    assert!(evidence.runs.len() <= 10);
    let mut end = 0;
    for run in &evidence.runs {
        assert_eq!(run.start, end);
        assert_eq!(run.end - run.start, run.count);
        end = run.end;
    }
}

#[test]
fn evidence_is_refused() {
    assert_eq!(revcomp_alignment(alignment_of(&[])).err(), Some(Refusal::NoSequences));
    assert_eq!(
        revcomp_alignment(alignment_of(&["ACG", "AC"])).err(),
        Some(Refusal::UnequalLengths)
    );
}

#[test]
fn sequence_too_long_to_be_aligned() {
    let forward = vec![b'A'; MAX_ALIGNED + 1];
    assert!(self_alignment(&forward).is_none());
}

#[test]
fn evidence_is_refused_for_a_consensus_that_is_too_long() {
    let row = "A".repeat(MAX_ALIGNED + 1);
    let alignment = alignment_of(&[&row, &row]);
    assert_eq!(revcomp_alignment(alignment).err(), Some(Refusal::TooLong));
}
