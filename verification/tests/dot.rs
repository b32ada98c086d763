use reputils::dot::{dot_matrix, match_case};
use reputils::utils::windows::SeqWindows;

#[test]
fn kmers_match_within_the_tolerance() {
    assert!(match_case(b"ACGT", b"ACGT", 0));
    assert!(!match_case(b"ACGT", b"ACGA", 0));
    assert!(match_case(b"ACGT", b"ACGA", 1));
    assert!(!match_case(b"ACGT", b"TCGA", 1));
    assert!(match_case(b"ACGT", b"TCGA", 2));
    assert!(match_case(b"", b"", 0));
}

#[test]
fn kmers_with_unknown_symbols_never_match() {
    assert!(!match_case(b"AC-T", b"AC-T", 4));
    assert!(!match_case(b"ACGT", b"ACNT", 4));
    assert!(!match_case(b"ACnT", b"ACGT", 4));
    assert!(!match_case(b"ACGT", b"AC?T", 4));
}

#[test]
fn windows_one_after_the_other() {
    let mut windows = SeqWindows::new(b"ACGTACGTAC", 4, 3);
    assert_eq!(windows.next(), Some(&b"ACGT"[..]));
    assert_eq!(windows.next(), Some(&b"TACG"[..]));
    assert_eq!(windows.next(), Some(&b"GTAC"[..]));
    assert_eq!(windows.next(), None);
    assert_eq!(windows.next(), None);
    assert_eq!(windows.size, 4);
    assert_eq!(windows.step, 3);
}

#[test]
fn step_beyond_what_is_left() {
    let mut windows = SeqWindows::new(b"ACG", 2, 5);
    assert_eq!(windows.next(), Some(&b"AC"[..]));
    assert_eq!(windows.next(), None);
    assert!(windows.seq.is_empty());
}

#[test]
fn all_windows_at_once() {
    let windows = SeqWindows::new(b"ACGTACGTAC", 4, 3).remaining();
    assert_eq!(windows, vec![&b"ACGT"[..], &b"TACG"[..], &b"GTAC"[..]]);
    let windows = SeqWindows::new(b"ACGTACGTAC", 10, 1).remaining();
    assert_eq!(windows, vec![&b"ACGTACGTAC"[..]]);
    assert!(SeqWindows::new(b"ACG", 4, 1).remaining().is_empty());
    let windows = SeqWindows::new(b"ACG", 1, usize::MAX).remaining();
    assert_eq!(windows, vec![&b"A"[..]]);
}

#[test]
fn dot_matrix_of_a_repeat() {
    // Windows: ACG, GAC, CGA (size 3, step 2 over ACGACGA).
    let matrix = dot_matrix(b"ACGACGA", 3, 2, 0);
    assert_eq!(
        matrix,
        vec![
            vec![true, false, false],
            vec![false, true, false],
            vec![false, false, true]
        ]
    );
    // Windows: ACG, CGA, GAC, ACG, CGA (size 3, step 1).
    let matrix = dot_matrix(b"ACGACGA", 3, 1, 0);
    assert_eq!(matrix.len(), 5);
    assert_eq!(matrix[0], vec![true, false, false, true, false]);
    assert_eq!(matrix[1], vec![false, true, false, false, true]);
    assert_eq!(matrix[2], vec![false, false, true, false, false]);
}

#[test]
fn dot_matrix_with_unknown_symbols_and_tolerance() {
    // Windows: AC, -G, TT.
    let matrix = dot_matrix(b"AC-GTT", 2, 2, 2);
    assert_eq!(
        matrix,
        vec![
            vec![true, false, true],
            vec![false, false, false],
            vec![true, false, true]
        ]
    );
    assert!(dot_matrix(b"AC", 3, 1, 0).is_empty());
}
