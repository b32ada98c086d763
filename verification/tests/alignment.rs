use reputils::utils::alignment::{copy_range, profile_column, Alignment, Refusal, Sequence};

fn alignment_of(rows: &[(&str, &str)]) -> Alignment {
    let mut alignment = Alignment::new();
    for (name, symbols) in rows {
        alignment.add_sequence(Sequence {
            name: name.to_string(),
            sequence: symbols.as_bytes().to_vec(),
        });
    }
    alignment
}

#[test]
fn sequence_length() {
    let seq = Sequence { name: "s".to_string(), sequence: b"ACGT-".to_vec() };
    assert_eq!(seq.len(), 5);
    assert!(!seq.is_empty());
    let empty = Sequence { name: "e".to_string(), sequence: Vec::new() };
    assert_eq!(empty.len(), 0);
    assert!(empty.is_empty());
}

#[test]
fn add_and_clear() {
    let mut alignment = Alignment::new();
    assert!(alignment.matrix.is_empty());
    alignment.add_sequence(Sequence { name: "one".to_string(), sequence: b"AC".to_vec() });
    alignment.add_sequence(Sequence { name: "two".to_string(), sequence: b"GT".to_vec() });
    assert_eq!(alignment.matrix.len(), 2);
    assert_eq!(alignment.matrix[0].name, "one");
    assert_eq!(alignment.matrix[1].sequence, b"GT".to_vec());
    alignment.clear();
    assert!(alignment.matrix.is_empty());
}

#[test]
fn transpose_has_one_entry_per_column_and_one_symbol_per_row() {
    let alignment = alignment_of(&[("one", "ACGT-"), ("two", "AC-TT"), ("three", "GGGGG")]);
    let t = alignment.transpose();
    assert_eq!(t.len(), 5);
    for column in &t {
        assert_eq!(column.len(), 3);
    }
    assert_eq!(t[0], b"AAG".to_vec());
    assert_eq!(t[1], b"CCG".to_vec());
    assert_eq!(t[2], b"G-G".to_vec());
    assert_eq!(t[3], b"TTG".to_vec());
    assert_eq!(t[4], b"-TG".to_vec());
}

#[test]
fn transpose_of_rows_without_symbols() {
    let alignment = alignment_of(&[("one", ""), ("two", "")]);
    assert!(alignment.transpose().is_empty());
}

#[test]
fn profile_of_alignment() {
    let alignment = alignment_of(&[("one", "AC"), ("two", "A-"), ("three", "aC")]);
    let profile = alignment.get_profile();
    assert_eq!(profile.len(), 2);
    assert_eq!(profile[0].get(&b'A'), Some(&2));
    assert_eq!(profile[0].get(&b'a'), Some(&1));
    assert_eq!(profile[0].len(), 2);
    assert_eq!(profile[1].get(&b'C'), Some(&2));
    assert_eq!(profile[1].get(&b'-'), Some(&1));
    assert_eq!(profile[1].get(&b'A'), None);
}

#[test]
fn profile_of_one_column() {
    let profile = profile_column(&b"AAC-A".to_vec());
    assert_eq!(profile.len(), 3);
    assert_eq!(profile.get(&b'A'), Some(&3));
    assert_eq!(profile.get(&b'C'), Some(&1));
    assert_eq!(profile.get(&b'-'), Some(&1));
    assert!(profile_column(&Vec::new()).is_empty());
}

#[test]
fn copy_of_a_range() {
    let v = b"ACGTAC".to_vec();
    assert_eq!(copy_range(&v, 1, 4), b"CGT".to_vec());
    assert_eq!(copy_range(&v, 0, 6), v);
    assert!(copy_range(&v, 3, 3).is_empty());
}

#[test]
fn rectangular_alignments() {
    assert!(alignment_of(&[]).is_rectangular());
    assert!(alignment_of(&[("one", "ACG")]).is_rectangular());
    assert!(alignment_of(&[("one", "ACG"), ("two", "TTT"), ("three", "---")]).is_rectangular());
    assert!(!alignment_of(&[("one", "ACG"), ("two", "TT")]).is_rectangular());
    assert!(!alignment_of(&[("one", "AC"), ("two", "ACG"), ("three", "AC")]).is_rectangular());
}

#[test]
fn alignments_that_are_no_matrix() {
    assert_eq!(alignment_of(&[]).refusal(), Some(Refusal::NoSequences));
    assert_eq!(
        alignment_of(&[("one", "ACG"), ("two", "TT")]).refusal(),
        Some(Refusal::UnequalLengths)
    );
    assert_eq!(alignment_of(&[("one", "ACG"), ("two", "TTT")]).refusal(), None);
    assert_eq!(alignment_of(&[("one", "")]).refusal(), None);
}
