use reputils::utils::alignment::{Alignment, Sequence};
use reputils::utils::tsd::{
    count_kmers, has_gap, is_subslice, remove_redundant, same_bytes, AlignHash, KmerCounts,
    TSDHash,
};

fn alignment_of(rows: &[(&str, &str)]) -> Alignment {
    let mut alignment = Alignment::new();
    for (name, symbols) in rows {
        alignment.add_sequence(Sequence {
            name: name.to_string(),
            sequence: symbols.as_bytes().to_vec(),
        });
    }
    alignment
}

fn tally_of(kmers: &[&str]) -> KmerCounts {
    let mut counts = KmerCounts::new();
    for kmer in kmers {
        counts.record(kmer.as_bytes().to_vec());
    }
    counts
}

fn listed(counts: &KmerCounts) -> Vec<(String, usize)> {
    counts
        .entries
        .iter()
        .map(|(kmer, count)| (String::from_utf8(kmer.clone()).unwrap(), *count))
        .collect()
}

fn pairs(entries: &[(&str, usize)]) -> Vec<(String, usize)> {
    entries.iter().map(|(kmer, count)| (kmer.to_string(), *count)).collect()
}

fn texts(kmers: &[Vec<u8>]) -> Vec<String> {
    kmers.iter().map(|kmer| String::from_utf8(kmer.clone()).unwrap()).collect()
}

fn bytes(kmers: &[&str]) -> Vec<Vec<u8>> {
    kmers.iter().map(|kmer| kmer.as_bytes().to_vec()).collect()
}

#[test]
fn tally_counts_in_order_of_first_occurrence() {
    let counts = tally_of(&["AC", "GT", "AC", "AC", "TT", "GT"]);
    assert_eq!(listed(&counts), pairs(&[("AC", 3), ("GT", 2), ("TT", 1)]));
    assert_eq!(counts.count(&b"AC".to_vec()), 3);
    assert_eq!(counts.count(&b"TT".to_vec()), 1);
    assert_eq!(counts.count(&b"CA".to_vec()), 0);
    assert_eq!(counts.position(&b"GT".to_vec()), Some(1));
    assert_eq!(counts.position(&b"CA".to_vec()), None);
    assert!(KmerCounts::new().entries.is_empty());
}

#[test]
fn bytes_compared() {
    assert!(same_bytes(&b"ACG".to_vec(), &b"ACG".to_vec()));
    assert!(!same_bytes(&b"ACG".to_vec(), &b"ACT".to_vec()));
    assert!(!same_bytes(&b"ACG".to_vec(), &b"AC".to_vec()));
    assert!(same_bytes(&Vec::new(), &Vec::new()));
}

#[test]
fn gap_in_a_kmer() {
    assert!(has_gap(&b"AC-T".to_vec()));
    assert!(has_gap(&b"-".to_vec()));
    assert!(!has_gap(&b"ACNT".to_vec()));
    assert!(!has_gap(&Vec::new()));
}

#[test]
fn windows_of_a_region_are_tallied() {
    let counts = count_kmers(&b"AAAAC".to_vec(), 2);
    assert_eq!(listed(&counts), pairs(&[("AA", 3), ("AC", 1)]));
    let counts = count_kmers(&b"ACGAC".to_vec(), 3);
    assert_eq!(listed(&counts), pairs(&[("ACG", 1), ("CGA", 1), ("GAC", 1)]));
    let counts = count_kmers(&b"ACG".to_vec(), 3);
    assert_eq!(listed(&counts), pairs(&[("ACG", 1)]));
}

#[test]
fn windows_with_a_gap_are_not_tallied() {
    let counts = count_kmers(&b"AC-GT".to_vec(), 2);
    assert_eq!(listed(&counts), pairs(&[("AC", 1), ("GT", 1)]));
    assert!(count_kmers(&b"A-C-G".to_vec(), 2).entries.is_empty());
}

#[test]
fn window_longer_than_the_region() {
    assert!(count_kmers(&b"ACG".to_vec(), 4).entries.is_empty());
    assert!(count_kmers(&Vec::new(), 1).entries.is_empty());
}

#[test]
fn subslices() {
    assert!(is_subslice(&b"CG".to_vec(), &b"ACGT".to_vec()));
    assert!(is_subslice(&b"ACGT".to_vec(), &b"ACGT".to_vec()));
    assert!(is_subslice(&b"GT".to_vec(), &b"ACGT".to_vec()));
    assert!(is_subslice(&Vec::new(), &b"ACGT".to_vec()));
    assert!(is_subslice(&Vec::new(), &Vec::new()));
    assert!(!is_subslice(&b"CT".to_vec(), &b"ACGT".to_vec()));
    assert!(!is_subslice(&b"ACGTA".to_vec(), &b"ACGT".to_vec()));
    assert!(!is_subslice(&b"cg".to_vec(), &b"ACGT".to_vec()));
}

#[test]
fn one_entry_for_each_row_and_window_length() {
    let alignment = alignment_of(&[("one", "ACGTTTACG"), ("two", "TTTTTTTTT")]);
    let tsd = alignment.to_tsd_hash(3, 2, 3);
    assert_eq!(tsd.0.len(), 4);
    let heads: Vec<(String, usize)> =
        tsd.0.iter().map(|entry| (entry.name.clone(), entry.window)).collect();
    assert_eq!(
        heads,
        vec![
            ("one".to_string(), 2),
            ("one".to_string(), 3),
            ("two".to_string(), 2),
            ("two".to_string(), 3)
        ]
    );
    assert_eq!(listed(&tsd.0[0].left), pairs(&[("AC", 1), ("CG", 1)]));
    assert_eq!(listed(&tsd.0[0].right), pairs(&[("AC", 1), ("CG", 1)]));
    assert_eq!(listed(&tsd.0[1].left), pairs(&[("ACG", 1)]));
    assert_eq!(listed(&tsd.0[1].right), pairs(&[("ACG", 1)]));
    assert_eq!(listed(&tsd.0[2].left), pairs(&[("TT", 2)]));
    assert_eq!(listed(&tsd.0[3].right), pairs(&[("TTT", 1)]));
}

#[test]
fn right_end_is_the_last_symbols() {
    let alignment = alignment_of(&[("one", "ACGTTTTGCA")]);
    let tsd = alignment.to_tsd_hash(4, 4, 4);
    assert_eq!(tsd.0.len(), 1);
    assert_eq!(listed(&tsd.0[0].left), pairs(&[("ACGT", 1)]));
    assert_eq!(listed(&tsd.0[0].right), pairs(&[("TGCA", 1)]));
}

#[test]
fn window_lengths_beyond_the_ends_give_empty_entries() {
    let alignment = alignment_of(&[("one", "ACGTACGT")]);
    let tsd = alignment.to_tsd_hash(2, 1, 3);
    assert_eq!(tsd.0.len(), 3);
    assert_eq!(listed(&tsd.0[0].left), pairs(&[("A", 1), ("C", 1)]));
    assert_eq!(listed(&tsd.0[1].left), pairs(&[("AC", 1)]));
    assert!(tsd.0[2].left.entries.is_empty());
    assert!(tsd.0[2].right.entries.is_empty());
}

#[test]
fn no_window_length_gives_no_entry() {
    let alignment = alignment_of(&[("one", "ACGTACGT")]);
    assert!(alignment.to_tsd_hash(3, 3, 2).0.is_empty());
}

#[test]
fn merging_keeps_shared_kmers_and_adds_counts() {
    let left = tally_of(&["AC", "GT", "AC", "TT"]);
    let right = tally_of(&["TT", "AC", "CC", "TT"]);
    let merged = TSDHash::merge_hashmaps(&left, &right);
    assert_eq!(listed(&merged), pairs(&[("AC", 3), ("TT", 3)]));
    let merged = TSDHash::merge_hashmaps(&right, &left);
    assert_eq!(listed(&merged), pairs(&[("TT", 3), ("AC", 3)]));
    assert!(TSDHash::merge_hashmaps(&left, &KmerCounts::new()).entries.is_empty());
}

#[test]
fn redundant_candidates_are_removed() {
    let kept = remove_redundant(&bytes(&["AC", "CG", "ACG", "TT"]));
    assert_eq!(texts(&kept), vec!["ACG", "TT"]);
    let kept = remove_redundant(&bytes(&["ACGT", "CG", "ACG", "GT", "TTT"]));
    assert_eq!(texts(&kept), vec!["ACGT", "TTT"]);
    assert!(remove_redundant(&Vec::new()).is_empty());
}

#[test]
fn equal_candidates_do_not_remove_each_other() {
    let kept = remove_redundant(&bytes(&["AC", "AC", "GT"]));
    assert_eq!(texts(&kept), vec!["AC", "AC", "GT"]);
}

#[test]
fn merge_returns_only_maximal_candidates() {
    let alignment = alignment_of(&[("one", "ACGTTTACG")]);
    let groups = alignment.to_tsd_hash(3, 2, 3).merge();
    assert_eq!(groups.len(), 1);
    assert_eq!(groups[0].name, "one");
    assert_eq!(texts(&groups[0].candidates), vec!["ACG"]);
}

#[test]
fn merge_never_returns_a_part_of_another_candidate() {
    let alignment = alignment_of(&[
        ("one", "ACGTAGGTTTTTTTCGTAGACG"),
        ("two", "TTTTTTTTTTTTTTTTTTTTTT"),
        ("three", "ACACACACGGGGGGACACACAC"),
    ]);
    let groups = alignment.to_tsd_hash(8, 2, 6).merge();
    assert_eq!(groups.len(), 3);
    for group in &groups {
        for first in &group.candidates {
            for second in &group.candidates {
                if first != second {
                    assert!(!is_subslice(first, second));
                }
            }
        }
    }
    assert_eq!(texts(&groups[1].candidates), vec!["TTTTTT"]);
    assert_eq!(texts(&groups[2].candidates), vec!["ACACAC", "CACACA"]);
}

#[test]
fn merge_groups_by_name_in_order_of_first_occurrence() {
    let alignment = alignment_of(&[("b", "ACTTTTAC"), ("a", "GGTTTTCC"), ("c", "TGTTTTTG")]);
    let groups = alignment.to_tsd_hash(2, 1, 2).merge();
    let names: Vec<String> = groups.iter().map(|group| group.name.clone()).collect();
    assert_eq!(names, vec!["b", "a", "c"]);
    assert_eq!(texts(&groups[0].candidates), vec!["AC"]);
    assert!(groups[1].candidates.is_empty());
    assert_eq!(texts(&groups[2].candidates), vec!["TG"]);
}

#[test]
fn merge_is_case_sensitive_and_skips_gaps() {
    let alignment = alignment_of(&[("lower", "acgTTTACG"), ("gaps", "A-GTTTA-G")]);
    let groups = alignment.to_tsd_hash(3, 1, 3).merge();
    assert_eq!(groups.len(), 2);
    assert!(groups[0].candidates.is_empty());
    assert_eq!(texts(&groups[1].candidates), vec!["A", "G"]);
}

#[test]
fn merge_joins_entries_of_the_same_name() {
    let mut tsd = TSDHash::new();
    tsd.add_entry(AlignHash {
        name: "x".to_string(),
        window: 2,
        left: tally_of(&["AC", "GT"]),
        right: tally_of(&["GT", "AC"]),
    });
    tsd.add_entry(AlignHash {
        name: "y".to_string(),
        window: 2,
        left: tally_of(&["CC"]),
        right: tally_of(&["CC"]),
    });
    tsd.add_entry(AlignHash {
        name: "x".to_string(),
        window: 3,
        left: tally_of(&["ACT", "TTT"]),
        right: tally_of(&["TTT", "ACT"]),
    });
    let names: Vec<String> = tsd.names();
    assert_eq!(names, vec!["x", "y"]);
    assert_eq!(texts(&tsd.candidates(&"x".to_string())), vec!["AC", "GT", "ACT", "TTT"]);
    let groups = tsd.merge();
    assert_eq!(groups.len(), 2);
    assert_eq!(texts(&groups[0].candidates), vec!["GT", "ACT", "TTT"]);
    assert_eq!(texts(&groups[1].candidates), vec!["CC"]);
}

#[test]
fn merge_of_no_entries() {
    assert!(TSDHash::new().merge().is_empty());
}
