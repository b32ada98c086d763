use reputils::utils::alignment::{Alignment, Sequence};
use reputils::utils::blocks::{BlockRecord, BlockRecords, Fraction, Threshold};

fn alignment_of(rows: &[(&str, &str)]) -> Alignment {
    let mut alignment = Alignment::new();
    for (name, symbols) in rows {
        alignment.add_sequence(Sequence {
            name: name.to_string(),
            sequence: symbols.as_bytes().to_vec(),
        });
    }
    alignment
}

fn blocks_at(positions: &[usize]) -> BlockRecords {
    let mut blocks = BlockRecords(Vec::new());
    for position in positions {
        blocks.add_record(BlockRecord {
            position: *position,
            identity: Fraction { num: 1, den: 1 },
            missing: Fraction { num: 0, den: 1 },
        });
    }
    blocks
}

fn positions_of(blocks: &BlockRecords) -> Vec<usize> {
    blocks.0.iter().map(|record| record.position).collect()
}

fn rows_of(alignment: &Alignment) -> Vec<(String, String)> {
    alignment
        .matrix
        .iter()
        .map(|row| (row.name.clone(), String::from_utf8(row.sequence.clone()).unwrap()))
        .collect()
}

fn named(rows: &[(&str, &str)]) -> Vec<(String, String)> {
    rows.iter().map(|(name, symbols)| (name.to_string(), symbols.to_string())).collect()
}

#[test]
fn fraction_against_threshold() {
    let half = Fraction { num: 1, den: 2 };
    assert!(half.is_below(&Threshold { num: 6, den: 10 }));
    assert!(!half.is_below(&Threshold { num: 5, den: 10 }));
    assert!(!half.is_below(&Threshold { num: 4, den: 10 }));
    assert!(half.is_above(&Threshold { num: 4, den: 10 }));
    assert!(!half.is_above(&Threshold { num: 5, den: 10 }));
    assert!(!half.is_above(&Threshold { num: 6, den: 10 }));
}

#[test]
fn fraction_against_negative_threshold() {
    let none = Fraction { num: 0, den: 4 };
    assert!(none.is_above(&Threshold { num: -1, den: 10 }));
    assert!(!none.is_below(&Threshold { num: -1, den: 10 }));
    assert!(!none.is_above(&Threshold { num: 0, den: 10 }));
    assert!(!none.is_below(&Threshold { num: 0, den: 10 }));
}

#[test]
fn fraction_of_largest_counts() {
    let all = Fraction { num: usize::MAX, den: usize::MAX };
    assert!(all.is_above(&Threshold { num: i64::MAX - 1, den: i64::MAX as u64 }));
    assert!(!all.is_above(&Threshold { num: 1, den: 1 }));
    assert!(all.is_below(&Threshold { num: i64::MAX, den: 1 }));
}

#[test]
fn conserved_columns_are_found() {
    let alignment = alignment_of(&[
        ("one", "AAAA-"),
        ("two", "AAAC-"),
        ("three", "AAGC-"),
        ("four", "ATGCA"),
    ]);
    let blocks =
        alignment.find_blocks(Threshold { num: 1, den: 10 }, Threshold { num: 7, den: 10 });
    assert_eq!(positions_of(&blocks), vec![0, 1, 3]);
    assert_eq!((blocks.0[0].identity.num, blocks.0[0].identity.den), (4, 4));
    assert_eq!((blocks.0[0].missing.num, blocks.0[0].missing.den), (0, 4));
    assert_eq!((blocks.0[1].identity.num, blocks.0[1].identity.den), (3, 4));
    assert_eq!((blocks.0[2].identity.num, blocks.0[2].identity.den), (3, 4));
}

#[test]
fn thresholds_are_strict() {
    let alignment = alignment_of(&[
        ("one", "AAAA-"),
        ("two", "AAAC-"),
        ("three", "AAGC-"),
        ("four", "ATGCA"),
    ]);
    // Identity 3/4 is not strictly above 3/4.
    let blocks =
        alignment.find_blocks(Threshold { num: 1, den: 10 }, Threshold { num: 3, den: 4 });
    assert_eq!(positions_of(&blocks), vec![0]);
    // Missingness 0 is not strictly below 0.
    let blocks = alignment.find_blocks(Threshold { num: 0, den: 1 }, Threshold { num: 0, den: 1 });
    assert!(blocks.0.is_empty());
}

#[test]
fn gap_dominated_column_has_identity_zero() {
    let alignment = alignment_of(&[("one", "-A"), ("two", "-A"), ("three", "-A"), ("four", "AA")]);
    // Every missingness passes; identity must be above 0.
    let blocks = alignment.find_blocks(Threshold { num: 2, den: 1 }, Threshold { num: 0, den: 1 });
    assert_eq!(positions_of(&blocks), vec![1]);
    // With a negative identity threshold the gap column is a block too.
    let blocks =
        alignment.find_blocks(Threshold { num: 2, den: 1 }, Threshold { num: -1, den: 1 });
    assert_eq!(positions_of(&blocks), vec![0, 1]);
    assert_eq!((blocks.0[0].identity.num, blocks.0[0].identity.den), (0, 4));
    assert_eq!((blocks.0[0].missing.num, blocks.0[0].missing.den), (3, 4));
}

#[test]
fn tie_for_the_modal_symbol_goes_to_the_smaller_symbol() {
    // Column 0: gap and A tie, the gap is the smaller symbol: identity 0.
    // Column 1: A and G tie, A is the modal symbol: identity 2/4.
    let alignment = alignment_of(&[("one", "-A"), ("two", "-A"), ("three", "AG"), ("four", "AG")]);
    let blocks =
        alignment.find_blocks(Threshold { num: 2, den: 1 }, Threshold { num: -1, den: 1 });
    assert_eq!(positions_of(&blocks), vec![0, 1]);
    assert_eq!(blocks.0[0].identity.num, 0);
    assert_eq!(blocks.0[0].missing.num, 2);
    assert_eq!(blocks.0[1].identity.num, 2);
    assert_eq!(blocks.0[1].missing.num, 0);
}

#[test]
fn no_conserved_column() {
    let alignment = alignment_of(&[("one", "AC"), ("two", "CA")]);
    let blocks =
        alignment.find_blocks(Threshold { num: 1, den: 10 }, Threshold { num: 8, den: 10 });
    assert!(blocks.0.is_empty());
}

#[test]
fn records_with_near_neighbours_are_unchanged() {
    let blocks = blocks_at(&[3, 4, 5, 9, 10]);
    assert_eq!(positions_of(&blocks.remove_isolates(1)), vec![3, 4, 5, 9, 10]);
    let blocks = blocks_at(&[0, 2, 4, 6]);
    assert_eq!(positions_of(&blocks.remove_isolates(2)), vec![0, 2, 4, 6]);
}

#[test]
fn isolated_record_is_dropped() {
    let blocks = blocks_at(&[3, 4, 20, 30, 31]);
    assert_eq!(positions_of(&blocks.remove_isolates(1)), vec![3, 4, 30, 31]);
    assert_eq!(positions_of(&blocks.remove_isolates(9)), vec![3, 4, 30, 31]);
    assert_eq!(positions_of(&blocks.remove_isolates(10)), vec![3, 4, 20, 30, 31]);
}

#[test]
fn one_near_neighbour_is_enough() {
    // 10 is far from 4 but next to 11.
    let blocks = blocks_at(&[3, 4, 10, 11, 30, 31]);
    assert_eq!(positions_of(&blocks.remove_isolates(1)), vec![3, 4, 10, 11, 30, 31]);
}

#[test]
fn first_and_last_record_go_by_their_one_neighbour() {
    let blocks = blocks_at(&[0, 10, 11, 30]);
    assert_eq!(positions_of(&blocks.remove_isolates(1)), vec![10, 11]);
    let blocks = blocks_at(&[5, 50]);
    assert!(blocks.remove_isolates(1).0.is_empty());
    let blocks = blocks_at(&[5, 6]);
    assert_eq!(positions_of(&blocks.remove_isolates(1)), vec![5, 6]);
}

#[test]
fn lone_record_and_no_record() {
    assert_eq!(positions_of(&blocks_at(&[7]).remove_isolates(1)), vec![7]);
    assert!(blocks_at(&[]).remove_isolates(1).0.is_empty());
}

#[test]
fn distance_of_next_hit_exactly_is_near() {
    let blocks = blocks_at(&[0, 5, 10]);
    assert_eq!(positions_of(&blocks.remove_isolates(5)), vec![0, 5, 10]);
    assert!(blocks.remove_isolates(4).0.is_empty());
    assert!(blocks.remove_isolates(0).0.is_empty());
}

#[test]
fn trim_to_the_whole_span_drops_the_last_column() {
    let alignment = alignment_of(&[("one", "ACGTAC"), ("two", "ACGTTT")]);
    let blocks = blocks_at(&[0, 1, 2, 3, 4, 5]);
    let trimmed = blocks.trim(alignment, 0, 1);
    assert_eq!(rows_of(&trimmed), named(&[("one", "ACGTA"), ("two", "ACGTT")]));
}

#[test]
fn trim_to_the_whole_span_with_extension_is_the_input() {
    let alignment = alignment_of(&[("one", "ACGTAC"), ("two", "ACGTTT")]);
    let blocks = blocks_at(&[0, 1, 2, 3, 4, 5]);
    let trimmed = blocks.trim(alignment, 1, 1);
    assert_eq!(rows_of(&trimmed), named(&[("one", "ACGTAC"), ("two", "ACGTTT")]));
}

#[test]
fn trim_without_blocks_is_the_input() {
    let alignment = alignment_of(&[("one", "ACGTAC"), ("two", "ACGTTT")]);
    let trimmed = blocks_at(&[]).trim(alignment, 0, 1);
    assert_eq!(rows_of(&trimmed), named(&[("one", "ACGTAC"), ("two", "ACGTTT")]));
    let alignment = alignment_of(&[("one", "ACGTAC"), ("two", "ACGTTT")]);
    let trimmed = blocks_at(&[2]).trim(alignment, 100, 1);
    assert_eq!(rows_of(&trimmed), named(&[("one", "ACGTAC"), ("two", "ACGTTT")]));
}

#[test]
fn trim_with_only_isolated_blocks_is_the_input() {
    let alignment = alignment_of(&[("one", "ACGTAC"), ("two", "ACGTTT")]);
    let trimmed = blocks_at(&[0, 3, 5]).trim(alignment, 0, 1);
    assert_eq!(rows_of(&trimmed), named(&[("one", "ACGTAC"), ("two", "ACGTTT")]));
}

#[test]
fn trim_to_the_conserved_span() {
    let alignment = alignment_of(&[("one", "ACGTACGT"), ("two", "TTGTACAA")]);
    let blocks = blocks_at(&[2, 3, 4, 5]);
    let trimmed = blocks.trim(alignment, 0, 1);
    assert_eq!(rows_of(&trimmed), named(&[("one", "GTA"), ("two", "GTA")]));
    let alignment = alignment_of(&[("one", "ACGTACGT"), ("two", "TTGTACAA")]);
    let trimmed = blocks.trim(alignment, 1, 1);
    assert_eq!(rows_of(&trimmed), named(&[("one", "CGTAC"), ("two", "TGTAC")]));
}

#[test]
fn trim_extension_stops_at_the_ends() {
    let alignment = alignment_of(&[("one", "ACGTACGT"), ("two", "TTGTACAA")]);
    let blocks = blocks_at(&[2, 3, 4, 5]);
    let trimmed = blocks.trim(alignment, 3, 1);
    assert_eq!(rows_of(&trimmed), named(&[("one", "ACGTACGT"), ("two", "TTGTACAA")]));
    let alignment = alignment_of(&[("one", "ACGTACGT"), ("two", "TTGTACAA")]);
    let trimmed = blocks.trim(alignment, usize::MAX, 1);
    assert_eq!(rows_of(&trimmed), named(&[("one", "ACGTACGT"), ("two", "TTGTACAA")]));
}

#[test]
fn trim_ignores_isolated_blocks() {
    let alignment = alignment_of(&[("one", "ACGTACGTAC"), ("two", "TTGTACAAAA")]);
    let blocks = blocks_at(&[0, 4, 5, 6, 9]);
    let trimmed = blocks.trim(alignment, 0, 1);
    assert_eq!(rows_of(&trimmed), named(&[("one", "AC"), ("two", "AC")]));
}

#[test]
fn trim_leaves_out_rows_that_cannot_be_sliced() {
    // The blocks lie beyond the end of the short row.
    let alignment = alignment_of(&[("long", "ACGTACGTACGTACGT"), ("short", "ACGT")]);
    let blocks = blocks_at(&[10, 11, 12]);
    let trimmed = blocks.trim(alignment, 0, 1);
    assert_eq!(rows_of(&trimmed), named(&[("long", "GT")]));
}

#[test]
fn blocks_found_then_trimmed() {
    let alignment = alignment_of(&[
        ("one", "A-ACGTAC--"),
        ("two", "-TACGTACG-"),
        ("three", "--ACGTAC-A"),
    ]);
    let blocks =
        alignment.find_blocks(Threshold { num: 1, den: 10 }, Threshold { num: 8, den: 10 });
    assert_eq!(positions_of(&blocks), vec![2, 3, 4, 5, 6, 7]);
    let trimmed = blocks.trim(alignment, 1, 1);
    assert_eq!(
        rows_of(&trimmed),
        named(&[("one", "-ACGTAC"), ("two", "TACGTAC"), ("three", "-ACGTAC")])
    );
}
