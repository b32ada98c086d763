//! Consensus calling: one symbol per column of an alignment, derived from
//! the column's symbol counts by a fixed decision table.

use crate::utils::alignment::{
    column, column_profile, maps_of, profile_column, profile_of, rectangular, width, Refusal,
    SequenceView, GAP,
};
use std::collections::HashMap;
use vstd::prelude::*;
use vstd::std_specs::hash::*;
use vstd::utf8::{encode_utf8, valid_utf8};

verus! {

broadcast use vstd::std_specs::hash::group_hash_axioms;

/// How often `symbol` occurs according to a column profile: the count the
/// profile holds for it, and 0 where it holds none.
pub open spec fn count_of(profile: Map<u8, usize>, symbol: u8) -> nat {
    if profile.contains_key(symbol) {
        profile[symbol] as nat
    } else {
        0
    }
}

/// The case-folded count of a base: the occurrences of its upper-case
/// letter `upper` and of the matching lower-case letter together.
pub open spec fn folded_count(profile: Map<u8, usize>, upper: u8) -> nat {
    count_of(profile, upper) + count_of(profile, (upper + 32) as u8)
}

/// Whether `count` is strictly more than four tenths of `rows`.
pub open spec fn exceeds_minority(count: int, rows: int) -> bool {
    10 * count > 4 * rows
}

/// Whether `count` lies strictly between three tenths and four tenths of
/// `rows`.
pub open spec fn low_confidence(count: int, rows: int) -> bool {
    3 * rows < 10 * count && 10 * count < 4 * rows
}

/// The decision table. Given the case-folded counts of the four bases in
/// one column and the number of rows, the rules are tried in this order
/// and the first that applies gives the symbol:
///
/// - one base strictly ahead of the other three, with a count above the
///   minority threshold: that base;
/// - two bases tied ahead of the other two, above the threshold: the
///   two-fold ambiguity code (`K`, `S`, `R`, `M`, `W`, `Y`);
/// - three bases tied ahead of the fourth, above the threshold: the
///   three-fold code (`V`, `H`, `D`, `B`);
/// - all four tied above the threshold: `N`;
/// - some count strictly between three and four tenths of the rows: `?`;
/// - otherwise `-`.
pub open spec fn consensus_call(a: int, c: int, g: int, t: int, rows: int) -> u8 {
    if g > c && g > a && g > t && exceeds_minority(g, rows) {
        71
    } else if c > g && c > a && c > t && exceeds_minority(c, rows) {
        67
    } else if a > g && a > c && a > t && exceeds_minority(a, rows) {
        65
    } else if t > g && t > a && t > c && exceeds_minority(t, rows) {
        84
    } else if g > c && g > a && g == t && exceeds_minority(g, rows) {
        75
    } else if g > a && g > t && g == c && exceeds_minority(g, rows) {
        83
    } else if g > c && g > t && g == a && exceeds_minority(g, rows) {
        82
    } else if a > g && a > t && a == c && exceeds_minority(a, rows) {
        77
    } else if a > g && a > c && a == t && exceeds_minority(a, rows) {
        87
    } else if c > g && c > a && c == t && exceeds_minority(c, rows) {
        89
    } else if a > t && a == c && a == g && exceeds_minority(a, rows) {
        86
    } else if a > g && a == c && a == t && exceeds_minority(a, rows) {
        72
    } else if a > c && a == g && a == t && exceeds_minority(a, rows) {
        68
    } else if c > a && c == g && c == t && exceeds_minority(c, rows) {
        66
    } else if c == a && c == g && c == t && exceeds_minority(c, rows) {
        78
    } else if low_confidence(c, rows) || low_confidence(g, rows) || low_confidence(a, rows)
        || low_confidence(t, rows) {
        63
    } else {
        45
    }
}

/// The consensus symbol of one column profile.
pub open spec fn column_call(profile: Map<u8, usize>, rows: int) -> u8 {
    consensus_call(
        folded_count(profile, 65) as int,
        folded_count(profile, 67) as int,
        folded_count(profile, 71) as int,
        folded_count(profile, 84) as int,
        rows,
    )
}

/// The consensus sequence of a profile: the call of every column.
pub open spec fn consensus_of(profile: Seq<Map<u8, usize>>, rows: int) -> Seq<u8> {
    Seq::new(profile.len(), |c: int| column_call(profile[c], rows))
}

/// The largest of four counts.
pub open spec fn top_count(a: int, c: int, g: int, t: int) -> int {
    let ac = if a >= c { a } else { c };
    let gt = if g >= t { g } else { t };
    if ac >= gt { ac } else { gt }
}

/// The ambiguity code of a set of bases, the set given by one flag per
/// base; 0 for the empty set.
pub open spec fn ambiguity_code(a: bool, c: bool, g: bool, t: bool) -> u8 {
    match (a, c, g, t) {
        (true, false, false, false) => 65,
        (false, true, false, false) => 67,
        (false, false, true, false) => 71,
        (false, false, false, true) => 84,
        (false, false, true, true) => 75,
        (false, true, true, false) => 83,
        (true, false, true, false) => 82,
        (true, true, false, false) => 77,
        (true, false, false, true) => 87,
        (false, true, false, true) => 89,
        (true, true, true, false) => 86,
        (true, true, false, true) => 72,
        (true, false, true, true) => 68,
        (false, true, true, true) => 66,
        (true, true, true, true) => 78,
        (false, false, false, false) => 0,
    }
}

/// The decision table covers every combination of counts: where the
/// largest count is above the minority threshold the call is the
/// ambiguity code of exactly the bases that reach it, and otherwise it is
/// `?` or `-` according to whether some count is of low confidence.
pub proof fn lemma_call_is_code_of_top_bases(a: int, c: int, g: int, t: int, rows: int)
    ensures
        ({
            let top = top_count(a, c, g, t);
            consensus_call(a, c, g, t, rows) == if exceeds_minority(top, rows) {
                ambiguity_code(a == top, c == top, g == top, t == top)
            } else if low_confidence(a, rows) || low_confidence(c, rows) || low_confidence(g, rows)
                || low_confidence(t, rows) {
                63u8
            } else {
                45u8
            }
        }),
{
}

/// Whether `count` is strictly more than four tenths of `rows`, computed
/// without overflow for every count.
fn above_minority(count: u128, rows: i32) -> (b: bool)
    ensures
        b == exceeds_minority(count as int, rows as int),
{
    if rows < 0 {
        true
    } else {
        let r: u128 = rows as u128;
        let q: u128 = (4 * r) / 10;
        count > q
    }
}

/// Whether `count` lies strictly between three and four tenths of `rows`,
/// computed without overflow for every count.
fn is_low_confidence(count: u128, rows: i32) -> (b: bool)
    ensures
        b == low_confidence(count as int, rows as int),
{
    if rows <= 0 {
        false
    } else {
        let r: u128 = rows as u128;
        let low: u128 = (3 * r) / 10;
        let high: u128 = (4 * r) / 10;
        let rem: u128 = (4 * r) % 10;
        count > low && (count < high || (count == high && rem > 0))
    }
}

/// The symbol that the decision table gives for the case-folded counts
/// `a`, `c`, `g`, `t` of the four bases in a column of `read_number` rows.
pub fn consensus_symbol(a: u128, c: u128, g: u128, t: u128, read_number: i32) -> (symbol: u8)
    ensures
        symbol == consensus_call(a as int, c as int, g as int, t as int, read_number as int),
{
    let g_over = above_minority(g, read_number);
    let c_over = above_minority(c, read_number);
    let a_over = above_minority(a, read_number);
    let t_over = above_minority(t, read_number);
    if g > c && g > a && g > t && g_over {
        71
    } else if c > g && c > a && c > t && c_over {
        67
    } else if a > g && a > c && a > t && a_over {
        65
    } else if t > g && t > a && t > c && t_over {
        84
    } else if g > c && g > a && g == t && g_over {
        75
    } else if g > a && g > t && g == c && g_over {
        83
    } else if g > c && g > t && g == a && g_over {
        82
    } else if a > g && a > t && a == c && a_over {
        77
    } else if a > g && a > c && a == t && a_over {
        87
    } else if c > g && c > a && c == t && c_over {
        89
    } else if a > t && a == c && a == g && a_over {
        86
    } else if a > g && a == c && a == t && a_over {
        72
    } else if a > c && a == g && a == t && a_over {
        68
    } else if c > a && c == g && c == t && c_over {
        66
    } else if c == a && c == g && c == t && c_over {
        78
    } else if is_low_confidence(c, read_number) || is_low_confidence(g, read_number)
        || is_low_confidence(a, read_number) || is_low_confidence(t, read_number) {
        63
    } else {
        45
    }
}

/// The count that `profile` holds for `symbol`, 0 where it holds none.
fn symbol_count(profile: &HashMap<u8, usize>, symbol: u8) -> (n: usize)
    ensures
        n == count_of(profile@, symbol),
{
    match profile.get(&symbol) {
        Some(n) => *n,
        None => 0,
    }
}

/// The case-folded count of the base whose upper-case letter is `upper`.
fn base_count(profile: &HashMap<u8, usize>, upper: u8) -> (n: u128)
    requires
        upper <= 223,
    ensures
        n == folded_count(profile@, upper),
{
    let hi: usize = symbol_count(profile, upper);
    let lo: usize = symbol_count(profile, upper + 32);
    hi as u128 + lo as u128
}

/// The consensus sequence of a profile: for every column the symbol that
/// the decision table gives for the column's case-folded base counts and
/// `read_number` rows.
pub fn get_consensus(profile: Vec<HashMap<u8, usize>>, read_number: i32) -> (consensus: Vec<u8>)
    ensures
        consensus@ == consensus_of(maps_of(profile@), read_number as int),
{
    let mut consensus: Vec<u8> = Vec::with_capacity(profile.len());
    let mut i: usize = 0;
    while i < profile.len()
        invariant
            i <= profile@.len(),
            consensus@.len() == i,
            forall|k: int|
                0 <= k < i ==> #[trigger] consensus@[k] == column_call(
                    profile@[k]@,
                    read_number as int,
                ),
        decreases profile@.len() - i,
    {
        let counts = &profile[i];
        let g_c = base_count(counts, 71);
        let c_c = base_count(counts, 67);
        let a_c = base_count(counts, 65);
        let t_c = base_count(counts, 84);
        consensus.push(consensus_symbol(a_c, c_c, g_c, t_c, read_number));
        i += 1;
    }
    assert(consensus@ =~= consensus_of(maps_of(profile@), read_number as int));
    consensus
}

/// The call of a column depends on its profile only through the
/// case-folded counts of the four bases: two profiles that agree on
/// those give the same symbol for the same number of rows, and the symbol
/// is one of the seventeen that the decision table can give.
pub proof fn lemma_call_is_determined(first: Map<u8, usize>, second: Map<u8, usize>, rows: int)
    requires
        folded_count(first, 65) == folded_count(second, 65),
        folded_count(first, 67) == folded_count(second, 67),
        folded_count(first, 71) == folded_count(second, 71),
        folded_count(first, 84) == folded_count(second, 84),
    ensures
        column_call(first, rows) == column_call(second, rows),
        is_consensus_symbol(column_call(first, rows)),
{
}

/// Consensus calling is a function of the case-folded base counts and
/// the row count alone: two profiles of the same number of columns that
/// agree, column by column, on the case-folded counts of the four bases
/// give the same consensus sequence for the same number of rows.
pub proof fn lemma_consensus_is_determined(
    first: Seq<Map<u8, usize>>,
    second: Seq<Map<u8, usize>>,
    rows: int,
)
    requires
        first.len() == second.len(),
        forall|c: int|
            #![trigger first[c]]
            0 <= c < first.len() ==> {
                &&& folded_count(first[c], 65) == folded_count(second[c], 65)
                &&& folded_count(first[c], 67) == folded_count(second[c], 67)
                &&& folded_count(first[c], 71) == folded_count(second[c], 71)
                &&& folded_count(first[c], 84) == folded_count(second[c], 84)
            },
    ensures
        consensus_of(first, rows) == consensus_of(second, rows),
        forall|c: int|
            0 <= c < first.len() ==> is_consensus_symbol(#[trigger] consensus_of(first, rows)[c]),
{
    assert forall|c: int| 0 <= c < first.len() implies consensus_of(first, rows)[c]
        == consensus_of(second, rows)[c] by {
        lemma_call_is_determined(first[c], second[c], rows);
    }
    assert(consensus_of(first, rows) =~= consensus_of(second, rows));
}

/// The symbols that a consensus sequence can hold: the four bases, the
/// eleven ambiguity codes, `?` and `-`.
pub open spec fn is_consensus_symbol(symbol: u8) -> bool {
    ||| symbol == 65 || symbol == 67 || symbol == 71 || symbol == 84
    ||| symbol == 75 || symbol == 83 || symbol == 82 || symbol == 77 || symbol == 87 || symbol == 89
    ||| symbol == 86 || symbol == 72 || symbol == 68 || symbol == 66
    ||| symbol == 78
    ||| symbol == 63
    ||| symbol == 45
}

/// What a vector of named sequences holds.
pub open spec fn records_of(v: Seq<(String, Vec<u8>)>) -> Seq<SequenceView> {
    Seq::new(v.len(), |i: int| SequenceView { name: v[i].0@, symbols: v[i].1@ })
}

/// The profile of a collection of sequences: for every column the number
/// of occurrences of each symbol in it, gaps included.
pub fn get_profile(sequences: &Vec<(String, Vec<u8>)>) -> (profile: Vec<HashMap<u8, usize>>)
    requires
        sequences@.len() > 0,
        rectangular(records_of(sequences@)),
    ensures
        maps_of(profile@) == profile_of(records_of(sequences@)),
{
    let ghost rows = records_of(sequences@);
    let sequence_length = sequences[0].1.len();
    let mut profile: Vec<HashMap<u8, usize>> = Vec::with_capacity(sequence_length);
    let mut i: usize = 0;
    while i < sequence_length
        invariant
            i <= sequence_length,
            rows == records_of(sequences@),
            rows.len() > 0,
            rectangular(rows),
            sequence_length == width(rows),
            profile@.len() == i,
            forall|c: int|
                0 <= c < i ==> (#[trigger] profile@[c])@ == column_profile(column(rows, c)),
        decreases sequence_length - i,
    {
        let mut position_string: Vec<u8> = Vec::with_capacity(sequences.len());
        let mut r: usize = 0;
        while r < sequences.len()
            invariant
                i < sequence_length,
                r <= sequences@.len(),
                rows == records_of(sequences@),
                rows.len() > 0,
                rectangular(rows),
                sequence_length == width(rows),
                position_string@ == column(rows, i as int).take(r as int),
            decreases sequences@.len() - r,
        {
            assert(rows[r as int].symbols == sequences@[r as int].1@);
            assert(rows[r as int].symbols.len() == rows[0].symbols.len());
            position_string.push(sequences[r].1[i]);
            assert(position_string@ =~= column(rows, i as int).take(r + 1));
            r += 1;
        }
        assert(position_string@ =~= column(rows, i as int));
        profile.push(profile_column(&position_string));
        i += 1;
    }
    assert(maps_of(profile@) =~= profile_of(rows));
    profile
}

/// Whether all the numbers are the same; true of no numbers.
pub fn is_all_same(arr: &[usize]) -> (same: bool)
    ensures
        same <==> forall|i: int, j: int|
            0 <= i < arr@.len() && 0 <= j < arr@.len() ==> arr@[i] == arr@[j],
{
    if arr.len() == 0 {
        return true;
    }
    let first = arr[0];
    let mut i: usize = 1;
    while i < arr.len()
        invariant
            1 <= i <= arr@.len(),
            first == arr@[0],
            forall|k: int| 0 <= k < i ==> arr@[k] == first,
        decreases arr@.len() - i,
    {
        if arr[i] != first {
            return false;
        }
        i += 1;
    }
    true
}

/// The consensus of the rows: the consensus sequence of their profile,
/// with the number of rows as the row count.
pub open spec fn consensus_of_rows(rows: Seq<SequenceView>) -> Seq<u8> {
    consensus_of(profile_of(rows), rows.len() as int)
}

/// What `make_consensus` returns for the rows: the error, or the records
/// to write out, which are the consensus under `name`, after the rows
/// themselves unless `append` is set.
pub open spec fn consensus_records(rows: Seq<SequenceView>, name: Seq<char>, append: bool) -> Result<
    Seq<SequenceView>,
    Refusal,
> {
    if rows.len() == 0 {
        Err(Refusal::NoSequences)
    } else if !rectangular(rows) {
        Err(Refusal::UnequalLengths)
    } else if rows.len() > i32::MAX {
        Err(Refusal::TooManySequences)
    } else {
        let record = SequenceView { name, symbols: consensus_of_rows(rows) };
        if append {
            Ok(seq![record])
        } else {
            Ok(rows.push(record))
        }
    }
}

/// Makes the consensus of `sequences` and returns the records to write
/// out: the consensus alone, under `name`, where `append` is set, and the
/// sequences followed by the consensus where it is not. Sequences of
/// unequal lengths are refused, and so is an input without sequences.
pub fn make_consensus(sequences: Vec<(String, Vec<u8>)>, name: String, append: bool) -> (records:
    Result<Vec<(String, Vec<u8>)>, Refusal>)
    ensures
        consensus_records(records_of(sequences@), name@, append) == match records {
            Ok(out) => Ok::<Seq<SequenceView>, Refusal>(records_of(out@)),
            Err(e) => Err::<Seq<SequenceView>, Refusal>(e),
        },
{
    let ghost rows = records_of(sequences@);
    let mut check_read_lengths: Vec<usize> = Vec::new();
    let mut r: usize = 0;
    while r < sequences.len()
        invariant
            r <= sequences@.len(),
            rows == records_of(sequences@),
            check_read_lengths@.len() == r,
            forall|k: int| 0 <= k < r ==> check_read_lengths@[k] == rows[k].symbols.len(),
        decreases sequences@.len() - r,
    {
        assert(rows[r as int].symbols == sequences@[r as int].1@);
        check_read_lengths.push(sequences[r].1.len());
        r += 1;
    }
    let check_lens = is_all_same(check_read_lengths.as_slice());
    if sequences.len() == 0 {
        return Err(Refusal::NoSequences);
    }
    if !check_lens {
        assert(!rectangular(rows)) by {
            if rectangular(rows) {
                assert forall|i: int, j: int|
                    0 <= i < check_read_lengths@.len() && 0 <= j
                        < check_read_lengths@.len() implies check_read_lengths@[i]
                    == check_read_lengths@[j] by {
                    assert(rows[i].symbols.len() == rows[j].symbols.len());
                }
            }
        }
        return Err(Refusal::UnequalLengths);
    }
    assert(rectangular(rows)) by {
        assert forall|i: int, j: int| 0 <= i < rows.len() && 0 <= j < rows.len() implies (
        #[trigger] rows[i]).symbols.len() == (#[trigger] rows[j]).symbols.len() by {
            assert(check_read_lengths@[i] == check_read_lengths@[j]);
        }
    }
    if sequences.len() > 0x7FFF_FFFF {
        return Err(Refusal::TooManySequences);
    }
    let read_number: i32 = sequences.len() as i32;
    let profile = get_profile(&sequences);
    let consensus = get_consensus(profile, read_number);
    let mut out: Vec<(String, Vec<u8>)> = if append {
        Vec::new()
    } else {
        sequences
    };
    let ghost before = records_of(out@);
    out.push((name, consensus));
    assert(records_of(out@) =~= before.push(
        SequenceView { name: name@, symbols: consensus_of_rows(rows) },
    ));
    assert(before =~= if append {
        Seq::<SequenceView>::empty()
    } else {
        rows
    });
    assert(seq![SequenceView { name: name@, symbols: consensus_of_rows(rows) }]
        =~= Seq::<SequenceView>::empty().push(
        SequenceView { name: name@, symbols: consensus_of_rows(rows) },
    ));
    Ok(out)
}

/// The test for a symbol that is no gap.
pub open spec fn no_gap() -> spec_fn(u8) -> bool {
    |symbol: u8| symbol != GAP
}

/// The symbols of `seq` that are no gaps, in their order.
pub fn remove_gaps(seq: &Vec<u8>) -> (kept: Vec<u8>)
    ensures
        kept@ == seq@.filter(no_gap()),
{
    let mut kept: Vec<u8> = Vec::new();
    let mut i: usize = 0;
    proof {
        reveal(Seq::filter);
        assert(seq@.take(0) =~= Seq::<u8>::empty());
    }
    while i < seq.len()
        invariant
            i <= seq@.len(),
            kept@ == seq@.take(i as int).filter(no_gap()),
        decreases seq@.len() - i,
    {
        let symbol = seq[i];
        proof {
            assert(seq@.take(i + 1) =~= seq@.take(i as int).push(symbol));
            seq@.take(i as int).lemma_filter_push(symbol, no_gap());
        }
        if symbol != GAP {
            kept.push(symbol);
        }
        i += 1;
    }
    proof {
        assert(seq@.take(seq@.len() as int) =~= seq@);
    }
    kept
}

/// A sequence to be written out as text.
#[derive(Clone, Debug)]
pub struct WriteSequence(pub Vec<u8>);

/// Calls `String::from_utf8` of the standard library, which turns bytes
/// into a string without changing them and refuses bytes that are not
/// UTF-8: the contract says that a string comes back exactly for valid
/// UTF-8, and that its bytes are the bytes given.
#[verifier::external_body]
fn utf8_string(bytes: Vec<u8>) -> (text: Option<String>)
    ensures
        text is Some <==> valid_utf8(bytes@),
        text matches Some(s) ==> encode_utf8(s@) == bytes@,
{
    String::from_utf8(bytes).ok()
}

impl WriteSequence {
    /// The sequence as text: the string whose bytes are the symbols.
    /// `None` where the symbols are not UTF-8.
    pub fn to_text(&self) -> (text: Option<String>)
        ensures
            text is Some <==> valid_utf8(self.0@),
            text matches Some(s) ==> encode_utf8(s@) == self.0@,
    {
        let symbols = crate::utils::alignment::copy_range(&self.0, 0, self.0.len());
        assert(symbols@ =~= self.0@);
        utf8_string(symbols)
    }
}

} // verus!
