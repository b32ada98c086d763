//! Conserved blocks: the columns of an alignment that are nearly free of
//! gaps and nearly uniform, the removal of isolated ones, and the trimming
//! of an alignment to the span of those that remain.

use crate::utils::alignment::{
    column, copy_range, occurrences, rectangular, width, Alignment, Sequence, SequenceView, GAP,
};
use vstd::multiset::*;
use vstd::prelude::*;
use vstd::seq_lib::*;

verus! {

/// A part of a whole, both counted: `num` of `den`.
#[derive(Clone, Copy, Debug)]
pub struct Fraction {
    pub num: usize,
    pub den: usize,
}

/// A bound for a fraction: the ratio `num / den`, which may be negative.
/// The denominator is meant to be positive.
#[derive(Clone, Copy, Debug)]
pub struct Threshold {
    pub num: i64,
    pub den: u64,
}

impl Fraction {
    /// Whether the fraction is strictly less than `t`, by cross
    /// multiplication: for positive denominators, `num / den < t.num / t.den`.
    pub open spec fn below(self, t: Threshold) -> bool {
        self.num * t.den < t.num * self.den
    }

    /// Whether the fraction is strictly more than `t`, by cross
    /// multiplication: for positive denominators, `num / den > t.num / t.den`.
    pub open spec fn above(self, t: Threshold) -> bool {
        self.num * t.den > t.num * self.den
    }

    /// Decides `below`.
    pub fn is_below(&self, t: &Threshold) -> (b: bool)
        ensures
            b == self.below(*t),
    {
        let num = self.num as u128;
        let den = self.den as u128;
        let t_den = t.den as u128;
        assert(num * t_den <= 0xFFFF_FFFF_FFFF_FFFF * 0xFFFF_FFFF_FFFF_FFFF) by (nonlinear_arith)
            requires
                0 <= num <= 0xFFFF_FFFF_FFFF_FFFF,
                0 <= t_den <= 0xFFFF_FFFF_FFFF_FFFF,
        ;
        let lhs: u128 = num * t_den;
        if t.num < 0 {
            assert(t.num * self.den <= 0) by (nonlinear_arith)
                requires
                    t.num < 0,
                    self.den >= 0,
            ;
            false
        } else {
            let t_num = t.num as u128;
            assert(t_num * den <= 0xFFFF_FFFF_FFFF_FFFF * 0xFFFF_FFFF_FFFF_FFFF)
                by (nonlinear_arith)
                requires
                    0 <= t_num <= 0xFFFF_FFFF_FFFF_FFFF,
                    0 <= den <= 0xFFFF_FFFF_FFFF_FFFF,
            ;
            let rhs: u128 = t_num * den;
            lhs < rhs
        }
    }

    /// Decides `above`.
    pub fn is_above(&self, t: &Threshold) -> (b: bool)
        ensures
            b == self.above(*t),
    {
        let num = self.num as u128;
        let den = self.den as u128;
        let t_den = t.den as u128;
        assert(num * t_den <= 0xFFFF_FFFF_FFFF_FFFF * 0xFFFF_FFFF_FFFF_FFFF) by (nonlinear_arith)
            requires
                0 <= num <= 0xFFFF_FFFF_FFFF_FFFF,
                0 <= t_den <= 0xFFFF_FFFF_FFFF_FFFF,
        ;
        let lhs: u128 = num * t_den;
        if t.num < 0 {
            assert(t.num * self.den <= 0 && (self.den > 0 ==> t.num * self.den < 0) && (self.den
                == 0 ==> t.num * self.den == 0)) by (nonlinear_arith)
                requires
                    t.num < 0,
                    self.den >= 0,
            ;
            self.den > 0 || lhs > 0
        } else {
            let t_num = t.num as u128;
            assert(t_num * den <= 0xFFFF_FFFF_FFFF_FFFF * 0xFFFF_FFFF_FFFF_FFFF)
                by (nonlinear_arith)
                requires
                    0 <= t_num <= 0xFFFF_FFFF_FFFF_FFFF,
                    0 <= den <= 0xFFFF_FFFF_FFFF_FFFF,
            ;
            let rhs: u128 = t_num * den;
            lhs > rhs
        }
    }
}

/// One conserved column: where it is, how uniform it is and how much of it
/// is gaps.
#[derive(Clone, Copy, Debug)]
pub struct BlockRecord {
    pub position: usize,
    pub identity: Fraction,
    pub missing: Fraction,
}

/// The conserved columns of an alignment, by ascending position.
#[derive(Debug)]
pub struct BlockRecords(pub Vec<BlockRecord>);

/// Whether `symbol` is the modal symbol of `col`: none occurs more often,
/// and of those that occur as often none is smaller.
pub open spec fn is_modal(col: Seq<u8>, symbol: u8) -> bool {
    forall|o: u8|
        occurrences(col, o) < occurrences(col, symbol) || (#[trigger] occurrences(col, o)
            == occurrences(col, symbol) && symbol <= o)
}

/// The modal symbol of a column.
pub open spec fn modal_symbol(col: Seq<u8>) -> u8 {
    choose|s: u8| is_modal(col, s)
}

/// How many rows agree on a column's modal symbol; 0 where that symbol is
/// the gap.
pub open spec fn identity_count(col: Seq<u8>) -> nat {
    if modal_symbol(col) == GAP {
        0
    } else {
        occurrences(col, modal_symbol(col))
    }
}

/// A column has one modal symbol only.
pub proof fn lemma_modal_unique(col: Seq<u8>, symbol: u8)
    requires
        is_modal(col, symbol),
    ensures
        modal_symbol(col) == symbol,
{
    let m = modal_symbol(col);
    assert(is_modal(col, m));
    assert(occurrences(col, symbol) < occurrences(col, m) || (occurrences(col, symbol)
        == occurrences(col, m) && m <= symbol));
    assert(occurrences(col, m) < occurrences(col, symbol) || (occurrences(col, m) == occurrences(
        col,
        symbol,
    ) && symbol <= m));
}

/// The record of column `position`: its identity is the share of rows
/// that hold the modal symbol, or 0 where that is the gap; its missingness
/// is the share of rows that hold a gap.
pub open spec fn column_record(rows: Seq<SequenceView>, position: int) -> BlockRecord {
    let col = column(rows, position);
    BlockRecord {
        position: position as usize,
        identity: Fraction { num: identity_count(col) as usize, den: rows.len() as usize },
        missing: Fraction { num: occurrences(col, GAP) as usize, den: rows.len() as usize },
    }
}

/// The record of a column of an alignment holds the counts themselves:
/// its identity is the number of rows that agree on the modal symbol, of
/// all rows, and its missingness the number of gaps, of all rows.
pub proof fn lemma_column_record_counts(rows: Seq<SequenceView>, position: int)
    requires
        rows.len() <= usize::MAX,
        0 <= position <= usize::MAX,
    ensures
        column_record(rows, position).position == position,
        column_record(rows, position).identity.num == identity_count(column(rows, position)),
        column_record(rows, position).missing.num == occurrences(column(rows, position), GAP),
        shares_of(column_record(rows, position), rows.len()),
{
    broadcast use group_multiset_axioms;
    broadcast use to_multiset_len;

    let col = column(rows, position);
    assert(occurrences(col, modal_symbol(col)) <= col.to_multiset().len());
    assert(occurrences(col, GAP) <= col.to_multiset().len());
}

/// The records of all columns, by position.
pub open spec fn column_records(rows: Seq<SequenceView>) -> Seq<BlockRecord> {
    Seq::new(width(rows), |p: int| column_record(rows, p))
}

/// The test for a conserved column: missingness strictly below `miss` and
/// identity strictly above `iden`.
pub open spec fn is_conserved(miss: Threshold, iden: Threshold) -> spec_fn(BlockRecord) -> bool {
    |r: BlockRecord| r.missing.below(miss) && r.identity.above(iden)
}

/// The conserved columns of an alignment, by ascending position.
pub open spec fn conserved_blocks(rows: Seq<SequenceView>, miss: Threshold, iden: Threshold) -> Seq<
    BlockRecord,
> {
    column_records(rows).filter(is_conserved(miss, iden))
}

/// Whether the positions rise strictly from each record to the next.
pub open spec fn ascending(blocks: Seq<BlockRecord>) -> bool {
    forall|i: int, j: int|
        0 <= i < j < blocks.len() ==> (#[trigger] blocks[i]).position < (#[trigger] blocks[j]).position
}

/// Whether the identity and the missingness of a record are shares of
/// `rows` rows: fractions between 0 and 1 with `rows` as denominator.
pub open spec fn shares_of(record: BlockRecord, rows: nat) -> bool {
    &&& record.identity.den == rows
    &&& record.missing.den == rows
    &&& record.identity.num <= rows
    &&& record.missing.num <= rows
}

/// Whether every record lies at a column of an alignment of `width`
/// columns.
pub open spec fn within(blocks: Seq<BlockRecord>, width: nat) -> bool {
    forall|i: int| 0 <= i < blocks.len() ==> (#[trigger] blocks[i]).position < width
}

/// Whether two records lie within `next_hit` columns of each other.
pub open spec fn within_reach(a: BlockRecord, b: BlockRecord, next_hit: int) -> bool {
    a.position - b.position <= next_hit && b.position - a.position <= next_hit
}

/// Whether record `i` stays when isolated records are removed: it does if
/// the record before it or the record after it lies within `next_hit`
/// columns. The first record has only the one after it to go by, the last
/// only the one before it, and a record that is alone stays.
pub open spec fn stays(blocks: Seq<BlockRecord>, i: int, next_hit: int) -> bool {
    ||| blocks.len() == 1
    ||| (0 < i && within_reach(blocks[i - 1], blocks[i], next_hit))
    ||| (i + 1 < blocks.len() && within_reach(blocks[i], blocks[i + 1], next_hit))
}

/// Of the first `n` records, those that stay, in their order.
pub open spec fn kept_upto(blocks: Seq<BlockRecord>, next_hit: int, n: int) -> Seq<BlockRecord>
    decreases n,
{
    if n <= 0 {
        Seq::empty()
    } else if stays(blocks, n - 1, next_hit) {
        kept_upto(blocks, next_hit, n - 1).push(blocks[n - 1])
    } else {
        kept_upto(blocks, next_hit, n - 1)
    }
}

/// The records that stay, in their order.
pub open spec fn without_isolates(blocks: Seq<BlockRecord>, next_hit: int) -> Seq<BlockRecord> {
    kept_upto(blocks, next_hit, blocks.len() as int)
}

/// The columns between which an alignment is cut: the positions of the
/// first and the last record that stayed, and the whole width where none
/// did.
pub open spec fn trim_span(kept: Seq<BlockRecord>, rows: Seq<SequenceView>) -> (int, int) {
    if kept.len() == 0 {
        (0, width(rows) as int)
    } else {
        (kept.first().position as int, kept.last().position as int)
    }
}

/// Where a row's slice begins: `extend` columns before `start`, and at 0
/// where there are not that many.
pub open spec fn slice_start(start: int, extend: int) -> int {
    if start - extend <= 0 {
        0
    } else {
        start - extend
    }
}

/// Where a row's slice ends: `extend` columns after `end`, and at the
/// row's end where there are not that many.
pub open spec fn slice_end(end: int, extend: int, len: int) -> int {
    if end + extend >= len {
        len
    } else {
        end + extend
    }
}

/// The slice of one row, under its name; `None` where the slice would
/// begin after its end.
pub open spec fn trimmed_row(start: int, end: int, extend: int) -> spec_fn(SequenceView) -> Option<
    SequenceView,
> {
    |row: SequenceView|
        {
            let lo = slice_start(start, extend);
            let hi = slice_end(end, extend, row.symbols.len() as int);
            if lo <= hi {
                Some(SequenceView { name: row.name, symbols: row.symbols.subrange(lo, hi) })
            } else {
                None
            }
        }
}

/// The alignment cut to the span of the records that stay, widened by
/// `extend` columns on each side: the rows that can be sliced, in their
/// order.
pub open spec fn trimmed(
    blocks: Seq<BlockRecord>,
    rows: Seq<SequenceView>,
    extend: int,
    next_hit: int,
) -> Seq<SequenceView> {
    let span = trim_span(without_isolates(blocks, next_hit), rows);
    rows.filter_map(trimmed_row(span.0, span.1, extend))
}

/// Of the first `n` records, those that stay are all of them where each
/// of them stays.
proof fn lemma_kept_upto_all(blocks: Seq<BlockRecord>, next_hit: int, n: int)
    requires
        0 <= n <= blocks.len(),
        forall|i: int| 0 <= i < n ==> stays(blocks, i, next_hit),
    ensures
        kept_upto(blocks, next_hit, n) == blocks.take(n),
    decreases n,
{
    if n > 0 {
        lemma_kept_upto_all(blocks, next_hit, n - 1);
        assert(blocks.take(n) =~= blocks.take(n - 1).push(blocks[n - 1]));
    } else {
        assert(blocks.take(n) =~= Seq::<BlockRecord>::empty());
    }
}

/// Every record among those of the first `n` that stay is one of the
/// first `n` records, and one that stays.
proof fn lemma_kept_upto_origin(blocks: Seq<BlockRecord>, next_hit: int, n: int, k: int)
    requires
        0 <= n <= blocks.len(),
        0 <= k < kept_upto(blocks, next_hit, n).len(),
    ensures
        exists|j: int|
            0 <= j < n && stays(blocks, j, next_hit) && kept_upto(blocks, next_hit, n)[k]
                == #[trigger] blocks[j],
    decreases n,
{
    if n > 0 {
        let prev = kept_upto(blocks, next_hit, n - 1);
        if k < prev.len() {
            lemma_kept_upto_origin(blocks, next_hit, n - 1, k);
            let j = choose|j: int|
                0 <= j < n - 1 && stays(blocks, j, next_hit) && prev[k] == #[trigger] blocks[j];
            assert(kept_upto(blocks, next_hit, n)[k] == blocks[j]);
        } else {
            assert(kept_upto(blocks, next_hit, n)[k] == blocks[n - 1]);
        }
    }
}

/// Removing isolated records from a list in which every record has a
/// neighbour within `next_hit` columns returns the list unchanged.
pub proof fn lemma_connected_records_stay(blocks: Seq<BlockRecord>, next_hit: int)
    requires
        forall|i: int| 0 <= i < blocks.len() ==> stays(blocks, i, next_hit),
    ensures
        without_isolates(blocks, next_hit) == blocks,
{
    lemma_kept_upto_all(blocks, next_hit, blocks.len() as int);
    assert(blocks.take(blocks.len() as int) =~= blocks);
}

/// A record between two others, more than `next_hit` columns away from
/// the record before it and from the record after it, is removed: in a
/// list of ascending positions, no record at its position is left.
pub proof fn lemma_isolated_record_dropped(blocks: Seq<BlockRecord>, next_hit: int, i: int)
    requires
        ascending(blocks),
        0 < i < blocks.len() - 1,
        blocks[i].position - blocks[i - 1].position > next_hit,
        blocks[i + 1].position - blocks[i].position > next_hit,
    ensures
        forall|k: int|
            0 <= k < without_isolates(blocks, next_hit).len() ==> (#[trigger] without_isolates(
                blocks,
                next_hit,
            )[k]).position != blocks[i].position,
{
    let kept = without_isolates(blocks, next_hit);
    assert forall|k: int| 0 <= k < kept.len() implies (#[trigger] kept[k]).position
        != blocks[i].position by {
        lemma_kept_upto_origin(blocks, next_hit, blocks.len() as int, k);
        let j = choose|j: int|
            0 <= j < blocks.len() && stays(blocks, j, next_hit) && kept[k] == #[trigger] blocks[j];
        assert(!stays(blocks, i, next_hit));
        if j < i {
            assert(blocks[j].position < blocks[i].position);
        } else if j > i {
            assert(blocks[i].position < blocks[j].position);
        }
    }
}

/// Of ascending records, those that stay are ascending too, and each of
/// them is one of the records.
proof fn lemma_kept_upto_ascending(blocks: Seq<BlockRecord>, next_hit: int, n: int)
    requires
        ascending(blocks),
        0 <= n <= blocks.len(),
    ensures
        ascending(kept_upto(blocks, next_hit, n)),
        forall|k: int|
            0 <= k < kept_upto(blocks, next_hit, n).len() ==> exists|j: int|
                0 <= j < n && (#[trigger] kept_upto(blocks, next_hit, n)[k]) == #[trigger] blocks[j],
    decreases n,
{
    if n > 0 {
        lemma_kept_upto_ascending(blocks, next_hit, n - 1);
        let prev = kept_upto(blocks, next_hit, n - 1);
        let now = kept_upto(blocks, next_hit, n);
        assert forall|k: int| 0 <= k < now.len() implies exists|j: int|
            0 <= j < n && (#[trigger] now[k]) == #[trigger] blocks[j] by {
            if k < prev.len() {
                let j = choose|j: int| 0 <= j < n - 1 && prev[k] == #[trigger] blocks[j];
                assert(now[k] == blocks[j]);
            } else {
                assert(now[k] == blocks[n - 1]);
            }
        }
        assert forall|a: int, b: int| 0 <= a < b < now.len() implies (#[trigger] now[a]).position < (
        #[trigger] now[b]).position by {
            if b < prev.len() {
                assert(now[a] == prev[a] && now[b] == prev[b]);
            } else {
                assert(now[a] == prev[a]);
                let j = choose|j: int| 0 <= j < n - 1 && prev[a] == #[trigger] blocks[j];
                assert(blocks[j].position < blocks[n - 1].position);
            }
        }
    }
}

/// Trimming by ascending records that lie within the alignment leaves out
/// no row, and the rows are of one length afterwards as they were before.
pub proof fn lemma_trim_keeps_rows(
    blocks: Seq<BlockRecord>,
    rows: Seq<SequenceView>,
    extend: int,
    next_hit: int,
)
    requires
        rectangular(rows),
        ascending(blocks),
        within(blocks, width(rows)),
        extend >= 0,
    ensures
        trimmed(blocks, rows, extend, next_hit).len() == rows.len(),
        rectangular(trimmed(blocks, rows, extend, next_hit)),
{
    let kept = without_isolates(blocks, next_hit);
    let span = trim_span(kept, rows);
    let f = trimmed_row(span.0, span.1, extend);
    let lo = slice_start(span.0, extend);
    let hi = slice_end(span.1, extend, width(rows) as int);
    let g = |row: SequenceView| SequenceView { name: row.name, symbols: row.symbols.subrange(lo, hi) };
    lemma_kept_upto_ascending(blocks, next_hit, blocks.len() as int);
    if kept.len() > 0 {
        let first = choose|j: int| 0 <= j < blocks.len() && kept[0] == #[trigger] blocks[j];
        let last = choose|j: int|
            0 <= j < blocks.len() && kept[kept.len() - 1] == #[trigger] blocks[j];
        assert(blocks[first].position < width(rows));
        assert(blocks[last].position < width(rows));
        if kept.len() > 1 {
            assert(kept[0].position < kept[kept.len() - 1].position);
        }
        assert(span.0 <= span.1 < width(rows));
    }
    assert(0 <= lo <= hi <= width(rows));
    assert forall|i: int| 0 <= i < rows.len() implies f(#[trigger] rows[i]) == Some(
        g(rows[i]),
    ) by {
        assert(rows[i].symbols.len() == rows[0].symbols.len());
    }
    lemma_filter_map_total(rows, f, g);
    let out = rows.map_values(g);
    assert forall|i: int, j: int| 0 <= i < out.len() && 0 <= j < out.len() implies (
    #[trigger] out[i]).symbols.len() == (#[trigger] out[j]).symbols.len() by {
        assert(rows[i].symbols.len() == rows[0].symbols.len());
        assert(rows[j].symbols.len() == rows[0].symbols.len());
    }
}

/// If `f` gives `Some(g(row))` for every row, filtering and mapping the
/// rows by `f` maps each row by `g`.
proof fn lemma_filter_map_total(
    rows: Seq<SequenceView>,
    f: spec_fn(SequenceView) -> Option<SequenceView>,
    g: spec_fn(SequenceView) -> SequenceView,
)
    requires
        forall|i: int| 0 <= i < rows.len() ==> f(#[trigger] rows[i]) == Some(g(rows[i])),
    ensures
        rows.filter_map(f) == rows.map_values(g),
    decreases rows.len(),
{
    if rows.len() > 0 {
        let rest = rows.drop_last();
        assert forall|i: int| 0 <= i < rest.len() implies f(#[trigger] rest[i]) == Some(
            g(rest[i]),
        ) by {
            assert(rest[i] == rows[i]);
        }
        lemma_filter_map_total(rest, f, g);
        assert(f(rows.last()) == Some(g(rows.last())));
        assert(rows.filter_map(f) =~= rows.map_values(g));
    } else {
        assert(rows.filter_map(f) =~= rows.map_values(g));
    }
}

/// A row without its last symbol.
pub open spec fn without_last_column() -> spec_fn(SequenceView) -> SequenceView {
    |row: SequenceView| SequenceView { name: row.name, symbols: row.symbols.drop_last() }
}

/// Trimming without extension, by records of which the first that stays
/// is at column 0 and the last that stays at the last column, returns
/// every row under its name without its last symbol: the span ends before
/// the position of its last record.
pub proof fn lemma_trim_whole_span(
    blocks: Seq<BlockRecord>,
    rows: Seq<SequenceView>,
    next_hit: int,
)
    requires
        rows.len() > 0,
        rectangular(rows),
        without_isolates(blocks, next_hit).len() > 0,
        without_isolates(blocks, next_hit).first().position == 0,
        without_isolates(blocks, next_hit).last().position == width(rows) - 1,
    ensures
        trimmed(blocks, rows, 0, next_hit) == rows.map_values(without_last_column()),
{
    let span = trim_span(without_isolates(blocks, next_hit), rows);
    let f = trimmed_row(span.0, span.1, 0);
    let g = without_last_column();
    assert forall|i: int| 0 <= i < rows.len() implies f(#[trigger] rows[i]) == Some(
        g(rows[i]),
    ) by {
        assert(rows[i].symbols.len() == rows[0].symbols.len());
        assert(rows[i].symbols.subrange(0, width(rows) - 1) =~= rows[i].symbols.drop_last());
    }
    lemma_filter_map_total(rows, f, g);
}

/// Trimming without extension by a list that holds a record for every
/// column, at a reach of at least one column, returns every row without
/// its last symbol.
pub proof fn lemma_trim_every_column(
    blocks: Seq<BlockRecord>,
    rows: Seq<SequenceView>,
    next_hit: int,
)
    requires
        rows.len() > 0,
        rectangular(rows),
        width(rows) > 0,
        blocks.len() == width(rows),
        forall|i: int| 0 <= i < blocks.len() ==> (#[trigger] blocks[i]).position == i,
        next_hit >= 1,
    ensures
        without_isolates(blocks, next_hit) == blocks,
        trimmed(blocks, rows, 0, next_hit) == rows.map_values(without_last_column()),
{
    assert forall|i: int| 0 <= i < blocks.len() implies stays(blocks, i, next_hit) by {
        if 0 < i {
            assert(blocks[i - 1].position == i - 1);
        }
        if i + 1 < blocks.len() {
            assert(blocks[i + 1].position == i + 1);
        }
    }
    lemma_connected_records_stay(blocks, next_hit);
    lemma_trim_whole_span(blocks, rows, next_hit);
}

/// Where no record stays, trimming returns the alignment as it is,
/// whatever the extension.
pub proof fn lemma_trim_without_blocks(
    blocks: Seq<BlockRecord>,
    rows: Seq<SequenceView>,
    extend: int,
    next_hit: int,
)
    requires
        rectangular(rows),
        extend >= 0,
        without_isolates(blocks, next_hit).len() == 0,
    ensures
        trimmed(blocks, rows, extend, next_hit) == rows,
{
    let span = trim_span(without_isolates(blocks, next_hit), rows);
    let f = trimmed_row(span.0, span.1, extend);
    let g = |row: SequenceView| row;
    assert forall|i: int| 0 <= i < rows.len() implies f(#[trigger] rows[i]) == Some(
        g(rows[i]),
    ) by {
        assert(rows[i].symbols.len() == rows[0].symbols.len());
        assert(rows[i].symbols.subrange(0, rows[i].symbols.len() as int) =~= rows[i].symbols);
    }
    lemma_filter_map_total(rows, f, g);
    assert(rows.map_values(g) =~= rows);
}

impl BlockRecords {
    /// Appends `value` as the last record.
    pub fn add_record(&mut self, value: BlockRecord)
        ensures
            final(self).0@ == old(self).0@.push(value),
    {
        self.0.push(value)
    }

    /// The records without the isolated ones: a record stays if a
    /// neighbour in the list lies within `next_hit` columns of it.
    pub fn remove_isolates(&self, next_hit: usize) -> (kept: Self)
        ensures
            kept.0@ == without_isolates(self.0@, next_hit as int),
    {
        let len = self.0.len();
        let mut out_vec: Vec<BlockRecord> = Vec::new();
        let mut index: usize = 0;
        while index < len
            invariant
                len == self.0@.len(),
                index <= len,
                out_vec@ == kept_upto(self.0@, next_hit as int, index as int),
            decreases len - index,
        {
            let val = self.0[index];
            let mut keep = len == 1;
            if index > 0 {
                let lv = self.0[index - 1];
                let gap = if val.position >= lv.position {
                    val.position - lv.position
                } else {
                    lv.position - val.position
                };
                if gap <= next_hit {
                    keep = true;
                }
            }
            if index + 1 < len {
                let rv = self.0[index + 1];
                let gap = if rv.position >= val.position {
                    rv.position - val.position
                } else {
                    val.position - rv.position
                };
                if gap <= next_hit {
                    keep = true;
                }
            }
            assert(keep == stays(self.0@, index as int, next_hit as int));
            if keep {
                out_vec.push(val);
            }
            index += 1;
        }
        BlockRecords(out_vec)
    }

    /// Cuts `alignment` to the conserved span: the records are first
    /// freed of isolated ones; the positions of the first and the last of
    /// the rest bound the span (the whole width where none is left); every
    /// row is sliced from `extend` columns before the span up to, not
    /// including, `extend` columns after its last position, within the
    /// row's own bounds. A row whose slice would begin after its end is
    /// left out.
    pub fn trim(&self, alignment: Alignment, extend: usize, next_hit: usize) -> (out: Alignment)
        ensures
            out@ == trimmed(self.0@, alignment@, extend as int, next_hit as int),
    {
        let kept = self.remove_isolates(next_hit);
        let start: usize;
        let end: usize;
        if kept.0.len() == 0 {
            start = 0;
            end = if alignment.matrix.len() == 0 {
                0
            } else {
                alignment.matrix[0].len()
            };
        } else {
            start = kept.0[0].position;
            end = kept.0[kept.0.len() - 1].position;
        }
        let ghost slice = trimmed_row(start as int, end as int, extend as int);
        let mut out = Alignment::new();
        let mut r: usize = 0;
        proof {
            assert(alignment@.take(0) =~= Seq::<SequenceView>::empty());
        }
        while r < alignment.matrix.len()
            invariant
                r <= alignment@.len(),
                alignment@.len() == alignment.matrix@.len(),
                slice == trimmed_row(start as int, end as int, extend as int),
                out@ == alignment@.take(r as int).filter_map(slice),
            decreases alignment@.len() - r,
        {
            let seq = &alignment.matrix[r];
            let seq_length = seq.sequence.len();
            let new_start: usize = if start <= extend {
                0
            } else {
                start - extend
            };
            let new_end: usize = if extend >= seq_length || end >= seq_length - extend {
                seq_length
            } else {
                end + extend
            };
            proof {
                assert(alignment@[r as int] == seq@);
                alignment@.lemma_filter_map_take_succ(slice, r as int);
            }
            if new_start <= new_end {
                let trimmed_seq = copy_range(&seq.sequence, new_start, new_end);
                out.add_sequence(Sequence { name: seq.name.clone(), sequence: trimmed_seq });
            }
            r += 1;
        }
        proof {
            assert(alignment@.take(alignment@.len() as int) =~= alignment@);
        }
        out
    }
}

/// For every symbol, how often it occurs in `col`.
fn symbol_table(col: &Vec<u8>) -> (table: Vec<usize>)
    ensures
        table@.len() == 256,
        forall|s: u8| #[trigger] table@[s as int] == occurrences(col@, s),
{
    let mut table: Vec<usize> = Vec::with_capacity(256);
    let mut k: usize = 0;
    while k < 256
        invariant
            k <= 256,
            table@.len() == k,
            forall|j: int| 0 <= j < k ==> table@[j] == 0,
        decreases 256 - k,
    {
        table.push(0);
        k += 1;
    }
    let mut i: usize = 0;
    proof {
        broadcast use group_multiset_axioms;

        assert(col@.take(0) =~= Seq::<u8>::empty());
        assert(col@.take(0).to_multiset() =~= Multiset::<u8>::empty()) by {
            broadcast use to_multiset_len;

            assert(col@.take(0).to_multiset().len() == 0);
        }
    }
    while i < col.len()
        invariant
            i <= col@.len(),
            table@.len() == 256,
            forall|s: u8| #[trigger] table@[s as int] == occurrences(col@.take(i as int), s),
        decreases col@.len() - i,
    {
        let b = col[i];
        proof {
            broadcast use group_multiset_axioms;
            broadcast use to_multiset_len;

            assert(col@.take(i + 1) =~= col@.take(i as int).push(b));
            to_multiset_build(col@.take(i as int), b);
            lemma_insert_increases_count_by_1(col@.take(i as int).to_multiset(), b);
            assert forall|s: u8| s != b implies occurrences(col@.take(i + 1), s) == occurrences(
                col@.take(i as int),
                s,
            ) by {
                lemma_insert_other_elements_unchanged(col@.take(i as int).to_multiset(), b, s);
            }
            assert(occurrences(col@.take(i as int), b) <= col@.take(i as int).to_multiset().len());
        }
        let n = table[b as usize];
        table.set(b as usize, n + 1);
        i += 1;
    }
    proof {
        assert(col@.take(col@.len() as int) =~= col@);
    }
    table
}

/// The modal symbol of the column that `table` counts, with its count.
fn modal_entry(table: &Vec<usize>) -> (m: (u8, usize))
    requires
        table@.len() == 256,
    ensures
        m.1 == table@[m.0 as int],
        forall|o: u8|
            table@[o as int] < m.1 || (#[trigger] table@[o as int] == m.1 && m.0 <= o),
{
    let mut best: u8 = 0;
    let mut best_count: usize = table[0];
    let mut s: usize = 1;
    while s < 256
        invariant
            1 <= s <= 256,
            table@.len() == 256,
            best < s,
            best_count == table@[best as int],
            forall|o: int|
                0 <= o < s ==> table@[o] < best_count || (#[trigger] table@[o] == best_count
                    && best <= o),
        decreases 256 - s,
    {
        if table[s] > best_count {
            best = s as u8;
            best_count = table[s];
        }
        s += 1;
    }
    (best, best_count)
}

impl Alignment {
    /// The conserved columns: for every column, by ascending position, a
    /// record of its identity and missingness, where the missingness is
    /// strictly below `miss` and the identity strictly above `iden`.
    pub fn find_blocks(&self, miss: Threshold, iden: Threshold) -> (blocks: BlockRecords)
        requires
            self@.len() > 0,
            rectangular(self@),
        ensures
            blocks.0@ == conserved_blocks(self@, miss, iden),
            ascending(blocks.0@),
            within(blocks.0@, width(self@)),
            forall|k: int|
                0 <= k < blocks.0@.len() ==> shares_of(#[trigger] blocks.0@[k], self@.len()),
    {
        let t = self.transpose();
        let rows = self.matrix.len();
        let mut blocks: BlockRecords = BlockRecords(Vec::new());
        let mut position: usize = 0;
        proof {
            reveal(Seq::filter);
            assert(column_records(self@).take(0) =~= Seq::<BlockRecord>::empty());
        }
        while position < t.len()
            invariant
                position <= t@.len(),
                t@.len() == width(self@),
                rows == self@.len(),
                forall|c: int| 0 <= c < t@.len() ==> (#[trigger] t@[c])@ == column(self@, c),
                blocks.0@ == column_records(self@).take(position as int).filter(
                    is_conserved(miss, iden),
                ),
                ascending(blocks.0@),
                forall|k: int| 0 <= k < blocks.0@.len() ==> (#[trigger] blocks.0@[k]).position < position,
                forall|k: int|
                    0 <= k < blocks.0@.len() ==> shares_of(#[trigger] blocks.0@[k], self@.len()),
            decreases t@.len() - position,
        {
            let table = symbol_table(&t[position]);
            let modal = modal_entry(&table);
            let ghost col = column(self@, position as int);
            proof {
                assert(t@[position as int]@ == col);
                assert(is_modal(col, modal.0)) by {
                    assert forall|o: u8|
                        occurrences(col, o) < occurrences(col, modal.0) || (#[trigger] occurrences(
                            col,
                            o,
                        ) == occurrences(col, modal.0) && modal.0 <= o) by {
                        assert(table@[o as int] == occurrences(col, o));
                        assert(table@[modal.0 as int] == occurrences(col, modal.0));
                    }
                }
                lemma_modal_unique(col, modal.0);
                broadcast use group_multiset_axioms;
                broadcast use to_multiset_len;

                assert(occurrences(col, modal.0) <= col.to_multiset().len());
                assert(occurrences(col, GAP) <= col.to_multiset().len());
            }
            let identical: usize = if modal.0 == GAP {
                0
            } else {
                modal.1
            };
            let record = BlockRecord {
                position,
                identity: Fraction { num: identical, den: rows },
                missing: Fraction { num: table[GAP as usize], den: rows },
            };
            assert(record == column_record(self@, position as int));
            proof {
                let all = column_records(self@);
                assert(all.take(position + 1) =~= all.take(position as int).push(record));
                all.take(position as int).lemma_filter_push(record, is_conserved(miss, iden));
            }
            if record.missing.is_below(&miss) && record.identity.is_above(&iden) {
                blocks.0.push(record);
            }
            position += 1;
        }
        proof {
            let all = column_records(self@);
            assert(all.take(all.len() as int) =~= all);
        }
        blocks
    }
}

} // verus!
