//! The alignment matrix: an ordered collection of named byte sequences of
//! equal length, one row per input sequence.

use std::collections::HashMap;
use vstd::multiset::*;
use vstd::prelude::*;
use vstd::seq_lib::*;
use vstd::std_specs::hash::*;

verus! {

broadcast use vstd::std_specs::hash::group_hash_axioms;

/// The gap symbol `-`.
pub const GAP: u8 = 45;

/// Why an input is refused.
#[derive(Clone, Copy, Debug, PartialEq, Eq)]
pub enum Refusal {
    /// There is no sequence.
    NoSequences,
    /// The sequences are not all of the same length.
    UnequalLengths,
    /// There are fewer sequences than the computation needs.
    TooFewSequences,
    /// There are more sequences than the computation can count.
    TooManySequences,
    /// A step of no symbols was asked for.
    ZeroStep,
    /// A window of no symbols was asked for.
    ZeroWindow,
    /// The ends to look at are longer than the sequences.
    EndsTooLong,
    /// A sequence is too long to be aligned.
    TooLong,
}

/// One named row of an alignment.
#[derive(Debug)]
pub struct Sequence {
    pub name: String,
    pub sequence: Vec<u8>,
}

/// What a `Sequence` is: its name and its symbols.
pub struct SequenceView {
    pub name: Seq<char>,
    pub symbols: Seq<u8>,
}

impl View for Sequence {
    type V = SequenceView;

    open spec fn view(&self) -> SequenceView {
        SequenceView { name: self.name@, symbols: self.sequence@ }
    }
}

impl Sequence {
    /// The number of symbols.
    pub fn len(&self) -> (n: usize)
        ensures
            n == self@.symbols.len(),
    {
        self.sequence.len()
    }

    /// Whether the sequence has no symbol.
    pub fn is_empty(&self) -> (b: bool)
        ensures
            b <==> self@.symbols.len() == 0,
    {
        self.sequence.len() == 0
    }
}

/// All the sequences of an alignment, in input order.
#[derive(Debug)]
pub struct Alignment {
    pub matrix: Vec<Sequence>,
}

impl View for Alignment {
    type V = Seq<SequenceView>;

    open spec fn view(&self) -> Seq<SequenceView> {
        Seq::new(self.matrix@.len(), |i: int| self.matrix@[i]@)
    }
}

/// Whether all rows have the same number of symbols.
pub open spec fn rectangular(rows: Seq<SequenceView>) -> bool {
    forall|i: int, j: int|
        0 <= i < rows.len() && 0 <= j < rows.len() ==> (#[trigger] rows[i]).symbols.len() == (
        #[trigger] rows[j]).symbols.len()
}

/// The number of columns: the length of the first row, and 0 where there
/// is no row.
pub open spec fn width(rows: Seq<SequenceView>) -> nat {
    if rows.len() == 0 {
        0
    } else {
        rows[0].symbols.len()
    }
}

/// Column `col` of the matrix, read from the first row to the last.
pub open spec fn column(rows: Seq<SequenceView>, col: int) -> Seq<u8> {
    Seq::new(rows.len(), |r: int| rows[r].symbols[col])
}

/// Why the rows are no matrix, if they are none: there is no row, or the
/// rows are not all of one length.
pub open spec fn matrix_refusal(rows: Seq<SequenceView>) -> Option<Refusal> {
    if rows.len() == 0 {
        Some(Refusal::NoSequences)
    } else if !rectangular(rows) {
        Some(Refusal::UnequalLengths)
    } else {
        None
    }
}

/// How often `symbol` occurs in `symbols`.
pub open spec fn occurrences(symbols: Seq<u8>, symbol: u8) -> nat {
    symbols.to_multiset().count(symbol)
}

/// The profile of a column: it maps every symbol that occurs in the
/// column, and no other, to the number of its occurrences.
pub open spec fn column_profile(col: Seq<u8>) -> Map<u8, usize> {
    Map::new(|s: u8| col.contains(s), |s: u8| occurrences(col, s) as usize)
}

/// The profile of every column, by position.
pub open spec fn profile_of(rows: Seq<SequenceView>) -> Seq<Map<u8, usize>> {
    Seq::new(width(rows), |c: int| column_profile(column(rows, c)))
}

/// The maps that a vector of hash maps holds.
pub open spec fn maps_of(v: Seq<HashMap<u8, usize>>) -> Seq<Map<u8, usize>> {
    Seq::new(v.len(), |i: int| v[i]@)
}

/// Counts the symbols of one column.
pub fn profile_column(col: &Vec<u8>) -> (profile: HashMap<u8, usize>)
    ensures
        profile@ == column_profile(col@),
{
    let mut profile: HashMap<u8, usize> = HashMap::new();
    let mut i: usize = 0;
    proof {
        assert(col@.take(0) =~= Seq::<u8>::empty());
        assert(profile@ =~= column_profile(col@.take(0)));
    }
    while i < col.len()
        invariant
            i <= col@.len(),
            profile@ == column_profile(col@.take(i as int)),
        decreases col@.len() - i,
    {
        let base = col[i];
        let ghost seen = col@.take(i as int);
        proof {
            broadcast use group_multiset_axioms;
            broadcast use to_multiset_len;
            broadcast use to_multiset_contains;

            assert(col@.take(i + 1) =~= seen.push(base));
            to_multiset_build(seen, base);
            lemma_insert_increases_count_by_1(seen.to_multiset(), base);
            assert forall|s: u8| s != base implies occurrences(seen.push(base), s) == occurrences(
                seen,
                s,
            ) by {
                lemma_insert_other_elements_unchanged(seen.to_multiset(), base, s);
            }
            assert(occurrences(seen, base) <= seen.to_multiset().len());
            assert(seen.contains(base) <==> occurrences(seen, base) > 0);
            assert forall|s: u8| seen.push(base).contains(s) <==> (seen.contains(s) || s
                == base) by {
                assert(seen.contains(s) <==> occurrences(seen, s) > 0);
                assert(seen.push(base).contains(s) <==> occurrences(seen.push(base), s) > 0);
            }
        }
        let n: usize = match profile.get(&base) {
            Some(n) => *n,
            None => 0,
        };
        assert(n == occurrences(seen, base));
        profile.insert(base, n + 1);
        assert(profile@ =~= column_profile(col@.take(i + 1)));
        i += 1;
    }
    proof {
        assert(col@.take(col@.len() as int) =~= col@);
    }
    profile
}

/// A copy of the symbols of `v` from index `lo` up to, not including,
/// index `hi`.
pub fn copy_range(v: &Vec<u8>, lo: usize, hi: usize) -> (r: Vec<u8>)
    requires
        lo <= hi <= v@.len(),
    ensures
        r@ == v@.subrange(lo as int, hi as int),
{
    let mut r: Vec<u8> = Vec::with_capacity(hi - lo);
    let mut i: usize = lo;
    while i < hi
        invariant
            lo <= i <= hi <= v@.len(),
            r@ == v@.subrange(lo as int, i as int),
        decreases hi - i,
    {
        r.push(v[i]);
        assert(r@ =~= v@.subrange(lo as int, i + 1));
        i += 1;
    }
    r
}

impl Alignment {
    /// An alignment without rows.
    pub fn new() -> (a: Self)
        ensures
            a@ == Seq::<SequenceView>::empty(),
    {
        let a = Alignment { matrix: Vec::new() };
        assert(a@ =~= Seq::<SequenceView>::empty());
        a
    }

    /// Appends `seq` as the last row.
    pub fn add_sequence(&mut self, seq: Sequence)
        ensures
            final(self)@ == old(self)@.push(seq@),
    {
        self.matrix.push(seq);
        assert(self@ =~= old(self)@.push(seq@));
    }

    /// Removes every row.
    pub fn clear(&mut self)
        ensures
            final(self)@ == Seq::<SequenceView>::empty(),
    {
        self.matrix.clear();
        assert(self@ =~= Seq::<SequenceView>::empty());
    }

    /// Whether all rows have the same number of symbols.
    pub fn is_rectangular(&self) -> (ok: bool)
        ensures
            ok == rectangular(self@),
    {
        if self.matrix.len() == 0 {
            return true;
        }
        let first = self.matrix[0].sequence.len();
        let mut r: usize = 1;
        while r < self.matrix.len()
            invariant
                1 <= r <= self@.len(),
                self@.len() == self.matrix@.len(),
                first == self@[0].symbols.len(),
                forall|k: int| 0 <= k < r ==> (#[trigger] self@[k]).symbols.len() == first,
            decreases self@.len() - r,
        {
            assert(self@[r as int].symbols == self.matrix@[r as int].sequence@);
            if self.matrix[r].sequence.len() != first {
                assert(self@[r as int].symbols.len() != self@[0].symbols.len());
                return false;
            }
            r += 1;
        }
        true
    }

    /// Why the alignment is no matrix, if it is none.
    pub fn refusal(&self) -> (why: Option<Refusal>)
        ensures
            why == matrix_refusal(self@),
    {
        if self.matrix.len() == 0 {
            Some(Refusal::NoSequences)
        } else if !self.is_rectangular() {
            Some(Refusal::UnequalLengths)
        } else {
            None
        }
    }

    /// The profile of the alignment: for every column the number of
    /// occurrences of each symbol in it, gaps included.
    pub fn get_profile(&self) -> (profile: Vec<HashMap<u8, usize>>)
        requires
            self@.len() > 0,
            rectangular(self@),
        ensures
            maps_of(profile@) == profile_of(self@),
    {
        let t = self.transpose();
        let mut profile: Vec<HashMap<u8, usize>> = Vec::with_capacity(t.len());
        let mut i: usize = 0;
        while i < t.len()
            invariant
                i <= t@.len(),
                t@.len() == width(self@),
                forall|c: int| 0 <= c < t@.len() ==> (#[trigger] t@[c])@ == column(self@, c),
                profile@.len() == i,
                forall|c: int|
                    0 <= c < i ==> (#[trigger] profile@[c])@ == column_profile(column(self@, c)),
            decreases t@.len() - i,
        {
            profile.push(profile_column(&t[i]));
            i += 1;
        }
        assert(maps_of(profile@) =~= profile_of(self@));
        profile
    }

    /// The matrix by columns: entry `c` holds the symbols of column `c`
    /// in row order.
    pub fn transpose(&self) -> (t: Vec<Vec<u8>>)
        requires
            self@.len() > 0,
            rectangular(self@),
        ensures
            t@.len() == width(self@),
            forall|c: int| 0 <= c < t@.len() ==> (#[trigger] t@[c])@.len() == self@.len(),
            forall|c: int| 0 <= c < t@.len() ==> (#[trigger] t@[c])@ == column(self@, c),
    {
        let rows = self.matrix.len();
        let cols = self.matrix[0].sequence.len();
        let mut t: Vec<Vec<u8>> = Vec::new();
        let mut c: usize = 0;
        while c < cols
            invariant
                rows == self@.len(),
                rows > 0,
                cols == width(self@),
                rectangular(self@),
                c <= cols,
                t@.len() == c,
                forall|k: int| 0 <= k < c ==> (#[trigger] t@[k])@ == column(self@, k),
            decreases cols - c,
        {
            let mut col: Vec<u8> = Vec::new();
            let mut r: usize = 0;
            while r < rows
                invariant
                    rows == self@.len(),
                    rows > 0,
                    cols == width(self@),
                    rectangular(self@),
                    c < cols,
                    r <= rows,
                    col@.len() == r,
                    forall|k: int| 0 <= k < r ==> col@[k] == self@[k].symbols[c as int],
                decreases rows - r,
            {
                assert(self@[r as int].symbols.len() == self@[0].symbols.len());
                col.push(self.matrix[r].sequence[c]);
                r += 1;
            }
            assert(col@ =~= column(self@, c as int));
            t.push(col);
            c += 1;
        }
        t
    }
}

} // verus!
