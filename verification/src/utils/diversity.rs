//! Nucleotide diversity: the number of sites at which two sequences
//! differ, summed over all pairs of rows, for a whole alignment and for
//! the windows that slide over it.

use crate::utils::alignment::{copy_range, rectangular, width, Alignment, Sequence, SequenceView};
use vstd::prelude::*;

verus! {

/// Whether a symbol is left out of comparisons: the gap, `N` and `n`.
pub open spec fn is_masked(symbol: u8) -> bool {
    symbol == 45 || symbol == 78 || symbol == 110
}

/// The test for a site at which two sequences differ: the two symbols
/// are not the same and neither is masked.
pub open spec fn differs() -> spec_fn((u8, u8)) -> bool {
    |site: (u8, u8)| site.0 != site.1 && !is_masked(site.0) && !is_masked(site.1)
}

/// The sites of two sequences: the pairs of their symbols at the same
/// index, as far as the shorter of the two reaches.
pub open spec fn sites(seq1: Seq<u8>, seq2: Seq<u8>) -> Seq<(u8, u8)> {
    Seq::new(
        if seq1.len() <= seq2.len() {
            seq1.len()
        } else {
            seq2.len()
        },
        |i: int| (seq1[i], seq2[i]),
    )
}

/// The masked Hamming distance: the number of sites at which the two
/// sequences differ.
pub open spec fn hamming(seq1: Seq<u8>, seq2: Seq<u8>) -> nat {
    sites(seq1, seq2).filter(differs()).len()
}

/// The distances of row `i` to the rows after it and before row `bound`,
/// added up.
pub open spec fn distance_to_later(rows: Seq<SequenceView>, i: int, bound: int) -> nat
    decreases bound - i,
{
    if bound <= i + 1 {
        0
    } else {
        distance_to_later(rows, i, bound - 1) + hamming(rows[i].symbols, rows[bound - 1].symbols)
    }
}

/// The distances of all pairs of rows of which the first is before row
/// `bound`, added up.
pub open spec fn pairwise_upto(rows: Seq<SequenceView>, bound: int) -> nat
    decreases bound,
{
    if bound <= 0 {
        0
    } else {
        pairwise_upto(rows, bound - 1) + distance_to_later(rows, bound - 1, rows.len() as int)
    }
}

/// The distances of all unordered pairs of rows, added up.
pub open spec fn pairwise_differences(rows: Seq<SequenceView>) -> nat {
    pairwise_upto(rows, rows.len() as int)
}

/// The number of unordered pairs of `n` things.
pub open spec fn pair_count(n: nat) -> nat {
    (n * (n - 1) / 2) as nat
}

/// Nucleotide diversity as a ratio: the differences found in all pairs
/// of rows, over the number of pairs.
#[derive(Clone, Copy, Debug)]
pub struct Diversity {
    pub differences: u128,
    pub pairs: u64,
}

/// What a window with its diversity is: its first column, the column
/// after its last, and the differences and pairs of the rows within it.
pub struct WindowView {
    pub start: nat,
    pub end: nat,
    pub differences: nat,
    pub pairs: nat,
}

/// What a vector of windows holds.
pub open spec fn windows_in(v: Seq<(usize, usize, Diversity)>) -> Seq<WindowView> {
    Seq::new(
        v.len(),
        |i: int|
            WindowView {
                start: v[i].0 as nat,
                end: v[i].1 as nat,
                differences: v[i].2.differences as nat,
                pairs: v[i].2.pairs as nat,
            },
    )
}

/// The rows cut to the columns from `start` up to, not including, `end`.
pub open spec fn sliced(rows: Seq<SequenceView>, start: int, end: int) -> Seq<SequenceView> {
    Seq::new(
        rows.len(),
        |r: int| SequenceView { name: rows[r].name, symbols: rows[r].symbols.subrange(start, end) },
    )
}

/// The number of windows of `size` columns, `step` columns apart, that an
/// alignment of `width` columns holds.
pub open spec fn window_count(width: nat, size: nat, step: nat) -> nat {
    if size > width || step == 0 {
        0
    } else {
        ((width - size) / step as int + 1) as nat
    }
}

/// Window `k` of an alignment: it starts `k` steps from the first
/// column, and its diversity is that of the rows cut to it.
pub open spec fn window_at(rows: Seq<SequenceView>, size: nat, step: nat, k: int) -> WindowView {
    WindowView {
        start: (k * step) as nat,
        end: (k * step + size) as nat,
        differences: pairwise_differences(sliced(rows, k * step, k * step + size)),
        pairs: pair_count(rows.len()),
    }
}

/// All windows of an alignment, from left to right.
pub open spec fn windows_of_alignment(rows: Seq<SequenceView>, size: nat, step: nat) -> Seq<
    WindowView,
> {
    Seq::new(window_count(width(rows), size, step), |k: int| window_at(rows, size, step, k))
}

/// A sequence is at distance 0 from itself.
pub proof fn lemma_hamming_same(seq: Seq<u8>)
    ensures
        hamming(seq, seq) == 0,
{
    let s = sites(seq, seq);
    assert forall|site: (u8, u8)| s.contains(site) implies !differs()(site) by {
        let i = choose|i: int| 0 <= i < s.len() && s[i] == site;
        assert(s[i].0 == s[i].1);
    }
    s.lemma_all_neg_filter_empty(differs());
}

/// Two rows with the same symbols have no diversity: the differences of
/// the pair are 0, over one pair.
pub proof fn lemma_identical_pair(first: SequenceView, second: SequenceView)
    requires
        first.symbols == second.symbols,
    ensures
        pairwise_differences(seq![first, second]) == 0,
        pair_count(seq![first, second].len()) == 1,
{
    let rows = seq![first, second];
    lemma_hamming_same(first.symbols);
    reveal_with_fuel(pairwise_upto, 3);
    reveal_with_fuel(distance_to_later, 3);
    assert(rows[0] == first && rows[1] == second);
    assert(pair_count(2) == 1);
}

impl Alignment {
    /// The masked Hamming distance of two sequences: the number of
    /// indices, as far as the shorter reaches, at which the symbols
    /// differ and neither is a gap, `N` or `n`.
    pub fn hamming_distance(seq1: &[u8], seq2: &[u8]) -> (distance: usize)
        ensures
            distance == hamming(seq1@, seq2@),
    {
        let n = if seq1.len() <= seq2.len() {
            seq1.len()
        } else {
            seq2.len()
        };
        let ghost all = sites(seq1@, seq2@);
        let mut distance: usize = 0;
        let mut i: usize = 0;
        proof {
            reveal(Seq::filter);
            assert(all.take(0) =~= Seq::<(u8, u8)>::empty());
        }
        while i < n
            invariant
                i <= n,
                n == all.len(),
                all == sites(seq1@, seq2@),
                distance == all.take(i as int).filter(differs()).len(),
                distance <= i,
            decreases n - i,
        {
            let b1 = seq1[i];
            let b2 = seq2[i];
            proof {
                assert(all.take(i + 1) =~= all.take(i as int).push((b1, b2)));
                all.take(i as int).lemma_filter_push((b1, b2), differs());
            }
            if b1 != b2 && b1 != 45u8 && b2 != 45u8 && b1 != 78u8 && b2 != 78u8 && b1 != 110u8 && b2
                != 110u8 {
                distance += 1;
            }
            i += 1;
        }
        proof {
            assert(all.take(all.len() as int) =~= all);
        }
        distance
    }

    /// The nucleotide diversity of the alignment: the masked Hamming
    /// distances of all unordered pairs of rows, added up, over the
    /// number of pairs.
    pub fn calculate_pi(&self) -> (pi: Diversity)
        requires
            2 <= self@.len() <= 0xFFFF_FFFF,
        ensures
            pi.differences == pairwise_differences(self@),
            pi.pairs == pair_count(self@.len()),
            pi.pairs > 0,
    {
        let align_length = self.matrix.len();
        let mut differences: u128 = 0;
        let mut i: usize = 0;
        while i < align_length
            invariant
                i <= align_length,
                align_length == self@.len(),
                align_length == self.matrix@.len(),
                align_length <= 0xFFFF_FFFF,
                differences == pairwise_upto(self@, i as int),
                differences <= i * align_length * 0xFFFF_FFFF_FFFF_FFFF,
            decreases align_length - i,
        {
            let mut row_sum: u128 = 0;
            let mut j: usize = i + 1;
            while j < align_length
                invariant
                    i < j <= align_length,
                    align_length == self@.len(),
                    align_length == self.matrix@.len(),
                    align_length <= 0xFFFF_FFFF,
                    row_sum == distance_to_later(self@, i as int, j as int),
                    row_sum <= j * 0xFFFF_FFFF_FFFF_FFFF,
                decreases align_length - j,
            {
                let d = Self::hamming_distance(
                    self.matrix[i].sequence.as_slice(),
                    self.matrix[j].sequence.as_slice(),
                );
                assert(self@[i as int].symbols == self.matrix@[i as int].sequence@);
                assert(self@[j as int].symbols == self.matrix@[j as int].sequence@);
                row_sum = row_sum + d as u128;
                j += 1;
            }
            assert(row_sum <= align_length * 0xFFFF_FFFF_FFFF_FFFF) by (nonlinear_arith)
                requires
                    row_sum <= j * 0xFFFF_FFFF_FFFF_FFFF,
                    j <= align_length,
            ;
            assert((i + 1) * align_length * 0xFFFF_FFFF_FFFF_FFFF == i * align_length
                * 0xFFFF_FFFF_FFFF_FFFF + align_length * 0xFFFF_FFFF_FFFF_FFFF)
                by (nonlinear_arith);
            assert((i + 1) * align_length * 0xFFFF_FFFF_FFFF_FFFF <= 0xFFFF_FFFF * 0xFFFF_FFFF
                * 0xFFFF_FFFF_FFFF_FFFF) by (nonlinear_arith)
                requires
                    i + 1 <= align_length,
                    align_length <= 0xFFFF_FFFF,
            ;
            differences = differences + row_sum;
            i += 1;
        }
        let n = align_length as u64;
        assert(n * (n - 1) <= 0xFFFF_FFFF * 0xFFFF_FFFF) by (nonlinear_arith)
            requires
                2 <= n <= 0xFFFF_FFFF,
        ;
        assert(n * (n - 1) >= 2) by (nonlinear_arith)
            requires
                2 <= n,
        ;
        let pairs: u64 = n * (n - 1) / 2;
        Diversity { differences, pairs }
    }

    /// The diversity of every window of `window_size` columns, the
    /// windows `window_step` columns apart from the first column on, as
    /// far as whole windows fit: for each its first column, the column
    /// after its last, and the diversity of the rows cut to it.
    pub fn div_windows(&self, window_size: usize, window_step: usize) -> (data: Vec<
        (usize, usize, Diversity),
    >)
        requires
            2 <= self@.len() <= 0xFFFF_FFFF,
            rectangular(self@),
            window_step > 0,
        ensures
            windows_in(data@) == windows_of_alignment(
                self@,
                window_size as nat,
                window_step as nat,
            ),
    {
        let mut data: Vec<(usize, usize, Diversity)> = Vec::new();
        let length = self.matrix[0].len();
        if window_size > length {
            assert(windows_in(data@) =~= windows_of_alignment(
                self@,
                window_size as nat,
                window_step as nat,
            ));
            return data;
        }
        let last_start = length - window_size;
        let ghost count = window_count(length as nat, window_size as nat, window_step as nat);
        let mut window = Alignment::new();
        let mut start: usize = 0;
        let ghost mut k: int = 0;
        loop
            invariant_except_break
                2 <= self@.len() <= 0xFFFF_FFFF,
                self@.len() == self.matrix@.len(),
                rectangular(self@),
                window_step > 0,
                length == width(self@),
                window_size <= length,
                last_start == length - window_size,
                count == window_count(length as nat, window_size as nat, window_step as nat),
                count == last_start as int / window_step as int + 1,
                0 <= k < count,
                start == k * window_step,
                start <= last_start,
                window@.len() == 0,
                data@.len() == k,
                forall|w: int|
                    0 <= w < k ==> #[trigger] windows_in(data@)[w] == window_at(
                        self@,
                        window_size as nat,
                        window_step as nat,
                        w,
                    ),
            ensures
                windows_in(data@) == windows_of_alignment(
                    self@,
                    window_size as nat,
                    window_step as nat,
                ),
            decreases last_start - start,
        {
            let end = start + window_size;
            let mut r: usize = 0;
            while r < self.matrix.len()
                invariant
                    r <= self@.len(),
                    self@.len() == self.matrix@.len(),
                    rectangular(self@),
                    length == width(self@),
                    start <= end <= length,
                    window@ == sliced(self@, start as int, end as int).take(r as int),
                decreases self@.len() - r,
            {
                let row = &self.matrix[r];
                assert(self@[r as int] == row@);
                assert(row@.symbols.len() == self@[0].symbols.len());
                let seq = copy_range(&row.sequence, start, end);
                window.add_sequence(Sequence { name: row.name.clone(), sequence: seq });
                assert(window@ =~= sliced(self@, start as int, end as int).take(r + 1));
                r += 1;
            }
            assert(window@ =~= sliced(self@, start as int, end as int));
            let pi = window.calculate_pi();
            let ghost before = data@;
            data.push((start, end, pi));
            window.clear();
            proof {
                assert(sliced(self@, start as int, end as int).len() == self@.len());
                assert(windows_in(data@)[k] == window_at(
                    self@,
                    window_size as nat,
                    window_step as nat,
                    k,
                ));
                assert forall|w: int| 0 <= w < k implies #[trigger] windows_in(data@)[w]
                    == window_at(self@, window_size as nat, window_step as nat, w) by {
                    assert(data@[w] == before[w]);
                    assert(windows_in(before)[w] == window_at(
                        self@,
                        window_size as nat,
                        window_step as nat,
                        w,
                    ));
                }
            }
            if last_start - start < window_step {
                proof {
                    assert(k + 1 == count) by (nonlinear_arith)
                        requires
                            start == k * window_step,
                            start <= last_start,
                            last_start - start < window_step,
                            window_step > 0,
                            count == last_start as int / window_step as int + 1,
                    ;
                    assert(windows_in(data@) =~= windows_of_alignment(
                        self@,
                        window_size as nat,
                        window_step as nat,
                    ));
                }
                break ;
            }
            proof {
                assert(k + 1 < count && (k + 1) * window_step == start + window_step)
                    by (nonlinear_arith)
                    requires
                        start == k * window_step,
                        start + window_step <= last_start,
                        window_step > 0,
                        count == last_start as int / window_step as int + 1,
                ;
                k = k + 1;
            }
            start = start + window_step;
        }
        data
    }
}

} // verus!
