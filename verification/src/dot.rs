//! Self dot plots: which windows of a sequence match which.

use crate::utils::alignment::Refusal;
use crate::utils::diversity::sites;
use crate::utils::windows::{all_windows, slices_of, SeqWindows};
use vstd::prelude::*;

verus! {

/// Whether a symbol stands for something unknown: the gap, `n`, `N` and
/// `?`.
pub open spec fn is_unknown(symbol: u8) -> bool {
    symbol == 45 || symbol == 110 || symbol == 78 || symbol == 63
}

/// Whether a k-mer holds a symbol that stands for something unknown.
pub open spec fn has_unknown(kmer: Seq<u8>) -> bool {
    exists|i: int| 0 <= i < kmer.len() && is_unknown(#[trigger] kmer[i])
}

/// The test for a site at which two k-mers do not agree.
pub open spec fn mismatch() -> spec_fn((u8, u8)) -> bool {
    |site: (u8, u8)| site.0 != site.1
}

/// The number of sites at which two k-mers do not agree, as far as the
/// shorter of the two reaches.
pub open spec fn mismatches(kmer1: Seq<u8>, kmer2: Seq<u8>) -> nat {
    sites(kmer1, kmer2).filter(mismatch()).len()
}

/// Whether two k-mers match: neither holds an unknown symbol, and they
/// disagree at no more than `nmatch` sites.
pub open spec fn kmers_match(kmer1: Seq<u8>, kmer2: Seq<u8>, nmatch: int) -> bool {
    !has_unknown(kmer1) && !has_unknown(kmer2) && mismatches(kmer1, kmer2) <= nmatch
}

/// Whether `kmer` holds a symbol that stands for something unknown.
fn holds_unknown(kmer: &[u8]) -> (found: bool)
    ensures
        found == has_unknown(kmer@),
{
    let mut i: usize = 0;
    while i < kmer.len()
        invariant
            i <= kmer@.len(),
            forall|k: int| 0 <= k < i ==> !is_unknown(#[trigger] kmer@[k]),
        decreases kmer@.len() - i,
    {
        let b = kmer[i];
        if b == 45u8 || b == 110u8 || b == 78u8 || b == 63u8 {
            return true;
        }
        i += 1;
    }
    false
}

/// Whether two k-mers match: false where either holds a gap, `n`, `N` or
/// `?`, and otherwise whether they disagree at no more than `nmatch`
/// sites.
pub fn match_case(kmer1: &[u8], kmer2: &[u8], nmatch: usize) -> (matches: bool)
    ensures
        matches == kmers_match(kmer1@, kmer2@, nmatch as int),
{
    if holds_unknown(kmer1) || holds_unknown(kmer2) {
        return false;
    }
    let n = if kmer1.len() <= kmer2.len() {
        kmer1.len()
    } else {
        kmer2.len()
    };
    let ghost all = sites(kmer1@, kmer2@);
    let mut counts_sum: usize = 0;
    let mut i: usize = 0;
    proof {
        reveal(Seq::filter);
        assert(all.take(0) =~= Seq::<(u8, u8)>::empty());
    }
    while i < n
        invariant
            i <= n,
            n == all.len(),
            all == sites(kmer1@, kmer2@),
            counts_sum == all.take(i as int).filter(mismatch()).len(),
            counts_sum <= i,
        decreases n - i,
    {
        let b1 = kmer1[i];
        let b2 = kmer2[i];
        proof {
            assert(all.take(i + 1) =~= all.take(i as int).push((b1, b2)));
            all.take(i as int).lemma_filter_push((b1, b2), mismatch());
        }
        if b1 != b2 {
            counts_sum += 1;
        }
        i += 1;
    }
    proof {
        assert(all.take(all.len() as int) =~= all);
    }
    counts_sum <= nmatch
}

/// The dot matrix of a sequence: entry `(row, column)` says whether
/// window `row` and window `column` match.
pub open spec fn dot_matrix_of(seq: Seq<u8>, wsize: nat, wstep: nat, nmatch: int) -> Seq<Seq<bool>> {
    let windows = all_windows(seq, wsize, wstep);
    Seq::new(
        windows.len(),
        |row: int|
            Seq::new(windows.len(), |column: int| kmers_match(windows[row], windows[column], nmatch)),
    )
}

/// What a vector of rows of flags holds.
pub open spec fn flags_of(v: Seq<Vec<bool>>) -> Seq<Seq<bool>> {
    Seq::new(v.len(), |i: int| v[i]@)
}

/// Compares every window of `wsize` symbols of `seq`, the windows `wstep`
/// symbols apart, with every other and with itself.
pub fn dot_matrix(seq: &[u8], wsize: usize, wstep: usize, nmatch: usize) -> (matrix: Vec<Vec<bool>>)
    requires
        wsize > 0,
        wstep > 0,
    ensures
        flags_of(matrix@) == dot_matrix_of(seq@, wsize as nat, wstep as nat, nmatch as int),
{
    let seq_windows = SeqWindows::new(seq, wsize, wstep);
    let seq_windows_vec = seq_windows.remaining();
    let no_its = seq_windows_vec.len();
    let ghost windows = all_windows(seq@, wsize as nat, wstep as nat);
    let mut matrix: Vec<Vec<bool>> = Vec::with_capacity(no_its);
    let mut row: usize = 0;
    while row < no_its
        invariant
            row <= no_its,
            no_its == seq_windows_vec@.len(),
            windows == all_windows(seq@, wsize as nat, wstep as nat),
            slices_of(seq_windows_vec@) == windows,
            matrix@.len() == row,
            forall|r: int|
                0 <= r < row ==> (#[trigger] matrix@[r])@ == dot_matrix_of(
                    seq@,
                    wsize as nat,
                    wstep as nat,
                    nmatch as int,
                )[r],
        decreases no_its - row,
    {
        let mut line: Vec<bool> = Vec::with_capacity(no_its);
        let mut column: usize = 0;
        while column < no_its
            invariant
                row < no_its,
                column <= no_its,
                no_its == seq_windows_vec@.len(),
                windows == all_windows(seq@, wsize as nat, wstep as nat),
                slices_of(seq_windows_vec@) == windows,
                line@.len() == column,
                forall|c: int|
                    0 <= c < column ==> line@[c] == kmers_match(
                        windows[row as int],
                        windows[c],
                        nmatch as int,
                    ),
            decreases no_its - column,
        {
            let k1 = seq_windows_vec[row];
            let k2 = seq_windows_vec[column];
            assert(slices_of(seq_windows_vec@)[row as int] == k1@);
            assert(slices_of(seq_windows_vec@)[column as int] == k2@);
            line.push(match_case(k1, k2, nmatch));
            column += 1;
        }
        assert(line@ =~= dot_matrix_of(seq@, wsize as nat, wstep as nat, nmatch as int)[row as int]);
        matrix.push(line);
        row += 1;
    }
    assert(flags_of(matrix@) =~= dot_matrix_of(seq@, wsize as nat, wstep as nat, nmatch as int));
    matrix
}

/// Why no dot matrix is made, if none is: the windows have no symbols,
/// or they do not move.
pub open spec fn dot_refusal(wsize: nat, wstep: nat) -> Option<Refusal> {
    if wsize == 0 {
        Some(Refusal::ZeroWindow)
    } else if wstep == 0 {
        Some(Refusal::ZeroStep)
    } else {
        None
    }
}

/// The self dot matrix of a sequence: every window of `wsize` symbols,
/// the windows `wstep` symbols apart, is compared with every other and
/// with itself; two windows match where neither holds an unknown symbol
/// and they disagree at no more than `nmatch` sites.
pub fn dot(seq: &[u8], wsize: usize, wstep: usize, nmatch: usize) -> (matrix: Result<
    Vec<Vec<bool>>,
    Refusal,
>)
    ensures
        match matrix {
            Ok(matrix) => dot_refusal(wsize as nat, wstep as nat) is None && flags_of(matrix@)
                == dot_matrix_of(seq@, wsize as nat, wstep as nat, nmatch as int),
            Err(why) => dot_refusal(wsize as nat, wstep as nat) == Some(why),
        },
{
    if wsize == 0 {
        Err(Refusal::ZeroWindow)
    } else if wstep == 0 {
        Err(Refusal::ZeroStep)
    } else {
        Ok(dot_matrix(seq, wsize, wstep, nmatch))
    }
}

} // verus!
