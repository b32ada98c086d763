//! Target-site-duplication candidates of the sequences of an alignment.

use crate::utils::alignment::{matrix_refusal, width, Alignment, Refusal, SequenceView};
use crate::utils::tsd::{groups_in, is_part_of, merged_groups, tsd_entries, TsdCandidates};
use vstd::prelude::*;

verus! {

/// Why no candidates are sought, if none are: the rows are no matrix, the
/// ends to look at are longer than the rows (or than can be counted
/// twice), or windows of no symbols are asked for.
pub open spec fn tsd_refusal(rows: Seq<SequenceView>, length: nat, min_window: nat) -> Option<
    Refusal,
> {
    if matrix_refusal(rows) is Some {
        matrix_refusal(rows)
    } else if length > width(rows) || 2 * length > usize::MAX {
        Some(Refusal::EndsTooLong)
    } else if min_window == 0 {
        Some(Refusal::ZeroWindow)
    } else {
        None
    }
}

/// The target-site-duplication candidates of every sequence: the k-mers
/// of every length from `min_window` to `max_window` that stand, without
/// a gap, both in the first `length` and in the last `length` symbols of
/// the sequence, without those that are a part of another candidate of
/// the same sequence. There is one group for each sequence name, in the
/// order in which the names first occur.
pub fn find_tsds(alignment: &Alignment, length: usize, min_window: usize, max_window: usize) -> (found:
    Result<Vec<TsdCandidates>, Refusal>)
    ensures
        match found {
            Ok(groups) => {
                &&& tsd_refusal(alignment@, length as nat, min_window as nat) is None
                &&& groups_in(groups@) == merged_groups(
                    tsd_entries(alignment@, length as int, min_window as int, max_window as int),
                )
                &&& forall|g: int, i: int, j: int|
                    #![trigger groups@[g]@.candidates[i], groups@[g]@.candidates[j]]
                    0 <= g < groups@.len() && 0 <= i < groups@[g]@.candidates.len() && 0 <= j
                        < groups@[g]@.candidates.len() && groups@[g]@.candidates[i]
                        != groups@[g]@.candidates[j] ==> !is_part_of(
                        groups@[g]@.candidates[i],
                        groups@[g]@.candidates[j],
                    )
            },
            Err(why) => tsd_refusal(alignment@, length as nat, min_window as nat) == Some(why),
        },
{
    match alignment.refusal() {
        Some(why) => Err(why),
        None => {
            if length > alignment.matrix[0].len() || length > usize::MAX / 2 {
                Err(Refusal::EndsTooLong)
            } else if min_window == 0 {
                Err(Refusal::ZeroWindow)
            } else {
                Ok(alignment.to_tsd_hash(length, min_window, max_window).merge())
            }
        },
    }
}

} // verus!
