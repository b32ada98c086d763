//! Nucleotide diversity in the windows of an alignment.

use crate::utils::alignment::{matrix_refusal, Alignment, Refusal, SequenceView};
use crate::utils::diversity::{windows_in, windows_of_alignment, Diversity};
use vstd::prelude::*;

verus! {

/// Why no diversity is computed, if none is: the rows are no matrix,
/// there are fewer than two of them or more than can be counted, or the
/// windows do not move.
pub open spec fn diversity_refusal(rows: Seq<SequenceView>, window_step: nat) -> Option<Refusal> {
    if matrix_refusal(rows) is Some {
        matrix_refusal(rows)
    } else if rows.len() < 2 {
        Some(Refusal::TooFewSequences)
    } else if rows.len() > 0xFFFF_FFFF {
        Some(Refusal::TooManySequences)
    } else if window_step == 0 {
        Some(Refusal::ZeroStep)
    } else {
        None
    }
}

/// The diversity of every window of `window_size` columns of the
/// alignment, the windows `window_step` columns apart: for each its first
/// column, the column after its last, and its diversity.
pub fn diversity_windows(alignment: &Alignment, window_size: usize, window_step: usize) -> (data:
    Result<Vec<(usize, usize, Diversity)>, Refusal>)
    ensures
        match data {
            Ok(data) => diversity_refusal(alignment@, window_step as nat) is None && windows_in(
                data@,
            ) == windows_of_alignment(alignment@, window_size as nat, window_step as nat),
            Err(why) => diversity_refusal(alignment@, window_step as nat) == Some(why),
        },
{
    match alignment.refusal() {
        Some(why) => Err(why),
        None => {
            if alignment.matrix.len() < 2 {
                Err(Refusal::TooFewSequences)
            } else if alignment.matrix.len() > 0xFFFF_FFFF {
                Err(Refusal::TooManySequences)
            } else if window_step == 0 {
                Err(Refusal::ZeroStep)
            } else {
                Ok(alignment.div_windows(window_size, window_step))
            }
        },
    }
}

} // verus!
