//! The conserved core of an alignment: the alignment trimmed to its
//! conserved blocks, and the consensus of what is left.

use crate::con::{consensus_of, get_consensus, no_gap, remove_gaps};
use crate::utils::alignment::{
    matrix_refusal, profile_of, rectangular, Alignment, Refusal, SequenceView,
};
use crate::utils::blocks::{conserved_blocks, lemma_trim_keeps_rows, trimmed, Threshold};
use vstd::prelude::*;

verus! {

/// The core of the rows: the rows trimmed to the span of their conserved
/// blocks.
pub open spec fn core_of(
    rows: Seq<SequenceView>,
    miss: Threshold,
    iden: Threshold,
    extend: int,
    next_hit: int,
) -> Seq<SequenceView> {
    trimmed(conserved_blocks(rows, miss, iden), rows, extend, next_hit)
}

/// Trims an alignment to its conserved core: the columns with a
/// missingness below `miss` and an identity above `iden` are sought, the
/// isolated ones among them are removed at a reach of `next_hit` columns,
/// and every row is cut to the span of the rest, with `extend` columns
/// more on each side. No row is lost, and the rows are again of one
/// length. An alignment without rows or with rows of unequal lengths is
/// refused.
pub fn ttc(alignment: Alignment, miss: Threshold, iden: Threshold, extend: usize, next_hit: usize) -> (core:
    Result<Alignment, Refusal>)
    ensures
        match core {
            Ok(core) => {
                &&& matrix_refusal(alignment@) is None
                &&& core@ == core_of(alignment@, miss, iden, extend as int, next_hit as int)
                &&& core@.len() == alignment@.len()
                &&& rectangular(core@)
            },
            Err(why) => matrix_refusal(alignment@) == Some(why),
        },
{
    match alignment.refusal() {
        Some(why) => Err(why),
        None => {
            let blocks = alignment.find_blocks(miss, iden);
            proof {
                lemma_trim_keeps_rows(blocks.0@, alignment@, extend as int, next_hit as int);
            }
            Ok(blocks.trim(alignment, extend, next_hit))
        },
    }
}

/// The consensus of the conserved core of the rows, without gaps: the
/// consensus of the core is called with the number of rows as the row
/// count, and the gaps are taken out of it.
pub open spec fn core_consensus_of(
    rows: Seq<SequenceView>,
    miss: Threshold,
    iden: Threshold,
    extend: int,
    next_hit: int,
) -> Seq<u8> {
    consensus_of(profile_of(core_of(rows, miss, iden, extend, next_hit)), rows.len() as int).filter(
        no_gap(),
    )
}

/// Why no consensus of the core is made, if none is: the rows are no
/// matrix, or there are more of them than the row count can hold.
pub open spec fn core_refusal(rows: Seq<SequenceView>) -> Option<Refusal> {
    if matrix_refusal(rows) is Some {
        matrix_refusal(rows)
    } else if rows.len() > i32::MAX {
        Some(Refusal::TooManySequences)
    } else {
        None
    }
}

/// The consensus of the conserved core of an alignment, without gaps.
pub fn core_consensus(
    alignment: Alignment,
    miss: Threshold,
    iden: Threshold,
    extend: usize,
    next_hit: usize,
) -> (consensus: Result<Vec<u8>, Refusal>)
    ensures
        match consensus {
            Ok(consensus) => core_refusal(alignment@) is None && consensus@ == core_consensus_of(
                alignment@,
                miss,
                iden,
                extend as int,
                next_hit as int,
            ),
            Err(why) => core_refusal(alignment@) == Some(why),
        },
{
    let rows = alignment.matrix.len();
    let core = match ttc(alignment, miss, iden, extend, next_hit) {
        Ok(core) => core,
        Err(why) => {
            return Err(why);
        },
    };
    if rows > 0x7FFF_FFFF {
        return Err(Refusal::TooManySequences);
    }
    let read_number: i32 = rows as i32;
    let profile = core.get_profile();
    let consensus = get_consensus(profile, read_number);
    Ok(remove_gaps(&consensus))
}

} // verus!
