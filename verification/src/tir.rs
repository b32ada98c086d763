//! Evidence of terminal inverted repeats: the consensus of the conserved
//! core of an alignment, aligned against its own reverse complement.

use crate::ttc::{core_consensus, core_consensus_of, core_refusal};
use crate::utils::alignment::{Alignment, Refusal, SequenceView};
use crate::utils::blocks::Threshold;
use crate::utils::operation::AlignmentOp;
use crate::utils::revcomp::{reverse_complement, reverse_complement_of};
use crate::utils::seqcount::{decides_equality, is_run, SequentialCount};
use bio::alignment::pairwise::Aligner;
use bio::alignment::{Alignment as BioAlignment, AlignmentMode, AlignmentOperation};
use vstd::prelude::*;

verus! {

/// The longest sequence that is aligned.
pub const MAX_ALIGNED: usize = 0x10_0000;

/// A pairwise alignment of a sequence `x` against a sequence `y`: its
/// score, where it begins and ends in `x` and in `y`, and its operations.
#[derive(Debug)]
pub struct PairwiseAlignment {
    pub score: i32,
    pub xstart: usize,
    pub xend: usize,
    pub ystart: usize,
    pub yend: usize,
    pub operations: Vec<AlignmentOp>,
}

/// What a `PairwiseAlignment` is.
pub struct PairwiseAlignmentView {
    pub score: int,
    pub xstart: nat,
    pub xend: nat,
    pub ystart: nat,
    pub yend: nat,
    pub operations: Seq<AlignmentOp>,
}

impl View for PairwiseAlignment {
    type V = PairwiseAlignmentView;

    open spec fn view(&self) -> PairwiseAlignmentView {
        PairwiseAlignmentView {
            score: self.score as int,
            xstart: self.xstart as nat,
            xend: self.xend as nat,
            ystart: self.ystart as nat,
            yend: self.yend as nat,
            operations: self.operations@,
        }
    }
}

/// The score of two symbols that are aligned with each other.
pub open spec fn match_score_of(a: u8, b: u8) -> int {
    if a == b {
        1
    } else {
        -1
    }
}

/// The score of two symbols that are aligned with each other: 1 where
/// they are the same, -1 where they are not.
pub fn match_score(a: u8, b: u8) -> (score: i32)
    ensures
        score == match_score_of(a, b),
{
    if a == b {
        1i32
    } else {
        -1i32
    }
}

/// The semi-global alignment of `x` against `y` (all of `x`, a part of
/// `y`) that the aligner finds under the scores of `match_score` and the
/// two gap scores.
pub uninterp spec fn semiglobal_alignment(
    x: Seq<u8>,
    y: Seq<u8>,
    gap_open: int,
    gap_extend: int,
) -> PairwiseAlignmentView;

/// Whether the aligner can take two sequences of these lengths: neither
/// is longer than `MAX_ALIGNED`, and its table of one cell of two bytes
/// for each pair of a prefix of the one and a prefix of the other can be
/// allocated.
pub open spec fn alignable(xlen: nat, ylen: nat) -> bool {
    xlen <= MAX_ALIGNED && ylen <= MAX_ALIGNED && 2 * (xlen + 1) * (ylen + 1) <= isize::MAX
}

/// Calls `Aligner::with_capacity` and `Aligner::semiglobal` of the crate
/// `bio`, with `match_score` as the scoring function, and copies the
/// score, the start and end positions and the operations out of the
/// result. The contract gives the result a name and says no more of it
/// than that it is a function of the two sequences and the two gap
/// scores. The aligner refuses positive gap scores, and the bounds keep
/// its arithmetic and the size of its table within range.
#[verifier::external_body]
fn semiglobal(x: &[u8], y: &[u8], gap_open: i32, gap_extend: i32) -> (found: PairwiseAlignment)
    requires
        -100 <= gap_open <= 0,
        -100 <= gap_extend <= 0,
        alignable(x@.len(), y@.len()),
    ensures
        found@ == semiglobal_alignment(x@, y@, gap_open as int, gap_extend as int),
{
    let score = |a: u8, b: u8| match_score(a, b);
    let a = Aligner::with_capacity(x.len(), y.len(), gap_open, gap_extend, score).semiglobal(x, y);
    let operations = a.operations.iter().map(
        |op| match op {
            AlignmentOperation::Match => AlignmentOp::Match,
            AlignmentOperation::Subst => AlignmentOp::Subst,
            AlignmentOperation::Del => AlignmentOp::Del,
            AlignmentOperation::Ins => AlignmentOp::Ins,
            AlignmentOperation::Xclip(n) => AlignmentOp::Xclip(*n),
            AlignmentOperation::Yclip(n) => AlignmentOp::Yclip(*n),
        },
    ).collect();
    let (score, xstart, xend, ystart, yend) = (a.score, a.xstart, a.xend, a.ystart, a.yend);
    PairwiseAlignment { score, xstart, xend, ystart, yend, operations }
}

/// Whether every symbol is an ASCII character.
pub open spec fn all_ascii(seq: Seq<u8>) -> bool {
    forall|i: int| 0 <= i < seq.len() ==> #[trigger] seq[i] < 128
}

/// Whether `found` is an alignment of `x` against `y` that the aligner
/// finds, under some gap scores.
pub open spec fn is_alignment_of(found: PairwiseAlignmentView, x: Seq<u8>, y: Seq<u8>) -> bool {
    exists|gap_open: int, gap_extend: int|
        found == #[trigger] semiglobal_alignment(x, y, gap_open, gap_extend)
}

/// The printable form of an alignment of `x` against `y`, in blocks of
/// three lines of at most `ncol` characters: the symbols of `x`, a mark
/// for each operation, and the symbols of `y`.
pub uninterp spec fn pretty_text(
    found: PairwiseAlignmentView,
    x: Seq<u8>,
    y: Seq<u8>,
    ncol: nat,
) -> Seq<char>;

/// Calls `Alignment::pretty` of the crate `bio` on the alignment, put
/// back into the crate's own type as a semi-global alignment of
/// sequences of the lengths of `x` and `y`. The contract gives the text
/// a name and says no more of it than that it is a function of the
/// alignment, the two sequences and the line length. The function does
/// not end for lines of no characters, cuts its text by bytes and so
/// fails on symbols that are not ASCII, and reads the sequences at the
/// indices that the operations lead to, which lie within them for an
/// alignment of these two sequences.
#[verifier::external_body]
fn pretty(found: &PairwiseAlignment, x: &[u8], y: &[u8], ncol: usize) -> (text: String)
    requires
        ncol > 0,
        all_ascii(x@),
        all_ascii(y@),
        is_alignment_of(found@, x@, y@),
    ensures
        text@ == pretty_text(found@, x@, y@, ncol as nat),
{
    let operations = found.operations.iter().map(
        |op| match op {
            AlignmentOp::Match => AlignmentOperation::Match,
            AlignmentOp::Subst => AlignmentOperation::Subst,
            AlignmentOp::Del => AlignmentOperation::Del,
            AlignmentOp::Ins => AlignmentOperation::Ins,
            AlignmentOp::Xclip(n) => AlignmentOperation::Xclip(*n),
            AlignmentOp::Yclip(n) => AlignmentOperation::Yclip(*n),
        },
    ).collect();
    let (score, xstart, xend, ystart, yend) = (found.score, found.xstart, found.xend, found.ystart, found.yend);
    let (xlen, ylen, mode) = (x.len(), y.len(), AlignmentMode::Semiglobal);
    BioAlignment { score, ystart, xstart, yend, xend, ylen, xlen, operations, mode }.pretty(x, y, ncol)
}

/// Whether every symbol of `seq` is an ASCII character.
pub fn is_ascii(seq: &[u8]) -> (ok: bool)
    ensures
        ok == all_ascii(seq@),
{
    let mut i: usize = 0;
    while i < seq.len()
        invariant
            i <= seq@.len(),
            forall|k: int| 0 <= k < i ==> #[trigger] seq@[k] < 128,
        decreases seq@.len() - i,
    {
        if seq[i] >= 128 {
            return false;
        }
        i += 1;
    }
    true
}

/// Whether two sequences of these lengths can be aligned.
pub fn can_align(xlen: usize, ylen: usize) -> (ok: bool)
    ensures
        ok == alignable(xlen as nat, ylen as nat),
{
    if xlen > MAX_ALIGNED || ylen > MAX_ALIGNED {
        return false;
    }
    let rows = xlen as u128 + 1;
    let cols = ylen as u128 + 1;
    assert(rows * cols <= 0x10_0001 * 0x10_0001) by (nonlinear_arith)
        requires
            0 <= rows <= 0x10_0001,
            0 <= cols <= 0x10_0001,
    ;
    assert(2 * (xlen + 1) * (ylen + 1) == 2 * (rows * cols)) by (nonlinear_arith)
        requires
            rows == xlen + 1,
            cols == ylen + 1,
    ;
    2 * (rows * cols) <= (usize::MAX / 2) as u128
}

/// The number of characters in a line of the printable form of an
/// alignment.
pub const LINE_LENGTH: usize = 100;

/// An alignment of a sequence against its own reverse complement, with
/// its printable form where the sequence is ASCII text.
#[derive(Debug)]
pub struct SelfAlignment {
    pub alignment: PairwiseAlignment,
    pub printable: Option<String>,
}

/// What `self_alignment` returns for a sequence and the alignment that
/// the aligner finds for it: the alignment itself, and its printable
/// form where the sequence is ASCII text.
pub open spec fn is_self_alignment(found: SelfAlignment, forward: Seq<u8>) -> bool {
    let reverse = reverse_complement_of(forward);
    &&& found.alignment@ == semiglobal_alignment(forward, reverse, -5, -1)
    &&& found.printable is Some <==> all_ascii(forward)
    &&& found.printable matches Some(text) ==> text@ == pretty_text(
        found.alignment@,
        forward,
        reverse,
        LINE_LENGTH as nat,
    )
}

/// The reverse complement of ASCII text is ASCII text.
pub proof fn lemma_reverse_complement_ascii(seq: Seq<u8>)
    requires
        all_ascii(seq),
    ensures
        all_ascii(reverse_complement_of(seq)),
{
    let reverse = reverse_complement_of(seq);
    assert forall|i: int| 0 <= i < reverse.len() implies #[trigger] reverse[i] < 128 by {
        assert(seq[seq.len() - 1 - i] < 128);
    }
}

/// Aligns `forward` against its reverse complement, semi-globally, with
/// the score -5 for opening a gap and -1 for extending one, and renders
/// the alignment in lines of 100 characters where the sequence is ASCII
/// text. `None` where the sequence is too long to be aligned.
pub fn self_alignment(forward: &[u8]) -> (found: Option<SelfAlignment>)
    ensures
        found is Some <==> alignable(forward@.len(), forward@.len()),
        found matches Some(a) ==> is_self_alignment(a, forward@),
{
    if !can_align(forward.len(), forward.len()) {
        return None;
    }
    let reverse = reverse_complement(forward);
    let alignment = semiglobal(forward, reverse.as_slice(), -5, -1);
    let printable = if is_ascii(forward) {
        proof {
            lemma_reverse_complement_ascii(forward@);
            assert(alignment@ == semiglobal_alignment(forward@, reverse@, -5, -1));
        }
        Some(pretty(&alignment, forward, reverse.as_slice(), LINE_LENGTH))
    } else {
        None
    };
    Some(SelfAlignment { alignment, printable })
}

/// A run of equal operations: the operation, the number of times it is
/// repeated, and the indices of the operations at which the run begins
/// and before which it ends.
#[derive(Clone, Copy, Debug)]
pub struct OperationRun {
    pub start: usize,
    pub end: usize,
    pub operation: AlignmentOp,
    pub count: usize,
}

/// Whether `runs` are the first runs of `ops`, as many as there are but
/// no more than `limit`: the first begins at index 0 and each of the
/// others where the one before it ends.
pub open spec fn are_first_runs(ops: Seq<AlignmentOp>, runs: Seq<OperationRun>, limit: int) -> bool {
    &&& runs.len() <= limit
    &&& forall|i: int|
        0 <= i < runs.len() ==> {
            &&& (#[trigger] runs[i]).start == if i == 0 {
                0
            } else {
                runs[i - 1].end as int
            }
            &&& is_run(ops, runs[i].start as int, runs[i].end as int)
            &&& runs[i].operation == ops[runs[i].start as int]
            &&& runs[i].count == runs[i].end - runs[i].start
        }
    &&& runs.len() < limit ==> if runs.len() == 0 {
        ops.len() == 0
    } else {
        runs.last().end == ops.len()
    }
}

/// `==` on operations decides their equality.
pub proof fn lemma_operations_decide_equality()
    ensures
        decides_equality::<AlignmentOp>(),
{
}

/// The first runs of equal operations of `ops`, as many as there are but
/// no more than `limit`.
pub fn operation_runs(ops: &Vec<AlignmentOp>, limit: usize) -> (runs: Vec<OperationRun>)
    ensures
        are_first_runs(ops@, runs@, limit as int),
{
    let mut counter = SequentialCount::new(copy_operations(ops));
    let mut runs: Vec<OperationRun> = Vec::new();
    let mut start: usize = 0;
    proof {
        lemma_operations_decide_equality();
    }
    while runs.len() < limit
        invariant
            decides_equality::<AlignmentOp>(),
            counter.items@ == ops@,
            counter.position == start,
            start <= ops@.len(),
            runs@.len() <= limit,
            start == if runs@.len() == 0 {
                0
            } else {
                runs@.last().end as int
            },
            forall|i: int|
                0 <= i < runs@.len() ==> {
                    &&& (#[trigger] runs@[i]).start == if i == 0 {
                        0
                    } else {
                        runs@[i - 1].end as int
                    }
                    &&& is_run(ops@, runs@[i].start as int, runs@[i].end as int)
                    &&& runs@[i].operation == ops@[runs@[i].start as int]
                    &&& runs@[i].count == runs@[i].end - runs@[i].start
                },
        decreases limit - runs@.len(),
    {
        match counter.next() {
            Some((base, count)) => {
                let end = start + count;
                let ghost before = runs@;
                runs.push(OperationRun { start, end, operation: base, count });
                assert forall|i: int| 0 <= i < runs@.len() implies {
                    &&& (#[trigger] runs@[i]).start == if i == 0 {
                        0
                    } else {
                        runs@[i - 1].end as int
                    }
                    &&& is_run(ops@, runs@[i].start as int, runs@[i].end as int)
                    &&& runs@[i].operation == ops@[runs@[i].start as int]
                    &&& runs@[i].count == runs@[i].end - runs@[i].start
                } by {
                    if i < before.len() {
                        assert(runs@[i] == before[i]);
                        if i > 0 {
                            assert(runs@[i - 1] == before[i - 1]);
                        }
                    } else if i > 0 {
                        assert(runs@[i - 1] == before[i - 1]);
                    }
                }
                start = end;
            },
            None => {
                return runs;
            },
        }
    }
    runs
}

/// A copy of the operations.
fn copy_operations(ops: &Vec<AlignmentOp>) -> (copy: Vec<AlignmentOp>)
    ensures
        copy@ == ops@,
{
    let mut copy: Vec<AlignmentOp> = Vec::with_capacity(ops.len());
    let mut i: usize = 0;
    while i < ops.len()
        invariant
            i <= ops@.len(),
            copy@ == ops@.take(i as int),
        decreases ops@.len() - i,
    {
        copy.push(ops[i]);
        assert(copy@ =~= ops@.take(i + 1));
        i += 1;
    }
    assert(ops@.take(ops@.len() as int) =~= ops@);
    copy
}

/// The evidence: the consensus of the conserved core, its alignment
/// against its own reverse complement, and the first runs of equal
/// operations of that alignment.
#[derive(Debug)]
pub struct TirEvidence {
    pub forward: Vec<u8>,
    pub found: SelfAlignment,
    pub runs: Vec<OperationRun>,
}

/// The number of runs that are reported.
pub const REPORTED_RUNS: usize = 10;

/// The consensus of which the evidence is gathered: that of the core
/// whose columns are conserved at a missingness below one tenth and an
/// identity above eight tenths, with 15 columns more on each side, and
/// isolated blocks removed at a reach of one column.
pub open spec fn tir_consensus(rows: Seq<SequenceView>) -> Seq<u8> {
    core_consensus_of(rows, Threshold { num: 1, den: 10 }, Threshold { num: 8, den: 10 }, 15, 1)
}

/// Whether evidence is gathered from the rows, and why not if not.
pub open spec fn tir_refusal(rows: Seq<SequenceView>) -> Option<Refusal> {
    if core_refusal(rows) is Some {
        core_refusal(rows)
    } else if !alignable(tir_consensus(rows).len(), tir_consensus(rows).len()) {
        Some(Refusal::TooLong)
    } else {
        None
    }
}

/// Gathers the evidence of terminal inverted repeats from an alignment:
/// the consensus of its conserved core is aligned against its own
/// reverse complement, and the first ten runs of equal operations of the
/// alignment are listed. An alignment without rows, with rows of unequal
/// lengths or with more rows than the row count can hold is refused, and
/// so is a consensus that is too long to be aligned.
pub fn revcomp_alignment(alignment: Alignment) -> (evidence: Result<TirEvidence, Refusal>)
    ensures
        match evidence {
            Ok(e) => {
                &&& tir_refusal(alignment@) is None
                &&& e.forward@ == tir_consensus(alignment@)
                &&& is_self_alignment(e.found, e.forward@)
                &&& are_first_runs(e.found.alignment@.operations, e.runs@, REPORTED_RUNS as int)
            },
            Err(why) => tir_refusal(alignment@) == Some(why),
        },
{
    let forward_consensus = match core_consensus(
        alignment,
        Threshold { num: 1, den: 10 },
        Threshold { num: 8, den: 10 },
        15,
        1,
    ) {
        Ok(consensus) => consensus,
        Err(why) => {
            return Err(why);
        },
    };
    match self_alignment(forward_consensus.as_slice()) {
        Some(found) => {
            let runs = operation_runs(&found.alignment.operations, REPORTED_RUNS);
            Ok(TirEvidence { forward: forward_consensus, found, runs })
        },
        None => Err(Refusal::TooLong),
    }
}

} // verus!
