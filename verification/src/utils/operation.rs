//! The operations of a pairwise alignment.

use vstd::prelude::*;
use vstd::std_specs::cmp::PartialEqSpecImpl;

verus! {

/// One step of a pairwise alignment of a sequence `x` against a sequence
/// `y`: a match, a substitution, a deletion (a symbol of `y` against
/// nothing), an insertion (a symbol of `x` against nothing), or a number
/// of symbols of `x` or of `y` that are clipped.
#[derive(Clone, Copy, Debug)]
pub enum AlignmentOp {
    Match,
    Subst,
    Del,
    Ins,
    Xclip(usize),
    Yclip(usize),
}

impl PartialEq for AlignmentOp {
    fn eq(&self, other: &Self) -> (r: bool) {
        match (*self, *other) {
            (AlignmentOp::Match, AlignmentOp::Match) => true,
            (AlignmentOp::Subst, AlignmentOp::Subst) => true,
            (AlignmentOp::Del, AlignmentOp::Del) => true,
            (AlignmentOp::Ins, AlignmentOp::Ins) => true,
            (AlignmentOp::Xclip(a), AlignmentOp::Xclip(b)) => a == b,
            (AlignmentOp::Yclip(a), AlignmentOp::Yclip(b)) => a == b,
            _ => false,
        }
    }
}

impl PartialEqSpecImpl for AlignmentOp {
    open spec fn obeys_eq_spec() -> bool {
        true
    }

    open spec fn eq_spec(&self, other: &Self) -> bool {
        *self == *other
    }
}

impl Eq for AlignmentOp {

}

} // verus!
