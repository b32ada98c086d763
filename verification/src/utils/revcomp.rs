//! The reverse complement of a nucleotide sequence.

use vstd::prelude::*;

verus! {

/// The complement of a symbol: `A` and `T` change places, and so do `C`
/// and `G`, in upper and in lower case; every other symbol is its own
/// complement.
pub open spec fn complement_of(symbol: u8) -> u8 {
    if symbol == 65 {
        84
    } else if symbol == 84 {
        65
    } else if symbol == 67 {
        71
    } else if symbol == 71 {
        67
    } else if symbol == 97 {
        116
    } else if symbol == 116 {
        97
    } else if symbol == 99 {
        103
    } else if symbol == 103 {
        99
    } else {
        symbol
    }
}

/// The reverse complement of a sequence: the complements of its symbols,
/// from the last to the first.
pub open spec fn reverse_complement_of(seq: Seq<u8>) -> Seq<u8> {
    Seq::new(seq.len(), |i: int| complement_of(seq[seq.len() - 1 - i]))
}

/// The reverse complement of the reverse complement of a sequence is the
/// sequence itself.
pub proof fn lemma_reverse_complement_twice(seq: Seq<u8>)
    ensures
        reverse_complement_of(reverse_complement_of(seq)) == seq,
{
    assert(reverse_complement_of(reverse_complement_of(seq)) =~= seq);
}

/// The complement of `symbol`.
pub fn complement(symbol: u8) -> (c: u8)
    ensures
        c == complement_of(symbol),
{
    match symbol {
        65u8 => 84,
        84u8 => 65,
        67u8 => 71,
        71u8 => 67,
        97u8 => 116,
        116u8 => 97,
        99u8 => 103,
        103u8 => 99,
        other => other,
    }
}

/// The reverse complement of `seq`.
pub fn reverse_complement(seq: &[u8]) -> (rc: Vec<u8>)
    ensures
        rc@ == reverse_complement_of(seq@),
{
    let len = seq.len();
    let mut rc: Vec<u8> = Vec::with_capacity(len);
    let mut i: usize = 0;
    while i < len
        invariant
            i <= len,
            len == seq@.len(),
            rc@ == reverse_complement_of(seq@).take(i as int),
        decreases len - i,
    {
        rc.push(complement(seq[len - 1 - i]));
        assert(rc@ =~= reverse_complement_of(seq@).take(i + 1));
        i += 1;
    }
    assert(reverse_complement_of(seq@).take(len as int) =~= reverse_complement_of(seq@));
    rc
}

} // verus!
