//! Runs of equal items: each item of a sequence that differs from the one
//! before it, with the number of times it is repeated.

use vstd::prelude::*;
use vstd::std_specs::cmp::PartialEqSpec;

verus! {

/// The items of which the runs are counted, and the index at which the
/// next run begins.
pub struct SequentialCount<T> {
    pub items: Vec<T>,
    pub position: usize,
}

/// Whether `==` on `T` decides equality.
pub open spec fn decides_equality<T: PartialEq>() -> bool {
    T::obeys_eq_spec() && forall|a: T, b: T| #[trigger] a.eq_spec(&b) <==> a == b
}

/// Whether the items from index `start` up to, not including, index
/// `end` are a run: all equal, and followed by none that is equal to
/// them.
pub open spec fn is_run<T>(items: Seq<T>, start: int, end: int) -> bool {
    &&& 0 <= start < end <= items.len()
    &&& forall|k: int| start <= k < end ==> #[trigger] items[k] == items[start]
    &&& end < items.len() ==> items[end] != items[start]
}

impl<T: Copy + PartialEq> SequentialCount<T> {
    /// The runs of `items`, from the first item on.
    pub fn new(items: Vec<T>) -> (runs: Self)
        ensures
            runs.items@ == items@,
            runs.position == 0,
    {
        SequentialCount { items, position: 0 }
    }

    /// The next run: its item and its length. `None`, and nothing
    /// changes, where no item is left.
    pub fn next(&mut self) -> (run: Option<(T, usize)>)
        requires
            decides_equality::<T>(),
        ensures
            final(self).items@ == old(self).items@,
            match run {
                Some((head, count)) => {
                    &&& old(self).position < old(self).items@.len()
                    &&& head == old(self).items@[old(self).position as int]
                    &&& is_run(
                        old(self).items@,
                        old(self).position as int,
                        old(self).position + count,
                    )
                    &&& final(self).position == old(self).position + count
                },
                None => old(self).position >= old(self).items@.len() && final(self).position == old(
                    self,
                ).position,
            },
    {
        let len = self.items.len();
        if self.position >= len {
            return None;
        }
        let start = self.position;
        let head = self.items[start];
        let mut end: usize = start + 1;
        while end < len && self.items[end] == head
            invariant
                decides_equality::<T>(),
                len == self.items@.len(),
                self.items@ == old(self).items@,
                start < end <= len,
                head == self.items@[start as int],
                forall|k: int| start <= k < end ==> #[trigger] self.items@[k] == head,
            decreases len - end,
        {
            end += 1;
        }
        self.position = end;
        Some((head, end - start))
    }
}

} // verus!
