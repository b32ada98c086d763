//! Windows of a fixed size that step over a sequence.

use crate::utils::diversity::window_count;
use vstd::prelude::*;
use vstd::slice::slice_subrange;

verus! {

/// The windows that are still to come: what is left of the sequence, the
/// size of a window and the step from one window to the next.
pub struct SeqWindows<'a> {
    pub seq: &'a [u8],
    pub size: usize,
    pub step: usize,
}

/// Window `k` of a sequence: `size` symbols from index `k * step` on.
pub open spec fn window_of(seq: Seq<u8>, size: nat, step: nat, k: int) -> Seq<u8> {
    seq.subrange(k * step, k * step + size)
}

/// All windows of a sequence, from left to right.
pub open spec fn all_windows(seq: Seq<u8>, size: nat, step: nat) -> Seq<Seq<u8>> {
    Seq::new(window_count(seq.len(), size, step), |k: int| window_of(seq, size, step, k))
}

/// What a vector of slices holds.
pub open spec fn slices_of(v: Seq<&[u8]>) -> Seq<Seq<u8>> {
    Seq::new(v.len(), |i: int| v[i]@)
}

impl<'a> SeqWindows<'a> {
    /// The windows of `size` symbols of `slice`, `step` symbols apart.
    pub fn new(slice: &'a [u8], size: usize, step: usize) -> (windows: Self)
        ensures
            windows.seq@ == slice@,
            windows.size == size,
            windows.step == step,
    {
        Self { seq: slice, size, step }
    }

    /// The next window: the first `size` symbols of what is left, after
    /// which `step` symbols are dropped from the front of what is left
    /// (all of it where there are fewer). `None`, and nothing changes,
    /// where fewer than `size` symbols are left.
    pub fn next(&mut self) -> (window: Option<&'a [u8]>)
        ensures
            final(self).size == old(self).size,
            final(self).step == old(self).step,
            match window {
                Some(w) => {
                    &&& old(self).size <= old(self).seq@.len()
                    &&& w@ == old(self).seq@.take(old(self).size as int)
                    &&& final(self).seq@ == old(self).seq@.skip(
                        if old(self).step <= old(self).seq@.len() {
                            old(self).step as int
                        } else {
                            old(self).seq@.len() as int
                        },
                    )
                },
                None => old(self).size > old(self).seq@.len() && final(self).seq@ == old(self).seq@,
            },
    {
        let len = self.seq.len();
        if self.size > len {
            None
        } else {
            let ret = slice_subrange(self.seq, 0, self.size);
            let drop = if self.step <= len {
                self.step
            } else {
                len
            };
            self.seq = slice_subrange(self.seq, drop, len);
            Some(ret)
        }
    }

    /// All the windows that are still to come, from left to right.
    pub fn remaining(&self) -> (windows: Vec<&'a [u8]>)
        requires
            self.size > 0,
            self.step > 0,
        ensures
            slices_of(windows@) == all_windows(self.seq@, self.size as nat, self.step as nat),
    {
        let mut windows: Vec<&'a [u8]> = Vec::new();
        let len = self.seq.len();
        if self.size > len {
            assert(slices_of(windows@) =~= all_windows(
                self.seq@,
                self.size as nat,
                self.step as nat,
            ));
            return windows;
        }
        let last_start = len - self.size;
        let ghost count = window_count(len as nat, self.size as nat, self.step as nat);
        let mut start: usize = 0;
        let ghost mut k: int = 0;
        loop
            invariant_except_break
                self.step > 0,
                len == self.seq@.len(),
                self.size <= len,
                last_start == len - self.size,
                count == last_start as int / self.step as int + 1,
                0 <= k < count,
                start == k * self.step,
                start <= last_start,
                windows@.len() == k,
                forall|w: int|
                    0 <= w < k ==> (#[trigger] windows@[w])@ == window_of(
                        self.seq@,
                        self.size as nat,
                        self.step as nat,
                        w,
                    ),
            ensures
                slices_of(windows@) == all_windows(self.seq@, self.size as nat, self.step as nat),
            decreases last_start - start,
        {
            windows.push(slice_subrange(self.seq, start, start + self.size));
            if last_start - start < self.step {
                proof {
                    assert(k + 1 == count) by (nonlinear_arith)
                        requires
                            start == k * self.step,
                            start <= last_start,
                            last_start - start < self.step,
                            self.step > 0,
                            count == last_start as int / self.step as int + 1,
                    ;
                    assert(slices_of(windows@) =~= all_windows(
                        self.seq@,
                        self.size as nat,
                        self.step as nat,
                    ));
                }
                break ;
            }
            proof {
                assert(k + 1 < count && (k + 1) * self.step == start + self.step)
                    by (nonlinear_arith)
                    requires
                        start == k * self.step,
                        start + self.step <= last_start,
                        self.step > 0,
                        count == last_start as int / self.step as int + 1,
                ;
                k = k + 1;
            }
            start = start + self.step;
        }
        windows
    }
}

} // verus!
