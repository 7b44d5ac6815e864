//! Ranges that divide a length into segments.

use vstd::prelude::*;

verus! {

/// Consecutive ranges that cover `0..lim` in steps of `stp`; the last one
/// may be shorter.
#[derive(Debug, Clone, Copy)]
pub struct RngItr {
    /// Start of the next range, or `usize::MAX` once the ranges are done.
    pub idx: usize,
    /// The step.
    pub stp: usize,
    /// The end of the whole.
    pub lim: usize,
}

/// Returns ranges that divide `0..lim` into `seg` segments of
/// `lim / seg` elements, and one more for the remainder.
pub fn rngs(seg: usize, lim: usize) -> (r: RngItr)
    requires
        seg > 0,
    ensures
        r.idx == 0,
        r.stp == lim / seg,
        r.lim == lim,
{
    RngItr { idx: 0, stp: lim / seg, lim }
}

impl RngItr {
    /// Returns the next range, or `None` once the ranges are done.
    pub fn next(&mut self) -> (r: Option<(usize, usize)>)
        ensures
            final(self).stp == old(self).stp,
            final(self).lim == old(self).lim,
            old(self).idx == usize::MAX ==> r is None && final(self).idx == usize::MAX,
            old(self).idx != usize::MAX ==> {
                let end = if old(self).idx + old(self).stp < old(self).lim {
                    (old(self).idx + old(self).stp) as usize
                } else {
                    old(self).lim
                };
                &&& r == Some((old(self).idx, end))
                &&& final(self).idx == if end == old(self).lim { usize::MAX } else { end }
            },
    {
        if self.idx == usize::MAX {
            None
        } else {
            let sum = self.idx.saturating_add(self.stp);
            let end = if sum < self.lim { sum } else { self.lim };
            let r = (self.idx, end);
            if end == self.lim {
                self.idx = usize::MAX;
            } else {
                self.idx = end;
            }
            Some(r)
        }
    }
}

} // verus!
