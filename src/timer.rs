//! The manual timer cell and the timing overhead.

use vstd::prelude::*;
use crate::run::{sat_sub, seq_min};

verus! {

/// A manual timer cell: a benchmark brackets its measured region with
/// `start` and `stop`, each given the cycle counter's reading.
#[derive(Debug)]
pub struct Tme(pub u64);

impl Tme {
    /// Records the reading at the start of the measured region.
    pub fn start(&mut self, now: u64)
        ensures
            final(self).0 == now,
    {
        self.0 = now;
    }

    /// Replaces the start reading by the cycles elapsed since it, or zero
    /// where `now` is earlier.
    pub fn stop(&mut self, now: u64)
        ensures
            final(self).0 == sat_sub(now, old(self).0),
    {
        self.0 = now.saturating_sub(self.0);
    }
}

/// The elapsed cycles of each pair of start and stop readings.
pub open spec fn spans_elapsed(spans: Seq<(u64, u64)>) -> Seq<u64> {
    Seq::new(spans.len(), |i: int| sat_sub(spans[i].1, spans[i].0))
}

/// Returns the timing overhead: the least elapsed count among pairs of
/// start and stop readings taken around an empty region.
pub fn overhead_cpu_cyc(spans: &[(u64, u64)]) -> (r: u64)
    requires
        spans@.len() > 0,
    ensures
        r == seq_min(spans_elapsed(spans@)),
{
    let ghost el = spans_elapsed(spans@);
    let mut m = spans[0].1.saturating_sub(spans[0].0);
    let mut i: usize = 1;
    assert(el.subrange(0, 1).len() == 1);
    while i < spans.len()
        invariant
            el == spans_elapsed(spans@),
            1 <= i <= spans@.len(),
            m == seq_min(el.subrange(0, i as int)),
        decreases spans@.len() - i,
    {
        let ghost pre = el.subrange(0, i as int);
        let e = spans[i].1.saturating_sub(spans[i].0);
        if e < m {
            m = e;
        }
        i += 1;
        assert(el.subrange(0, i as int).drop_last() =~= pre);
    }
    assert(el.subrange(0, i as int) =~= el);
    m
}

} // verus!
