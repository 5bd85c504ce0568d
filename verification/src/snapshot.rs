//! The unit of distribution: one immutable set of per-core readings.

use vstd::prelude::*;

verus! {

/// One ordered set of per-core utilization readings taken at a single
/// instant.
///
/// A reading is carried opaquely as the 32 raw bits of the platform's
/// utilization figure for one logical core. The distribution logic never
/// interprets a reading, only moves it, so a consumer that converts at the
/// boundary gets the exact bits the sampler put in.
pub struct Snapshot {
    readings: Vec<u32>,
}

impl View for Snapshot {
    type V = Seq<u32>;

    closed spec fn view(&self) -> Seq<u32> {
        self.readings@
    }
}

impl Snapshot {
    /// Wraps one sequence of per-core readings; the snapshot is immutable
    /// from here on.
    pub fn new(readings: Vec<u32>) -> (s: Snapshot)
        ensures
            s@ == readings@,
    {
        Snapshot { readings }
    }

    /// The number of logical cores the snapshot covers.
    pub fn len(&self) -> (n: usize)
        ensures
            n == self@.len(),
    {
        self.readings.len()
    }

    /// The reading for one core.
    pub fn reading(&self, i: usize) -> (r: u32)
        requires
            i < self@.len(),
        ensures
            r == self@[i as int],
    {
        self.readings[i]
    }

    /// Hands the readings back out, unchanged.
    pub fn into_readings(self) -> (r: Vec<u32>)
        ensures
            r@ == self@,
    {
        self.readings
    }
}

/// Element-for-element copy of a reading sequence.
pub(crate) fn copy_readings(v: &Vec<u32>) -> (r: Vec<u32>)
    ensures
        r@ == v@,
{
    let mut r: Vec<u32> = Vec::new();
    let mut i: usize = 0;
    while i < v.len()
        invariant
            i <= v.len(),
            r@ == v@.take(i as int),
        decreases v.len() - i,
    {
        r.push(v[i]);
        proof {
            assert(r@ =~= v@.take(i + 1));
        }
        i += 1;
    }
    proof {
        assert(r@ =~= v@);
    }
    r
}

} // verus!
