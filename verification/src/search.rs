//! The discrete part of the isosurface search.  Within one scan interval
//! the caller samples the summed field at fixed steps and marks, per step,
//! whether the sample exceeds the threshold.  The crossing is triggered at
//! the first marked step that has a predecessor inside the interval: the
//! very first step never triggers, since the sample before it belongs to
//! the previous interval.  The interpolation between the triggering step
//! and its predecessor is the caller's float work.

use vstd::prelude::*;

verus! {

/// Some step in `1..exceeds.len()` is marked.
pub open spec fn has_trigger(exceeds: Seq<bool>) -> bool {
    exists|j: int| 1 <= j < exceeds.len() && exceeds[j]
}

/// The first step after the interval's start whose sample exceeds the
/// threshold, if any.
pub fn first_trigger(exceeds: &Vec<bool>) -> (r: Option<usize>)
    ensures
        has_trigger(exceeds@) <==> r is Some,
        r is Some ==> 1 <= r->Some_0 < exceeds@.len(),
        r is Some ==> exceeds@[r->Some_0 as int],
        r is Some ==> forall|j: int| 1 <= j < r->Some_0 ==> !exceeds@[j],
{
    let n = exceeds.len();
    let mut i: usize = 1;
    while i < n
        invariant
            1 <= i,
            n == exceeds@.len(),
            forall|j: int| 1 <= j < i ==> !exceeds@[j],
        decreases n - i,
    {
        if exceeds[i] {
            return Some(i);
        }
        i = i + 1;
    }
    proof {
        if has_trigger(exceeds@) {
            let j = choose|j: int| 1 <= j < exceeds@.len() && exceeds@[j];
            assert(!exceeds@[j]);
        }
    }
    None
}

} // verus!
