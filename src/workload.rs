//! Workload generation: a fresh sequence of bounded work units per trial.
use vstd::prelude::*;
use rand::Rng;

verus! {

/// Work units are drawn from `0..UNIT_BOUND`.
pub const UNIT_BOUND: u32 = 10000;

/// Relies on rand's `thread_rng().gen_range(0..bound)`: a value in
/// `0..bound`, for a non-empty range (an empty one panics).
#[verifier::external_body]
fn draw_below(bound: u32) -> (r: u32)
    requires
        bound > 0,
    ensures
        r < bound,
{
    rand::thread_rng().gen_range(0..bound)
}

/// A workload of exactly `size` units, each drawn independently from
/// `0..UNIT_BOUND`.
pub fn generate_workload(size: usize) -> (w: Vec<u32>)
    ensures
        w@.len() == size,
        forall|i: int| 0 <= i < w@.len() ==> w@[i] < UNIT_BOUND,
{
    let mut w: Vec<u32> = Vec::with_capacity(size);
    let mut i: usize = 0;
    while i < size
        invariant
            i <= size,
            w@.len() == i,
            forall|k: int| 0 <= k < w@.len() ==> w@[k] < UNIT_BOUND,
        decreases size - i,
    {
        let v = draw_below(UNIT_BOUND);
        w.push(v);
        i = i + 1;
    }
    w
}

} // verus!
