//! Drawing from a list.

use vstd::prelude::*;

use rand::rngs::StdRng;

use crate::random::sample_indices;

verus! {

/// Two items at distinct positions of `v`, drawn at random.
pub fn take_2<T: Copy>(v: &Vec<T>, rng: &mut StdRng) -> (r: (T, T))
    requires
        v.len() >= 2,
    ensures
        exists|i: int, j: int|
            0 <= i < v.len() && 0 <= j < v.len() && i != j && r.0 == v@[i] && r.1 == v@[j],
{
    let ab = sample_indices(rng, v.len(), 2);
    let i = ab[0];
    let j = ab[1];
    assert(ab@[0] != ab@[1]);
    (v[i], v[j])
}

} // verus!
