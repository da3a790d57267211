//! Small helpers shared by the test suites.

use vstd::prelude::*;

use crate::coords::AxialCoords;

verus! {

/// The first entry of `tiles` at the given coordinate, cloned, if any.
pub fn are_coords_in_vec<T: Clone>(
    tiles: &Vec<(AxialCoords, T)>,
    coords_to_check: &AxialCoords,
) -> (r: Option<(AxialCoords, T)>)
    ensures
        r is Some <==> exists|i: int|
            0 <= i < tiles@.len() && (#[trigger] tiles@[i]).0@ == coords_to_check@,
        r is Some ==> exists|i: int|
            {
                // the match is the first such entry, and its coordinate is
                // handed back; the tile value is a clone of that entry's
                &&& 0 <= i < tiles@.len()
                &&& (#[trigger] tiles@[i]).0@ == coords_to_check@
                &&& r->Some_0.0 == tiles@[i].0
                &&& forall|j: int| 0 <= j < i ==> (#[trigger] tiles@[j]).0@ != coords_to_check@
            },
{
    let n = tiles.len();
    let mut i: usize = 0;
    while i < n
        invariant
            n == tiles@.len(),
            0 <= i as int <= n as int,
            forall|j: int| 0 <= j < i as int ==> (#[trigger] tiles@[j]).0@ != coords_to_check@,
        decreases n as int - i as int,
    {
        if tiles[i].0 == *coords_to_check {
            proof {
                assert((tiles@[i as int]).0@ == coords_to_check@);
            }
            return Some((tiles[i].0, tiles[i].1.clone()));
        }
        i = i + 1;
    }
    None
}

} // verus!
