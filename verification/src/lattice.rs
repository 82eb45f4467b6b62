//! Byte views of lattice state for rendering front-ends.
use vstd::prelude::*;

verus! {

/// Per-node solid mask of the first `n` lattice nodes as bytes: `1` for a
/// solid wall/obstacle node, `0` for a fluid node.
pub fn solid_mask(solid: &Vec<bool>, n: usize) -> (mask: Vec<u8>)
    requires
        n <= solid@.len(),
    ensures
        mask@.len() == n,
        forall|i: int| 0 <= i < n ==> #[trigger] mask@[i] == (if solid@[i] { 1u8 } else { 0u8 }),
{
    let mut mask: Vec<u8> = Vec::new();
    let mut i: usize = 0;
    while i < n
        invariant
            n <= solid@.len(),
            i <= n,
            mask@.len() == i,
            forall|k: int| 0 <= k < i ==> #[trigger] mask@[k] == (if solid@[k] { 1u8 } else { 0u8 }),
        decreases n - i,
    {
        mask.push(if solid[i] {
            1u8
        } else {
            0u8
        });
        i = i + 1;
    }
    mask
}

} // verus!
