//! Which blocks of the terrain grid are to be generated.
//!
//! Terrain is laid out as a square grid of blocks. A mask says for each
//! block whether it still has to be built; the blocks that have are merged
//! into the terrain one after the other, rows first.

use vstd::prelude::*;

verus! {

/// Side length of the square grid of terrain blocks.
pub const FOV: usize = 6;

/// The number from `start` up to, but not including, `end` that stands for
/// the grid point `(x, y, z)` in the `variant`-th drawing: the bits that `y`
/// and `variant` add up to, where `x` or `z` has them too, wrapped into the
/// range.
pub fn random(x: usize, y: usize, z: usize, start: usize, end: usize, variant: usize) -> (r: usize)
    requires
        start < end,
        y + variant <= usize::MAX,
    ensures
        r == ((x | z) & ((y + variant) as usize)) % ((end - start) as usize) + start,
        start <= r < end,
{
    let bits = (x | z) & (y + variant);
    bits % (end - start) + start
}

/// One flag per block of the terrain grid: `true` where the block is to be
/// generated. The outer index is the row.
pub struct TerrainMask(pub [[bool; FOV]; FOV]);

impl TerrainMask {
    /// The flag of the `k`-th block, counting rows first.
    pub open spec fn flag(&self, k: int) -> bool {
        self.0[k / (FOV as int)][k % (FOV as int)]
    }

    /// The mask that has every block set.
    pub fn all() -> (mask: Self)
        ensures
            forall|k: int| 0 <= k < FOV * FOV ==> mask.flag(k),
    {
        let row = [true, true, true, true, true, true];
        TerrainMask([row, row, row, row, row, row])
    }

    /// Whether the block in row `y`, column `x` is set.
    pub fn get(&self, y: usize, x: usize) -> (b: bool)
        requires
            y < FOV,
            x < FOV,
        ensures
            b == self.flag(y * FOV + x),
    {
        self.0[y][x]
    }

    /// The first block at or behind `from`, counting rows first, that is
    /// set; `None` where no block from there on is.
    pub fn next_block(&self, from: usize) -> (next: Option<usize>)
        ensures
            next matches Some(k) ==> from <= k < FOV * FOV && self.flag(k as int) && forall|
                j: int,
            | from <= j < k ==> !self.flag(j),
            next is None ==> forall|j: int| from <= j < FOV * FOV ==> !self.flag(j),
    {
        let mut k = from;
        while k < FOV * FOV
            invariant
                from <= k,
                forall|j: int| from <= j < k ==> !self.flag(j),
            decreases FOV * FOV - k,
        {
            if self.0[k / FOV][k % FOV] {
                return Some(k);
            }
            k = k + 1;
        }
        None
    }
}

} // verus!
