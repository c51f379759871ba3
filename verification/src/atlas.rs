//! Layout of a square texture atlas: how many tiles it needs along each side
//! and where each tile lies.

use vstd::prelude::*;

verus! {

/// Whether `side` is the smallest number of tiles per side of a square
/// atlas that holds `count` tiles.
pub open spec fn is_atlas_side(count: int, side: int) -> bool {
    &&& 0 <= side
    &&& side * side >= count
    &&& side > 0 ==> (side - 1) * (side - 1) < count
}

/// The number of tiles along each side of the smallest square atlas that
/// holds `num_textures` tiles: the square root, rounded up.
pub fn atlas_side(num_textures: u32) -> (side: u32)
    ensures
        is_atlas_side(num_textures as int, side as int),
        side <= 65536,
{
    let mut side: u64 = 0;
    let mut square: u64 = 0;
    while square < num_textures as u64
        invariant
            side <= 65536,
            square == side * side,
            side > 0 ==> (side - 1) * (side - 1) < num_textures,
        decreases 65536 - side,
    {
        assert(side < 65536) by (nonlinear_arith)
            requires
                side * side < 0x1_0000_0000,
                side <= 65536,
        ;
        side += 1;
        assert(side * side <= 0x1_0000_0000) by (nonlinear_arith)
            requires
                0 <= side <= 65536,
        ;
        square = side * side;
    }
    side as u32
}

/// Column and row of tile `index` in an atlas with `side` tiles per side.
/// Tiles fill the atlas row by row.
pub fn tile_cell(index: u32, side: u32) -> (cell: (u32, u32))
    requires
        side > 0,
    ensures
        cell.0 == index % side,
        cell.1 == index / side,
        cell.1 * side + cell.0 == index,
        cell.0 < side,
{
    assert((index / side) * side + index % side == index) by (nonlinear_arith)
        requires
            side > 0,
    ;
    (index % side, index / side)
}

} // verus!
