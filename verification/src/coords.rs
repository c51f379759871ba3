//! Integer coordinates: chunk grid coordinates, world block positions and the
//! cells inside one chunk.

use vstd::prelude::*;

verus! {

/// Edge length of a chunk, in blocks.
pub const CHUNK_SIZE: usize = 16;

/// Position of a chunk on the chunk grid. The chunk covers the world blocks
/// from `16 * c` to `16 * c + 15` on every axis.
#[derive(Debug, Clone, Copy, PartialEq, Eq, Hash, Structural)]
pub struct ChunkCoord {
    pub x: i32,
    pub y: i32,
    pub z: i32,
}

/// Position of one block (or of the observer) in world block units.
#[derive(Debug, Clone, Copy, PartialEq, Eq, Hash, Structural)]
pub struct BlockPos {
    pub x: i64,
    pub y: i64,
    pub z: i64,
}

impl BlockPos {
    /// The chunk-grid x coordinate of the chunk that holds this position.
    pub open spec fn chunk_x(&self) -> int {
        chunk_axis(self.x as int)
    }

    /// The chunk-grid y coordinate of the chunk that holds this position.
    pub open spec fn chunk_y(&self) -> int {
        chunk_axis(self.y as int)
    }

    /// The chunk-grid z coordinate of the chunk that holds this position.
    pub open spec fn chunk_z(&self) -> int {
        chunk_axis(self.z as int)
    }
}

/// The chunk-grid coordinate that owns world coordinate `w`: the floor of `w / 16`.
pub open spec fn chunk_axis(w: int) -> int {
    w / 16
}

/// The coordinate of `w` inside its chunk: `w` modulo 16, never negative.
pub open spec fn local_axis(w: int) -> int {
    w % 16
}

/// Whether `v` can be a component of a `ChunkCoord`.
pub open spec fn fits_i32(v: int) -> bool {
    i32::MIN <= v <= i32::MAX
}

/// Index of cell `(x, y, z)` in the flat block grid of a chunk.
pub open spec fn cell_index(x: int, y: int, z: int) -> int {
    (x * 16 + y) * 16 + z
}

/// Whether `(x, y, z)` names a cell of a chunk.
pub open spec fn in_chunk(x: int, y: int, z: int) -> bool {
    0 <= x < 16 && 0 <= y < 16 && 0 <= z < 16
}

/// The x coordinate of the cell stored at `index`.
pub open spec fn cell_x(index: int) -> int {
    index / 256
}

/// The y coordinate of the cell stored at `index`.
pub open spec fn cell_y(index: int) -> int {
    (index / 16) % 16
}

/// The z coordinate of the cell stored at `index`.
pub open spec fn cell_z(index: int) -> int {
    index % 16
}

/// Absolute difference of two integers.
pub open spec fn axis_gap(a: int, b: int) -> int {
    if a >= b {
        a - b
    } else {
        b - a
    }
}

impl ChunkCoord {
    /// World position of the chunk's lowest corner block.
    pub open spec fn origin_x(&self) -> int {
        self.x * 16
    }

    pub open spec fn origin_y(&self) -> int {
        self.y * 16
    }

    pub open spec fn origin_z(&self) -> int {
        self.z * 16
    }

    /// Whether this chunk lies inside the cube of half-width `distance`
    /// (Chebyshev distance) around the chunk-grid point `(cx, cy, cz)`.
    pub open spec fn within(&self, cx: int, cy: int, cz: int, distance: int) -> bool {
        &&& axis_gap(self.x as int, cx) <= distance
        &&& axis_gap(self.y as int, cy) <= distance
        &&& axis_gap(self.z as int, cz) <= distance
    }

    /// Whether this coordinate comes before `other` in the order that compares
    /// x first, then y, then z.
    pub open spec fn precedes(&self, other: ChunkCoord) -> bool {
        self.x < other.x || (self.x == other.x && (self.y < other.y || (self.y == other.y && self.z
            < other.z)))
    }

    /// Tells whether this coordinate comes before `other`, comparing x first,
    /// then y, then z.
    pub fn comes_before(&self, other: &ChunkCoord) -> (before: bool)
        ensures
            before == self.precedes(*other),
    {
        self.x < other.x || (self.x == other.x && (self.y < other.y || (self.y == other.y && self.z
            < other.z)))
    }

    /// Tells whether this chunk lies within Chebyshev distance `distance` of
    /// the chunk-grid point `(cx, cy, cz)`.
    pub fn is_within(&self, cx: i64, cy: i64, cz: i64, distance: i32) -> (near: bool)
        ensures
            near == self.within(cx as int, cy as int, cz as int, distance as int),
    {
        let dx = self.x as i128 - cx as i128;
        let dy = self.y as i128 - cy as i128;
        let dz = self.z as i128 - cz as i128;
        let d = distance as i128;
        -d <= dx && dx <= d && -d <= dy && dy <= d && -d <= dz && dz <= d
    }

    /// The chunk's lowest corner block.
    pub fn origin(&self) -> (pos: BlockPos)
        ensures
            pos.x == self.origin_x(),
            pos.y == self.origin_y(),
            pos.z == self.origin_z(),
    {
        BlockPos { x: self.x as i64 * 16, y: self.y as i64 * 16, z: self.z as i64 * 16 }
    }

    /// The world position of cell `(x, y, z)` of this chunk.
    pub fn block_pos(&self, x: usize, y: usize, z: usize) -> (pos: BlockPos)
        requires
            x < 16,
            y < 16,
            z < 16,
        ensures
            pos.x == self.origin_x() + x,
            pos.y == self.origin_y() + y,
            pos.z == self.origin_z() + z,
    {
        BlockPos {
            x: self.x as i64 * 16 + x as i64,
            y: self.y as i64 * 16 + y as i64,
            z: self.z as i64 * 16 + z as i64,
        }
    }
}

/// Floor of `w / 16`.
pub fn floor_div_16(w: i64) -> (q: i64)
    ensures
        q == chunk_axis(w as int),
{
    if w >= 0 {
        w / 16
    } else {
        -((-(w + 1)) / 16 + 1)
    }
}

/// `w` modulo 16, in `0..16` also for negative `w`.
pub fn floor_mod_16(w: i64) -> (r: usize)
    ensures
        r == local_axis(w as int),
        r < 16,
{
    if w >= 0 {
        (w % 16) as usize
    } else {
        (15 - (-(w + 1)) % 16) as usize
    }
}

/// Flat index of cell `(x, y, z)`.
pub fn flat_index(x: usize, y: usize, z: usize) -> (index: usize)
    requires
        x < 16,
        y < 16,
        z < 16,
    ensures
        index == cell_index(x as int, y as int, z as int),
        index < 4096,
        cell_x(index as int) == x,
        cell_y(index as int) == y,
        cell_z(index as int) == z,
{
    (x * 16 + y) * 16 + z
}

} // verus!
