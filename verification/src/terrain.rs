//! Deterministic terrain: a hashed value-noise height field and the rule that
//! fills a column of blocks below the surface.

use vstd::prelude::*;
use crate::block::BlockType;
use crate::coords::{cell_x, cell_y, cell_z, ChunkCoord};

verus! {

/// Seed of the one world this library generates.
pub const WORLD_SEED: i32 = 42;

/// Lowest terrain height, in blocks.
pub const MIN_HEIGHT: i64 = 1;

/// Highest terrain height, in blocks: a quarter of a chunk.
pub const MAX_HEIGHT: i64 = 4;

/// Hash of the lattice point `(x, z)` under `seed`, as a 31-bit value. Divided
/// by 2^31 it is the noise sample in `[0, 1)`.
pub open spec fn noise_bits(x: i32, z: i32, seed: i32) -> i32 {
    let n = x.wrapping_mul(374761393i32).wrapping_add(z.wrapping_mul(668265263i32)).wrapping_add(
        seed.wrapping_mul(31i32),
    );
    let m = (n ^ (n >> 13u32)).wrapping_mul(1274126177i32);
    m & 0x7fff_ffffi32
}

/// World coordinate `w` scaled by 3/20 and rounded toward zero.
pub open spec fn scaled_toward_zero(w: int) -> int {
    if w >= 0 {
        (3 * w) / 20
    } else {
        -((3 * (-w)) / 20)
    }
}

/// The noise lattice coordinate of world coordinate `w`: `w` scaled by 3/20,
/// rounded toward zero and reduced to 32 bits.
pub open spec fn lattice_coord(w: i64) -> i32 {
    scaled_toward_zero(w as int) as i32
}

/// The height that a noise sample of `bits / 2^31` maps to: `MIN_HEIGHT` plus
/// the sample times `MAX_HEIGHT - MIN_HEIGHT`, rounded to the nearest integer.
pub open spec fn height_of_noise(bits: int) -> int {
    1 + (3 * bits + 0x4000_0000) / 0x8000_0000
}

/// Terrain height of the column at world `(x, z)`.
pub open spec fn terrain_height(world_x: i64, world_z: i64) -> int {
    height_of_noise(noise_bits(lattice_coord(world_x), lattice_coord(world_z), WORLD_SEED) as int)
}

/// The block at height `y` of a column whose surface is at `height`: the
/// topmost layer is grass, the next four are dirt, everything below is stone,
/// and everything from `height` upward is air.
pub open spec fn column_block_at(y: int, height: int) -> BlockType {
    if y >= height {
        BlockType::Air
    } else if y == height - 1 {
        BlockType::Grass
    } else if y >= height - 5 {
        BlockType::Dirt
    } else {
        BlockType::Stone
    }
}

/// The generated block of cell `(x, y, z)` of chunk `coord`. Only the chunk
/// layer `y == 0` holds terrain; every other chunk is air.
pub open spec fn terrain_block(coord: ChunkCoord, x: int, y: int, z: int) -> BlockType {
    if coord.y != 0 {
        BlockType::Air
    } else {
        column_block_at(
            y,
            terrain_height((coord.origin_x() + x) as i64, (coord.origin_z() + z) as i64),
        )
    }
}

/// The generated block grid of chunk `coord`, in flat cell order.
pub open spec fn terrain_grid(coord: ChunkCoord) -> Seq<BlockType> {
    Seq::new(
        4096,
        |i: int| terrain_block(coord, cell_x(i), cell_y(i), cell_z(i)),
    )
}

/// Every column of the ground layer is between one and four blocks high,
/// so its lowest block is solid and nothing stands from height four upward.
/// With so low a surface no column reaches down to stone.
pub proof fn lemma_terrain_shape(coord: ChunkCoord, x: int, y: int, z: int)
    requires
        coord.y == 0,
        0 <= y,
    ensures
        1 <= terrain_height((coord.origin_x() + x) as i64, (coord.origin_z() + z) as i64) <= 4,
        terrain_block(coord, x, 0, z).solid(),
        y >= 4 ==> terrain_block(coord, x, y, z) == BlockType::Air,
        terrain_block(coord, x, y, z) != BlockType::Stone,
{
    let world_x = (coord.origin_x() + x) as i64;
    let world_z = (coord.origin_z() + z) as i64;
    let bits = noise_bits(lattice_coord(world_x), lattice_coord(world_z), WORLD_SEED);
    lemma_noise_range(lattice_coord(world_x), lattice_coord(world_z), WORLD_SEED);
    assert(0 <= bits <= 0x7fff_ffff);
}

/// The noise hash is a 31-bit value.
pub proof fn lemma_noise_range(x: i32, z: i32, seed: i32)
    ensures
        0 <= noise_bits(x, z, seed) <= 0x7fff_ffff,
{
    let n = x.wrapping_mul(374761393i32).wrapping_add(z.wrapping_mul(668265263i32)).wrapping_add(
        seed.wrapping_mul(31i32),
    );
    let m = (n ^ (n >> 13u32)).wrapping_mul(1274126177i32);
    assert(0 <= m & 0x7fff_ffffi32 <= 0x7fff_ffffi32) by (bit_vector);
}

/// Computes the 31-bit noise hash of a lattice point.
pub fn value_noise(x: i32, z: i32, seed: i32) -> (bits: i32)
    ensures
        bits == noise_bits(x, z, seed),
        0 <= bits <= 0x7fff_ffff,
{
    let n = x.wrapping_mul(374761393i32).wrapping_add(z.wrapping_mul(668265263i32)).wrapping_add(
        seed.wrapping_mul(31i32),
    );
    let m = (n ^ (n >> 13u32)).wrapping_mul(1274126177i32);
    proof {
        lemma_noise_range(x, z, seed);
    }
    m & 0x7fff_ffffi32
}

/// Scales a world coordinate onto the noise lattice.
pub fn lattice_of(w: i64) -> (l: i32)
    ensures
        l == lattice_coord(w),
{
    let wide: i128 = w as i128;
    let scaled: i128 = if wide >= 0 {
        (3 * wide) / 20
    } else {
        -((3 * (-wide)) / 20)
    };
    assert(scaled == scaled_toward_zero(w as int));
    #[verifier::truncate]
    (scaled as i32)
}

/// Terrain height at world column `(world_x, world_z)`. The same column
/// always has the same height, between `MIN_HEIGHT` and `MAX_HEIGHT`.
pub fn height_at(world_x: i64, world_z: i64) -> (height: i64)
    ensures
        height == terrain_height(world_x, world_z),
        MIN_HEIGHT <= height <= MAX_HEIGHT,
{
    let bits = value_noise(lattice_of(world_x), lattice_of(world_z), WORLD_SEED);
    1 + (3 * (bits as i64) + 0x4000_0000) / 0x8000_0000
}

/// The block at height `y` of a column with the given surface height.
pub fn column_block(y: i64, height: i64) -> (block: BlockType)
    ensures
        block == column_block_at(y as int, height as int),
{
    if y >= height {
        BlockType::Air
    } else if y == height - 1 {
        BlockType::Grass
    } else if y as i128 >= height as i128 - 5 {
        BlockType::Dirt
    } else {
        BlockType::Stone
    }
}

} // verus!
