use voxel_world::block::BlockType;
use voxel_world::chunk::Chunk;
use voxel_world::coords::ChunkCoord;
use voxel_world::terrain::{column_block, height_at, lattice_of, value_noise, WORLD_SEED};

#[test]
fn noise_hash_has_known_values() {
    assert_eq!(value_noise(0, 0, 42), 1054906198);
    assert_eq!(value_noise(1, 0, 42), 1380472308);
    assert_eq!(value_noise(0, 1, 42), 1547944354);
    assert_eq!(value_noise(-1, -1, 42), 817086643);
    assert_eq!(value_noise(5, 7, 42), 8458599);
    assert_eq!(value_noise(123456, -654321, 42), 1630183930);
    assert_eq!(value_noise(2, 3, 7), 995677204);
    assert_eq!(value_noise(i32::MIN, i32::MAX, 42), 1786036575);
}

#[test]
fn noise_hash_depends_on_seed() {
    assert_ne!(value_noise(2, 3, 7), value_noise(2, 3, WORLD_SEED));
}

#[test]
fn lattice_scales_by_three_twentieths_toward_zero() {
    assert_eq!(lattice_of(0), 0);
    assert_eq!(lattice_of(6), 0);
    assert_eq!(lattice_of(7), 1);
    assert_eq!(lattice_of(13), 1);
    assert_eq!(lattice_of(14), 2);
    assert_eq!(lattice_of(20), 3);
    assert_eq!(lattice_of(-1), 0);
    assert_eq!(lattice_of(-6), 0);
    assert_eq!(lattice_of(-7), -1);
    assert_eq!(lattice_of(-20), -3);
    assert_eq!(lattice_of(-21), -3);
    assert_eq!(lattice_of(100), 15);
    assert_eq!(lattice_of(-100), -15);
    assert_eq!(lattice_of(34359738367), 858993459);
    assert_eq!(lattice_of(-34359738368), -858993459);
}

#[test]
fn heights_have_known_values() {
    assert_eq!(height_at(0, 0), 2);
    assert_eq!(height_at(1, 1), 2);
    assert_eq!(height_at(7, 0), 3);
    assert_eq!(height_at(0, 7), 3);
    assert_eq!(height_at(15, 15), 2);
    assert_eq!(height_at(16, 16), 2);
    assert_eq!(height_at(-1, -1), 2);
    assert_eq!(height_at(-16, 5), 3);
    assert_eq!(height_at(100, -100), 2);
    assert_eq!(height_at(1000, 2000), 3);
    assert_eq!(height_at(-12345, 54321), 3);
}

#[test]
fn heights_stay_between_one_and_four() {
    let mut seen = [0usize; 5];
    for x in -64i64..64 {
        for z in -64i64..64 {
            let h = height_at(x, z);
            assert!(1 <= h && h <= 4);
            seen[h as usize] += 1;
        }
    }
    assert_eq!(seen[1], 2560);
    assert_eq!(seen[2], 6055);
    assert_eq!(seen[3], 6016);
    assert_eq!(seen[4], 1753);
}

#[test]
fn column_has_grass_then_four_dirt_then_stone() {
    assert_eq!(column_block(9, 10), BlockType::Grass);
    assert_eq!(column_block(8, 10), BlockType::Dirt);
    assert_eq!(column_block(7, 10), BlockType::Dirt);
    assert_eq!(column_block(6, 10), BlockType::Dirt);
    assert_eq!(column_block(5, 10), BlockType::Dirt);
    assert_eq!(column_block(4, 10), BlockType::Stone);
    assert_eq!(column_block(0, 10), BlockType::Stone);
    assert_eq!(column_block(10, 10), BlockType::Air);
    assert_eq!(column_block(15, 10), BlockType::Air);
}

#[test]
fn column_without_height_is_air() {
    for y in 0..16 {
        assert_eq!(column_block(y, 0), BlockType::Air);
        assert_eq!(column_block(y, -3), BlockType::Air);
    }
}

#[test]
fn low_column_is_grass_over_dirt() {
    assert_eq!(column_block(0, 1), BlockType::Grass);
    assert_eq!(column_block(1, 1), BlockType::Air);
    assert_eq!(column_block(3, 4), BlockType::Grass);
    assert_eq!(column_block(2, 4), BlockType::Dirt);
    assert_eq!(column_block(0, 4), BlockType::Dirt);
}

#[test]
fn ground_chunk_follows_the_height_field() {
    let coord = ChunkCoord { x: 0, y: 0, z: 0 };
    let chunk = Chunk::new(coord);
    assert_eq!(chunk.coord(), coord);
    assert!(chunk.faces().is_empty());
    let row: Vec<i64> = (0..16).map(|x| height_at(x, 0)).collect();
    assert_eq!(row, vec![2, 2, 2, 2, 2, 2, 2, 3, 3, 3, 3, 3, 3, 3, 3, 3]);
    for x in 0..16usize {
        for z in 0..16usize {
            let h = height_at(x as i64, z as i64);
            for y in 0..16usize {
                assert_eq!(chunk.block(x, y, z), column_block(y as i64, h));
            }
        }
    }
    assert_eq!(chunk.block(0, 0, 0), BlockType::Dirt);
    assert_eq!(chunk.block(0, 1, 0), BlockType::Grass);
    assert_eq!(chunk.block(0, 2, 0), BlockType::Air);
    assert_eq!(chunk.block(7, 2, 0), BlockType::Grass);
}

#[test]
fn chunk_uses_world_coordinates() {
    let chunk = Chunk::new(ChunkCoord { x: -1, y: 0, z: 3 });
    for x in 0..16usize {
        for z in 0..16usize {
            let h = height_at(-16 + x as i64, 48 + z as i64);
            for y in 0..16usize {
                assert_eq!(chunk.block(x, y, z), column_block(y as i64, h));
            }
        }
    }
}

#[test]
fn chunks_off_the_ground_layer_are_air() {
    for cy in [-2, -1, 1, 5] {
        let chunk = Chunk::new(ChunkCoord { x: 3, y: cy, z: -4 });
        for x in 0..16 {
            for y in 0..16 {
                for z in 0..16 {
                    assert_eq!(chunk.block(x, y, z), BlockType::Air);
                }
            }
        }
    }
}

#[test]
fn generating_a_coordinate_again_gives_the_same_grid() {
    for coord in [
        ChunkCoord { x: 0, y: 0, z: 0 },
        ChunkCoord { x: -7, y: 0, z: 12 },
        ChunkCoord { x: 1000, y: 0, z: -1000 },
        ChunkCoord { x: i32::MAX, y: 0, z: i32::MIN },
    ] {
        let first = Chunk::new(coord);
        let second = Chunk::new(coord);
        for x in 0..16 {
            for y in 0..16 {
                for z in 0..16 {
                    assert_eq!(first.block(x, y, z), second.block(x, y, z));
                }
            }
        }
    }
}

#[test]
fn terrain_is_laid_over_existing_blocks() {
    let mut chunk = Chunk::empty(ChunkCoord { x: 0, y: 0, z: 0 });
    chunk.set_block(0, 10, 0, BlockType::Stone);
    chunk.set_block(0, 0, 0, BlockType::Stone);
    chunk.generate_terrain();
    assert_eq!(chunk.block(0, 10, 0), BlockType::Stone);
    assert_eq!(chunk.block(0, 0, 0), BlockType::Dirt);
    assert_eq!(chunk.block(0, 1, 0), BlockType::Grass);
    assert_eq!(chunk.block(0, 2, 0), BlockType::Air);

    let mut high = Chunk::empty(ChunkCoord { x: 0, y: 1, z: 0 });
    high.set_block(4, 4, 4, BlockType::Dirt);
    high.generate_terrain();
    assert_eq!(high.block(4, 4, 4), BlockType::Dirt);
    assert_eq!(high.block(0, 0, 0), BlockType::Air);
}
