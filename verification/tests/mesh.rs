use voxel_world::block::BlockType;
use voxel_world::chunk::Chunk;
use voxel_world::chunk_manager::ChunkManager;
use voxel_world::coords::{BlockPos, ChunkCoord};
use voxel_world::mesh::{flood_fill, neighbor_index, BlockFaceInstance};

fn filled(coord: ChunkCoord, block: BlockType) -> Chunk {
    let mut chunk = Chunk::empty(coord);
    for x in 0..16 {
        for y in 0..16 {
            for z in 0..16 {
                chunk.set_block(x, y, z, block);
            }
        }
    }
    chunk
}

fn at(x: i32, y: i32, z: i32) -> ChunkCoord {
    ChunkCoord { x, y, z }
}

/// A manager that waits for the 27 chunks around the origin.
fn waiting_manager() -> ChunkManager {
    let mut manager = ChunkManager::new(1);
    let tasks = manager.update_chunks(BlockPos { x: 0, y: 0, z: 0 });
    assert_eq!(tasks.len(), 27);
    manager
}

fn load_six_neighbors(manager: &mut ChunkManager, block: BlockType) {
    for coord in [at(1, 0, 0), at(-1, 0, 0), at(0, 1, 0), at(0, -1, 0), at(0, 0, 1), at(0, 0, -1)] {
        assert!(manager.merge_chunk(filled(coord, block)));
    }
}

fn faces_of(chunk: &Chunk, x: i64, y: i64, z: i64) -> Vec<u32> {
    chunk.faces().iter().filter(|f| f.position == BlockPos { x, y, z }).map(|f| f.face).collect()
}

fn blocks_of(chunk: &Chunk) -> [BlockType; 4096] {
    let mut blocks = [BlockType::Air; 4096];
    for x in 0..16 {
        for y in 0..16 {
            for z in 0..16 {
                blocks[(x * 16 + y) * 16 + z] = chunk.block(x, y, z);
            }
        }
    }
    blocks
}

#[test]
fn air_chunk_has_no_faces() {
    let manager = ChunkManager::new(1);
    let mut chunk = Chunk::empty(at(0, 0, 0));
    chunk.generate_mesh(&manager);
    assert!(chunk.faces().is_empty());
}

#[test]
fn solid_chunk_alone_shows_its_outer_faces() {
    let manager = ChunkManager::new(1);
    let mut chunk = filled(at(0, 0, 0), BlockType::Stone);
    chunk.generate_mesh(&manager);
    assert_eq!(chunk.faces().len(), 6 * 256);
    assert_eq!(
        chunk.faces()[0],
        BlockFaceInstance { position: BlockPos { x: 0, y: 0, z: 0 }, face: 1, block_type: 2 }
    );
    assert_eq!(faces_of(&chunk, 0, 0, 0), vec![1, 2, 5]);
    assert_eq!(faces_of(&chunk, 15, 15, 15), vec![0, 3, 4]);
    assert_eq!(faces_of(&chunk, 0, 7, 7), vec![2]);
    assert_eq!(faces_of(&chunk, 7, 7, 7), Vec::<u32>::new());
    for face in chunk.faces() {
        assert_eq!(face.block_type, 2);
        assert!(face.face < 6);
    }
}

#[test]
fn solid_chunk_between_solid_neighbors_has_no_faces() {
    let mut manager = waiting_manager();
    load_six_neighbors(&mut manager, BlockType::Stone);
    assert!(manager.merge_chunk(filled(at(0, 0, 0), BlockType::Dirt)));
    let center = manager.chunk(at(0, 0, 0)).unwrap();
    assert_eq!(center.faces().len(), 0);
}

#[test]
fn loaded_air_neighbor_shows_the_face_between() {
    let mut manager = waiting_manager();
    for coord in [at(-1, 0, 0), at(0, 1, 0), at(0, -1, 0), at(0, 0, 1), at(0, 0, -1)] {
        assert!(manager.merge_chunk(filled(coord, BlockType::Stone)));
    }
    assert!(manager.merge_chunk(Chunk::empty(at(1, 0, 0))));
    assert!(manager.merge_chunk(filled(at(0, 0, 0), BlockType::Stone)));
    let center = manager.chunk(at(0, 0, 0)).unwrap();
    assert_eq!(center.faces().len(), 256);
    for face in center.faces() {
        assert_eq!(face.face, 3);
        assert_eq!(face.position.x, 15);
    }
}

#[test]
fn unloaded_neighbor_counts_as_open() {
    let mut manager = waiting_manager();
    for coord in [at(1, 0, 0), at(-1, 0, 0), at(0, 1, 0), at(0, 0, 1), at(0, 0, -1)] {
        assert!(manager.merge_chunk(filled(coord, BlockType::Stone)));
    }
    assert!(manager.merge_chunk(filled(at(0, 0, 0), BlockType::Stone)));
    let center = manager.chunk(at(0, 0, 0)).unwrap();
    assert_eq!(center.faces().len(), 256);
    for face in center.faces() {
        assert_eq!(face.face, 5);
        assert_eq!(face.position.y, 0);
    }
}

#[test]
fn single_grass_block_on_solid_ground_shows_top_and_sides() {
    let mut manager = waiting_manager();
    assert!(manager.merge_chunk(filled(at(0, -1, 0), BlockType::Stone)));
    let mut chunk = Chunk::empty(at(0, 0, 0));
    chunk.set_block(5, 0, 5, BlockType::Grass);
    chunk.generate_mesh(&manager);
    let expected: Vec<BlockFaceInstance> = (0..5)
        .map(|face| BlockFaceInstance { position: BlockPos { x: 5, y: 0, z: 5 }, face, block_type: 0 })
        .collect();
    assert_eq!(chunk.faces(), &expected);
}

#[test]
fn grass_patch_two_by_two_shows_top_and_outer_sides() {
    let mut manager = waiting_manager();
    assert!(manager.merge_chunk(filled(at(0, -1, 0), BlockType::Stone)));
    let mut chunk = Chunk::empty(at(0, 0, 0));
    for (x, z) in [(5, 5), (5, 6), (6, 5), (6, 6)] {
        chunk.set_block(x, 0, z, BlockType::Grass);
    }
    chunk.generate_mesh(&manager);
    assert_eq!(chunk.faces().len(), 12);
    assert_eq!(faces_of(&chunk, 5, 0, 5), vec![1, 2, 4]);
    assert_eq!(faces_of(&chunk, 5, 0, 6), vec![0, 2, 4]);
    assert_eq!(faces_of(&chunk, 6, 0, 5), vec![1, 3, 4]);
    assert_eq!(faces_of(&chunk, 6, 0, 6), vec![0, 3, 4]);
    assert!(chunk.faces().iter().all(|f| f.face != 5));
    let order: Vec<(i64, i64)> = chunk.faces().iter().map(|f| (f.position.x, f.position.z)).collect();
    assert_eq!(
        order,
        vec![(5, 5), (5, 5), (5, 5), (5, 6), (5, 6), (5, 6), (6, 5), (6, 5), (6, 5), (6, 6), (6, 6), (6, 6)]
    );
}

#[test]
fn grass_patch_over_unloaded_ground_shows_its_underside() {
    let manager = ChunkManager::new(1);
    let mut chunk = Chunk::empty(at(0, 0, 0));
    for (x, z) in [(5, 5), (5, 6), (6, 5), (6, 6)] {
        chunk.set_block(x, 0, z, BlockType::Grass);
    }
    chunk.generate_mesh(&manager);
    assert_eq!(chunk.faces().len(), 16);
    assert_eq!(faces_of(&chunk, 5, 0, 5), vec![1, 2, 4, 5]);
}

#[test]
fn grass_layer_over_open_air_shows_both_sides() {
    let manager = ChunkManager::new(1);
    let mut chunk = Chunk::empty(at(0, 0, 0));
    for x in 0..16 {
        for z in 0..16 {
            chunk.set_block(x, 8, z, BlockType::Grass);
        }
    }
    chunk.generate_mesh(&manager);
    let count = |face: u32| chunk.faces().iter().filter(|f| f.face == face).count();
    assert_eq!(count(4), 256);
    assert_eq!(count(5), 256);
    assert_eq!(count(0), 16);
    assert_eq!(count(1), 16);
    assert_eq!(count(2), 16);
    assert_eq!(count(3), 16);
    assert_eq!(chunk.faces().len(), 576);
}

#[test]
fn faces_carry_world_positions() {
    let manager = ChunkManager::new(1);
    let mut chunk = Chunk::empty(at(2, 0, -1));
    chunk.set_block(5, 3, 5, BlockType::Dirt);
    chunk.generate_mesh(&manager);
    assert_eq!(chunk.faces().len(), 6);
    for (i, face) in chunk.faces().iter().enumerate() {
        assert_eq!(face.position, BlockPos { x: 37, y: 3, z: -11 });
        assert_eq!(face.face, i as u32);
        assert_eq!(face.block_type, 1);
    }
}

#[test]
fn sealed_pocket_has_no_faces() {
    let mut manager = waiting_manager();
    load_six_neighbors(&mut manager, BlockType::Stone);
    let mut chunk = filled(at(0, 0, 0), BlockType::Stone);
    chunk.set_block(8, 8, 8, BlockType::Air);
    chunk.generate_mesh(&manager);
    assert!(chunk.faces().is_empty());
}

#[test]
fn sealed_pocket_leaves_no_face_around_it() {
    let manager = ChunkManager::new(1);
    let mut chunk = filled(at(0, 0, 0), BlockType::Stone);
    chunk.set_block(8, 8, 8, BlockType::Air);
    chunk.generate_mesh(&manager);
    assert_eq!(chunk.faces().len(), 1536);
    for (x, y, z) in [(7, 8, 8), (9, 8, 8), (8, 7, 8), (8, 9, 8), (8, 8, 7), (8, 8, 9)] {
        assert_eq!(faces_of(&chunk, x, y, z), Vec::<u32>::new());
    }
}

#[test]
fn tunnel_to_the_boundary_opens_the_pocket() {
    let manager = ChunkManager::new(1);
    let mut chunk = filled(at(0, 0, 0), BlockType::Stone);
    for z in 8..16 {
        chunk.set_block(8, 8, z, BlockType::Air);
    }
    chunk.generate_mesh(&manager);
    assert_eq!(chunk.faces().len(), 1535 + 33);
    assert_eq!(faces_of(&chunk, 8, 8, 7), vec![0]);
    assert_eq!(faces_of(&chunk, 7, 8, 8), vec![3]);
    assert_eq!(faces_of(&chunk, 9, 8, 8), vec![2]);
    assert_eq!(faces_of(&chunk, 8, 7, 8), vec![4]);
    assert_eq!(faces_of(&chunk, 8, 9, 8), vec![5]);
    assert_eq!(faces_of(&chunk, 8, 7, 15), vec![0, 4]);
}

#[test]
fn large_sealed_cavity_is_culled_too() {
    let manager = ChunkManager::new(1);
    let mut chunk = filled(at(0, 0, 0), BlockType::Stone);
    for x in 4..12 {
        for y in 4..12 {
            for z in 4..12 {
                chunk.set_block(x, y, z, BlockType::Air);
            }
        }
    }
    chunk.generate_mesh(&manager);
    assert_eq!(chunk.faces().len(), 1536);
}

#[test]
fn flood_fill_marks_exactly_the_reachable_air() {
    let mut chunk = filled(at(0, 0, 0), BlockType::Stone);
    chunk.set_block(8, 8, 8, BlockType::Air);
    for z in 0..4 {
        chunk.set_block(3, 3, z, BlockType::Air);
    }
    chunk.set_block(3, 4, 3, BlockType::Air);
    chunk.set_block(5, 5, 3, BlockType::Air);
    let visible = flood_fill(&blocks_of(&chunk));
    assert_eq!(visible.len(), 4096);
    let marked: Vec<usize> = (0..4096).filter(|&i| visible[i]).collect();
    let index = |x: usize, y: usize, z: usize| (x * 16 + y) * 16 + z;
    assert_eq!(
        marked,
        vec![index(3, 3, 0), index(3, 3, 1), index(3, 3, 2), index(3, 3, 3), index(3, 4, 3)]
    );
}

#[test]
fn flood_fill_of_air_marks_everything() {
    let visible = flood_fill(&[BlockType::Air; 4096]);
    assert!(visible.iter().all(|&v| v));
    let none = flood_fill(&[BlockType::Stone; 4096]);
    assert!(none.iter().all(|&v| !v));
}

#[test]
fn neighbor_indices_follow_the_face_directions() {
    let index = |x: usize, y: usize, z: usize| (x * 16 + y) * 16 + z;
    let here = index(3, 4, 5);
    assert_eq!(neighbor_index(here, 0), Some(index(3, 4, 6)));
    assert_eq!(neighbor_index(here, 1), Some(index(3, 4, 4)));
    assert_eq!(neighbor_index(here, 2), Some(index(2, 4, 5)));
    assert_eq!(neighbor_index(here, 3), Some(index(4, 4, 5)));
    assert_eq!(neighbor_index(here, 4), Some(index(3, 5, 5)));
    assert_eq!(neighbor_index(here, 5), Some(index(3, 3, 5)));
    assert_eq!(neighbor_index(index(0, 0, 0), 1), None);
    assert_eq!(neighbor_index(index(0, 0, 0), 2), None);
    assert_eq!(neighbor_index(index(0, 0, 0), 5), None);
    assert_eq!(neighbor_index(index(15, 15, 15), 0), None);
    assert_eq!(neighbor_index(index(15, 15, 15), 3), None);
    assert_eq!(neighbor_index(index(15, 15, 15), 4), None);
}

#[test]
fn meshing_again_replaces_the_old_faces() {
    let manager = ChunkManager::new(1);
    let mut chunk = Chunk::empty(at(0, 0, 0));
    chunk.set_block(5, 5, 5, BlockType::Stone);
    chunk.generate_mesh(&manager);
    assert_eq!(chunk.faces().len(), 6);
    chunk.set_block(5, 5, 5, BlockType::Air);
    assert_eq!(chunk.faces().len(), 6);
    chunk.generate_mesh(&manager);
    assert_eq!(chunk.faces().len(), 0);
}

#[test]
fn generated_ground_is_meshed_from_above() {
    let manager = ChunkManager::new(1);
    let mut chunk = Chunk::new(at(0, 0, 0));
    chunk.generate_mesh(&manager);
    assert!(!chunk.faces().is_empty());
    let tops = chunk.faces().iter().filter(|f| f.face == 4).count();
    assert_eq!(tops, 256);
    for face in chunk.faces() {
        assert!(face.block_type <= 1);
        if face.face == 4 {
            assert_eq!(face.block_type, 0);
        }
    }
}

#[test]
fn line_of_sight_stops_at_solid_blocks() {
    let mut manager = waiting_manager();
    let mut chunk = Chunk::empty(at(0, 0, 0));
    chunk.set_block(4, 4, 4, BlockType::Stone);
    assert!(manager.merge_chunk(chunk));
    let clear = vec![BlockPos { x: 1, y: 4, z: 4 }, BlockPos { x: 2, y: 4, z: 4 }, BlockPos { x: 3, y: 4, z: 4 }];
    assert!(Chunk::is_face_visible_from_camera(&clear, &manager));
    let blocked = vec![BlockPos { x: 3, y: 4, z: 4 }, BlockPos { x: 4, y: 4, z: 4 }, BlockPos { x: 5, y: 4, z: 4 }];
    assert!(!Chunk::is_face_visible_from_camera(&blocked, &manager));
    let unknown = vec![BlockPos { x: 400, y: 4, z: 4 }, BlockPos { x: -1, y: 4, z: 4 }];
    assert!(Chunk::is_face_visible_from_camera(&unknown, &manager));
    assert!(Chunk::is_face_visible_from_camera(&Vec::new(), &manager));
}
