use voxel_world::block::BlockType;
use voxel_world::chunk::Chunk;
use voxel_world::chunk_manager::ChunkManager;
use voxel_world::coords::{BlockPos, ChunkCoord};

fn at(x: i32, y: i32, z: i32) -> ChunkCoord {
    ChunkCoord { x, y, z }
}

fn origin() -> BlockPos {
    BlockPos { x: 0, y: 0, z: 0 }
}

#[test]
fn new_manager_is_empty() {
    let manager = ChunkManager::new(3);
    assert_eq!(manager.view_distance(), 3);
    assert_eq!(manager.loaded_len(), 0);
    assert_eq!(manager.pending_len(), 0);
    assert!(manager.all_chunks().is_empty());
    assert!(!manager.is_loaded(at(0, 0, 0)));
    assert!(!manager.is_pending(at(0, 0, 0)));
    assert_eq!(manager.get_block(0, 0, 0), None);
}

#[test]
fn first_update_requests_the_whole_cube() {
    let mut manager = ChunkManager::new(1);
    let tasks = manager.update_chunks(origin());
    assert_eq!(tasks.len(), 27);
    assert_eq!(manager.pending_len(), 27);
    assert_eq!(manager.loaded_len(), 0);
    let mut expected = Vec::new();
    for x in -1..=1 {
        for y in -1..=1 {
            for z in -1..=1 {
                expected.push(at(x, y, z));
                assert!(manager.is_pending(at(x, y, z)));
            }
        }
    }
    let requested: Vec<ChunkCoord> = tasks.iter().map(|t| t.coord()).collect();
    assert_eq!(requested, expected);
    assert!(!manager.is_pending(at(2, 0, 0)));
}

#[test]
fn all_requested_chunks_become_loaded() {
    let mut manager = ChunkManager::new(1);
    let tasks = manager.update_chunks(origin());
    assert_eq!(tasks.len(), 27);
    for task in tasks {
        assert!(task.run());
    }
    let merged = manager.poll_new_chunks();
    assert_eq!(merged.len(), 27);
    assert_eq!(manager.loaded_len(), 27);
    assert_eq!(manager.pending_len(), 0);
    for x in -1..=1 {
        for y in -1..=1 {
            for z in -1..=1 {
                assert!(manager.is_loaded(at(x, y, z)));
                assert!(!manager.is_pending(at(x, y, z)));
                assert_eq!(merged.iter().filter(|&&c| c == at(x, y, z)).count(), 1);
            }
        }
    }
    let chunks = manager.all_chunks();
    assert_eq!(chunks.len(), 27);
    assert!(manager.poll_new_chunks().is_empty());
    assert!(manager.update_chunks(origin()).is_empty());
    assert_eq!(manager.loaded_len(), 27);
    assert_eq!(manager.pending_len(), 0);
}

#[test]
fn completion_order_does_not_matter() {
    let mut manager = ChunkManager::new(1);
    let mut tasks = manager.update_chunks(BlockPos { x: 40, y: 3, z: -40 });
    tasks.reverse();
    let first = tasks[0].coord();
    for task in tasks {
        assert!(task.run());
    }
    let merged = manager.poll_new_chunks();
    assert_eq!(merged.len(), 27);
    assert_eq!(merged[0], first);
    assert_eq!(first, at(3, 1, -2));
    assert_eq!(manager.loaded_len(), 27);
    assert_eq!(manager.pending_len(), 0);
    assert!(manager.is_loaded(at(2, 0, -3)));
    assert!(manager.is_loaded(at(3, 1, -2)));
    assert!(!manager.is_loaded(at(0, 0, 0)));
}

#[test]
fn polling_without_completions_changes_nothing() {
    let mut manager = ChunkManager::new(1);
    assert!(manager.poll_new_chunks().is_empty());
    let tasks = manager.update_chunks(origin());
    assert!(manager.poll_new_chunks().is_empty());
    assert_eq!(manager.pending_len(), 27);
    assert_eq!(manager.loaded_len(), 0);
    let mut tasks = tasks;
    let last = tasks.pop().unwrap();
    assert_eq!(last.coord(), at(1, 1, 1));
    assert!(last.run());
    assert_eq!(manager.poll_new_chunks(), vec![at(1, 1, 1)]);
    assert_eq!(manager.pending_len(), 26);
    assert_eq!(manager.loaded_len(), 1);
}

#[test]
fn polled_chunks_hold_the_generated_terrain() {
    let mut manager = ChunkManager::new(0);
    let tasks = manager.update_chunks(origin());
    assert_eq!(tasks.len(), 1);
    for task in tasks {
        assert!(task.run());
    }
    assert_eq!(manager.poll_new_chunks(), vec![at(0, 0, 0)]);
    let loaded = manager.chunk(at(0, 0, 0)).unwrap();
    let fresh = Chunk::new(at(0, 0, 0));
    for x in 0..16 {
        for y in 0..16 {
            for z in 0..16 {
                assert_eq!(loaded.block(x, y, z), fresh.block(x, y, z));
            }
        }
    }
    assert!(!loaded.faces().is_empty());
    assert_eq!(manager.get_block(0, 1, 0), Some(BlockType::Grass));
    assert_eq!(manager.get_block(0, 0, 0), Some(BlockType::Dirt));
    assert_eq!(manager.get_block(0, 2, 0), Some(BlockType::Air));
    assert_eq!(manager.get_block(16, 0, 0), None);
    assert_eq!(manager.get_block(-1, 0, 0), None);
}

#[test]
fn a_coordinate_is_requested_once() {
    let mut manager = ChunkManager::new(1);
    assert_eq!(manager.update_chunks(origin()).len(), 27);
    assert_eq!(manager.update_chunks(origin()).len(), 0);
    assert_eq!(manager.update_chunks(BlockPos { x: 15, y: 15, z: 15 }).len(), 0);
    assert_eq!(manager.pending_len(), 27);
    let next = manager.update_chunks(BlockPos { x: 16, y: 0, z: 0 });
    let requested: Vec<ChunkCoord> = next.iter().map(|t| t.coord()).collect();
    let mut expected = Vec::new();
    for y in -1..=1 {
        for z in -1..=1 {
            expected.push(at(2, y, z));
        }
    }
    assert_eq!(requested, expected);
    assert_eq!(manager.pending_len(), 36);
}

#[test]
fn observer_chunk_is_the_floor_of_its_position() {
    let mut manager = ChunkManager::new(0);
    let tasks = manager.update_chunks(BlockPos { x: -1, y: -16, z: -17 });
    let requested: Vec<ChunkCoord> = tasks.iter().map(|t| t.coord()).collect();
    assert_eq!(requested, vec![at(-1, -1, -2)]);
    let tasks = manager.update_chunks(BlockPos { x: 31, y: 32, z: 0 });
    let requested: Vec<ChunkCoord> = tasks.iter().map(|t| t.coord()).collect();
    assert_eq!(requested, vec![at(1, 2, 0)]);
}

#[test]
fn negative_view_distance_requests_nothing_and_keeps_nothing() {
    let mut manager = ChunkManager::new(0);
    for task in manager.update_chunks(origin()) {
        assert!(task.run());
    }
    assert_eq!(manager.poll_new_chunks().len(), 1);
    let mut narrow = ChunkManager::new(-1);
    assert!(narrow.update_chunks(origin()).is_empty());
    assert_eq!(narrow.pending_len(), 0);
}

#[test]
fn leaving_along_x_evicts_the_chunks_left_behind() {
    let mut manager = ChunkManager::new(1);
    for task in manager.update_chunks(origin()) {
        assert!(task.run());
    }
    assert_eq!(manager.poll_new_chunks().len(), 27);
    let tasks = manager.update_chunks(BlockPos { x: 33, y: 0, z: 0 });
    assert_eq!(tasks.len(), 18);
    assert_eq!(manager.loaded_len(), 9);
    assert_eq!(manager.pending_len(), 18);
    for y in -1..=1 {
        for z in -1..=1 {
            assert!(!manager.is_loaded(at(-1, y, z)));
            assert!(!manager.is_loaded(at(0, y, z)));
            assert!(manager.is_loaded(at(1, y, z)));
            assert!(manager.is_pending(at(2, y, z)));
            assert!(manager.is_pending(at(3, y, z)));
        }
    }
    assert_eq!(manager.get_block(0, 0, 0), None);
    assert!(manager.get_block(16, 0, 0).is_some());
}

#[test]
fn moving_far_away_evicts_everything() {
    let mut manager = ChunkManager::new(1);
    for task in manager.update_chunks(origin()) {
        assert!(task.run());
    }
    assert_eq!(manager.poll_new_chunks().len(), 27);
    let tasks = manager.update_chunks(BlockPos { x: 1000, y: 1000, z: 1000 });
    assert_eq!(tasks.len(), 27);
    assert_eq!(manager.loaded_len(), 0);
    assert_eq!(manager.pending_len(), 27);
}

#[test]
fn eviction_needs_more_than_the_view_distance() {
    let mut manager = ChunkManager::new(1);
    for task in manager.update_chunks(origin()) {
        assert!(task.run());
    }
    assert_eq!(manager.poll_new_chunks().len(), 27);
    manager.update_chunks(BlockPos { x: 16, y: 0, z: 0 });
    assert!(manager.is_loaded(at(0, 0, 0)));
    assert!(manager.is_loaded(at(1, 0, 0)));
    assert!(!manager.is_loaded(at(-1, 0, 0)));
    assert_eq!(manager.loaded_len(), 18);
}

#[test]
fn late_chunk_is_merged_and_evicted_by_the_next_update() {
    let mut manager = ChunkManager::new(0);
    let tasks = manager.update_chunks(origin());
    let far = manager.update_chunks(BlockPos { x: 160, y: 0, z: 0 });
    assert_eq!(manager.pending_len(), 2);
    for task in tasks {
        assert!(task.run());
    }
    assert_eq!(manager.poll_new_chunks(), vec![at(0, 0, 0)]);
    assert!(manager.is_loaded(at(0, 0, 0)));
    assert!(manager.update_chunks(BlockPos { x: 160, y: 0, z: 0 }).is_empty());
    assert!(!manager.is_loaded(at(0, 0, 0)));
    assert!(manager.is_pending(at(10, 0, 0)));
    assert_eq!(far.len(), 1);
}

#[test]
fn chunk_nobody_waits_for_is_dropped() {
    let mut manager = ChunkManager::new(0);
    assert!(!manager.merge_chunk(Chunk::new(at(0, 0, 0))));
    assert_eq!(manager.loaded_len(), 0);
    manager.update_chunks(origin());
    assert!(!manager.merge_chunk(Chunk::new(at(5, 5, 5))));
    assert!(manager.merge_chunk(Chunk::new(at(0, 0, 0))));
    assert!(!manager.merge_chunk(Chunk::new(at(0, 0, 0))));
    assert_eq!(manager.loaded_len(), 1);
    assert_eq!(manager.pending_len(), 0);
}

#[test]
fn chunk_delivered_twice_is_merged_once() {
    let mut manager = ChunkManager::new(0);
    let tasks = manager.update_chunks(origin());
    assert!(manager.merge_chunk(Chunk::new(at(0, 0, 0))));
    for task in tasks {
        assert!(task.run());
    }
    assert!(manager.poll_new_chunks().is_empty());
    assert_eq!(manager.loaded_len(), 1);
    assert_eq!(manager.pending_len(), 0);
}

#[test]
fn released_coordinate_can_be_requested_again() {
    let mut manager = ChunkManager::new(0);
    assert_eq!(manager.update_chunks(origin()).len(), 1);
    assert_eq!(manager.update_chunks(origin()).len(), 0);
    assert!(manager.release_pending(at(0, 0, 0)));
    assert!(!manager.release_pending(at(0, 0, 0)));
    assert_eq!(manager.pending_len(), 0);
    let again = manager.update_chunks(origin());
    assert_eq!(again.len(), 1);
    assert_eq!(again[0].coord(), at(0, 0, 0));
}

#[test]
fn task_reports_when_the_manager_is_gone() {
    let mut manager = ChunkManager::new(0);
    let mut tasks = manager.update_chunks(origin());
    let task = tasks.pop().unwrap();
    drop(tasks);
    drop(manager);
    assert!(!task.run());
}

#[test]
fn blocks_are_found_across_chunk_borders() {
    let mut manager = ChunkManager::new(1);
    manager.update_chunks(origin());
    let mut left = Chunk::empty(at(-1, 0, 0));
    left.set_block(15, 0, 0, BlockType::Stone);
    left.set_block(0, 15, 15, BlockType::Dirt);
    assert!(manager.merge_chunk(left));
    let mut below = Chunk::empty(at(0, -1, -1));
    below.set_block(3, 15, 15, BlockType::Grass);
    assert!(manager.merge_chunk(below));
    assert_eq!(manager.get_block(-1, 0, 0), Some(BlockType::Stone));
    assert_eq!(manager.get_block(-16, 15, 15), Some(BlockType::Dirt));
    assert_eq!(manager.get_block(-2, 0, 0), Some(BlockType::Air));
    assert_eq!(manager.get_block(3, -1, -1), Some(BlockType::Grass));
    assert_eq!(manager.get_block(3, -1, 0), None);
    assert_eq!(manager.get_block(0, 0, 0), None);
    assert_eq!(manager.get_block(-17, 0, 0), None);
    assert_eq!(manager.block_at(BlockPos { x: -1, y: 0, z: 0 }), Some(BlockType::Stone));
    assert_eq!(manager.block_at(BlockPos { x: i64::MAX, y: 0, z: 0 }), None);
    assert_eq!(manager.block_at(BlockPos { x: 0, y: i64::MIN, z: 0 }), None);
}

#[test]
fn chunks_at_the_edge_of_the_grid_are_handled() {
    let mut manager = ChunkManager::new(1);
    let edge = BlockPos { x: i32::MAX as i64 * 16, y: 0, z: 0 };
    let tasks = manager.update_chunks(edge);
    assert_eq!(tasks.len(), 18);
    assert_eq!(tasks[0].coord(), at(i32::MAX - 1, -1, -1));
    assert_eq!(tasks[17].coord(), at(i32::MAX, 1, 1));
    let mut outside = ChunkManager::new(1);
    assert!(outside.update_chunks(BlockPos { x: i64::MAX, y: 0, z: 0 }).is_empty());
    assert!(outside.update_chunks(BlockPos { x: 0, y: i64::MIN, z: 0 }).is_empty());
}

#[test]
fn all_chunks_lists_each_loaded_chunk_once() {
    let mut manager = ChunkManager::new(1);
    let tasks = manager.update_chunks(origin());
    for task in tasks.into_iter().take(5) {
        assert!(task.run());
    }
    assert_eq!(manager.poll_new_chunks().len(), 5);
    let mut coords: Vec<ChunkCoord> = manager.all_chunks().iter().map(|c| c.coord()).collect();
    coords.sort_by_key(|c| (c.x, c.y, c.z));
    assert_eq!(coords, vec![at(-1, -1, -1), at(-1, -1, 0), at(-1, -1, 1), at(-1, 0, -1), at(-1, 0, 0)]);
}

#[test]
fn later_chunk_is_meshed_against_earlier_ones() {
    let mut manager = ChunkManager::new(1);
    manager.update_chunks(origin());
    let mut first = Chunk::empty(at(0, 0, 0));
    first.set_block(15, 8, 8, BlockType::Stone);
    assert!(manager.merge_chunk(first));
    let mut second = Chunk::empty(at(1, 0, 0));
    second.set_block(0, 8, 8, BlockType::Stone);
    assert!(manager.merge_chunk(second));
    let first = manager.chunk(at(0, 0, 0)).unwrap();
    let second = manager.chunk(at(1, 0, 0)).unwrap();
    assert_eq!(first.faces().len(), 6);
    assert_eq!(second.faces().len(), 5);
    assert!(second.faces().iter().all(|f| f.face != 2));
}

#[test]
fn remeshing_drops_the_faces_that_neighbors_hide() {
    let mut manager = ChunkManager::new(1);
    manager.update_chunks(origin());
    let mut center = Chunk::empty(at(0, 0, 0));
    for x in 0..16 {
        for y in 0..16 {
            for z in 0..16 {
                center.set_block(x, y, z, BlockType::Stone);
            }
        }
    }
    assert!(manager.merge_chunk(center));
    assert_eq!(manager.chunk(at(0, 0, 0)).unwrap().faces().len(), 1536);
    for coord in [at(1, 0, 0), at(-1, 0, 0), at(0, 1, 0), at(0, -1, 0), at(0, 0, 1)] {
        let mut side = Chunk::empty(coord);
        for x in 0..16 {
            for y in 0..16 {
                for z in 0..16 {
                    side.set_block(x, y, z, BlockType::Dirt);
                }
            }
        }
        assert!(manager.merge_chunk(side));
    }
    assert_eq!(manager.chunk(at(0, 0, 0)).unwrap().faces().len(), 1536);
    assert!(manager.remesh_chunk(at(0, 0, 0)));
    let center = manager.chunk(at(0, 0, 0)).unwrap();
    assert_eq!(center.faces().len(), 256);
    assert!(center.faces().iter().all(|f| f.face == 1 && f.position.z == 0));
    assert_eq!(center.block(3, 3, 3), BlockType::Stone);
    assert!(!manager.remesh_chunk(at(5, 5, 5)));
    assert!(!manager.remesh_chunk(at(0, 0, -1)));
    assert!(manager.is_pending(at(0, 0, -1)));
    assert_eq!(manager.loaded_len(), 6);
    assert_eq!(manager.pending_len(), 21);
}

#[test]
fn task_generates_the_terrain_of_its_coordinate() {
    let mut manager = ChunkManager::new(0);
    let tasks = manager.update_chunks(BlockPos { x: 100, y: 0, z: -100 });
    assert_eq!(tasks.len(), 1);
    let chunk = tasks[0].generate();
    assert_eq!(chunk.coord(), at(6, 0, -7));
    assert!(chunk.faces().is_empty());
    let fresh = Chunk::new(at(6, 0, -7));
    for x in 0..16 {
        for y in 0..16 {
            for z in 0..16 {
                assert_eq!(chunk.block(x, y, z), fresh.block(x, y, z));
            }
        }
    }
}
