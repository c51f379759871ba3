use voxel_world::atlas::{atlas_side, tile_cell};

#[test]
fn atlas_side_is_the_square_root_rounded_up() {
    assert_eq!(atlas_side(0), 0);
    assert_eq!(atlas_side(1), 1);
    assert_eq!(atlas_side(2), 2);
    assert_eq!(atlas_side(4), 2);
    assert_eq!(atlas_side(5), 3);
    assert_eq!(atlas_side(9), 3);
    assert_eq!(atlas_side(10), 4);
    assert_eq!(atlas_side(65535), 256);
    assert_eq!(atlas_side(65536), 256);
    assert_eq!(atlas_side(65537), 257);
    assert_eq!(atlas_side(u32::MAX), 65536);
}

#[test]
fn atlas_side_is_the_smallest_that_fits() {
    for count in 0u32..2000 {
        let side = atlas_side(count) as u64;
        assert!(side * side >= count as u64);
        if side > 0 {
            assert!((side - 1) * (side - 1) < count as u64);
        }
    }
}

#[test]
fn tiles_fill_the_atlas_row_by_row() {
    assert_eq!(tile_cell(0, 2), (0, 0));
    assert_eq!(tile_cell(1, 2), (1, 0));
    assert_eq!(tile_cell(2, 2), (0, 1));
    assert_eq!(tile_cell(3, 2), (1, 1));
    assert_eq!(tile_cell(7, 3), (1, 2));
    assert_eq!(tile_cell(5, 1), (0, 5));
}
