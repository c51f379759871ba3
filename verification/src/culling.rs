//! Visibility: which loaded chunks are worth drawing for a given viewpoint,
//! and in which order.
//!
//! All geometry is integer geometry. Planes and directions are given up to a
//! positive scale, so a caller with fractional values multiplies them by any
//! fixed factor and rounds.

use vstd::prelude::*;
use crate::block::BlockType;
use crate::chunk::Chunk;
use crate::chunk_manager::{ChunkManager, ManagerView};
use crate::coords::{fits_i32, BlockPos, ChunkCoord};
use crate::mesh::{cell_in_chunk, index_of, neighbor_cell, Cell};

verus! {

/// Chunks whose centre is farther than this from the observer are not drawn.
pub const CULL_RADIUS: i64 = 100;

/// The half-space of the points `(x, y, z)` with `a*x + b*y + c*z + d >= 0`.
#[derive(Debug, Clone, Copy, PartialEq, Eq, Structural)]
pub struct Plane {
    pub a: i32,
    pub b: i32,
    pub c: i32,
    pub d: i64,
}

/// The six half-spaces whose intersection the camera sees.
#[derive(Debug, Clone, Copy, PartialEq, Eq, Structural)]
pub struct Frustum {
    pub left: Plane,
    pub right: Plane,
    pub bottom: Plane,
    pub top: Plane,
    pub near: Plane,
    pub far: Plane,
}

/// What culling reads of the camera: the view frustum, the block the observer
/// stands in, and the direction it looks in (of any length).
#[derive(Debug, Clone, Copy, PartialEq, Eq, Structural)]
pub struct Viewpoint {
    pub frustum: Frustum,
    pub position: BlockPos,
    pub forward_x: i32,
    pub forward_y: i32,
    pub forward_z: i32,
}

/// The product of a plane coefficient and a coordinate, without overflow.
fn scale(coefficient: i32, coordinate: i64) -> (product: i128)
    ensures
        product == coefficient * coordinate,
        -0x4000_0000_0000_0000_0000_0000 <= product <= 0x4000_0000_0000_0000_0000_0000,
{
    assert(-0x4000_0000_0000_0000_0000_0000 <= coefficient * coordinate
        <= 0x4000_0000_0000_0000_0000_0000) by (nonlinear_arith)
        requires
            -0x8000_0000 <= coefficient <= 0x8000_0000,
            -0x8000_0000_0000_0000 <= coordinate <= 0x8000_0000_0000_0000,
    ;
    coefficient as i128 * coordinate as i128
}

impl Plane {
    /// `a*x + b*y + c*z + d`: positive inside the half-space, negative outside.
    pub open spec fn signed_distance(&self, x: int, y: int, z: int) -> int {
        self.a * x + self.b * y + self.c * z + self.d
    }

    /// Whether some point of the box from `min` to `max` lies in the
    /// half-space. The corner of the box that reaches farthest along the
    /// plane's normal decides: the `max` coordinate on every axis where the
    /// normal is not negative, the `min` coordinate elsewhere.
    pub open spec fn admits_box(&self, min: BlockPos, max: BlockPos) -> bool {
        self.signed_distance(
            if self.a >= 0 { max.x as int } else { min.x as int },
            if self.b >= 0 { max.y as int } else { min.y as int },
            if self.c >= 0 { max.z as int } else { min.z as int },
        ) >= 0
    }

    /// Tests the box from `min` to `max` against this half-space.
    pub fn box_inside(&self, min: BlockPos, max: BlockPos) -> (inside: bool)
        ensures
            inside == self.admits_box(min, max),
    {
        let x = if self.a >= 0 { max.x } else { min.x };
        let y = if self.b >= 0 { max.y } else { min.y };
        let z = if self.c >= 0 { max.z } else { min.z };
        let ax = scale(self.a, x);
        let by = scale(self.b, y);
        let cz = scale(self.c, z);
        ax + by + cz + self.d as i128 >= 0
    }
}

impl Frustum {
    /// Whether the box from `min` to `max` survives all six planes.
    pub open spec fn admits_box(&self, min: BlockPos, max: BlockPos) -> bool {
        &&& self.left.admits_box(min, max)
        &&& self.right.admits_box(min, max)
        &&& self.bottom.admits_box(min, max)
        &&& self.top.admits_box(min, max)
        &&& self.near.admits_box(min, max)
        &&& self.far.admits_box(min, max)
    }

    /// Whether the box of the chunk at `coord` survives all six planes.
    pub open spec fn admits_chunk(&self, coord: ChunkCoord) -> bool {
        self.admits_box(chunk_min(coord), chunk_max(coord))
    }
}

/// The frustum test never rejects a box that holds a visible point: if some
/// point of the box lies in the half-space, the box is admitted.
pub proof fn lemma_box_with_point_inside_is_admitted(
    plane: Plane,
    min: BlockPos,
    max: BlockPos,
    x: int,
    y: int,
    z: int,
)
    requires
        min.x <= x <= max.x,
        min.y <= y <= max.y,
        min.z <= z <= max.z,
        plane.signed_distance(x, y, z) >= 0,
    ensures
        plane.admits_box(min, max),
{
    let far_x = if plane.a >= 0 { max.x as int } else { min.x as int };
    let far_y = if plane.b >= 0 { max.y as int } else { min.y as int };
    let far_z = if plane.c >= 0 { max.z as int } else { min.z as int };
    assert(plane.a * x <= plane.a * far_x) by (nonlinear_arith)
        requires
            (plane.a >= 0 && x <= far_x) || (plane.a < 0 && far_x <= x),
    ;
    assert(plane.b * y <= plane.b * far_y) by (nonlinear_arith)
        requires
            (plane.b >= 0 && y <= far_y) || (plane.b < 0 && far_y <= y),
    ;
    assert(plane.c * z <= plane.c * far_z) by (nonlinear_arith)
        requires
            (plane.c >= 0 && z <= far_z) || (plane.c < 0 && far_z <= z),
    ;
}

/// A box that holds a point inside all six planes is in the frustum.
pub proof fn lemma_frustum_admits_visible_point(
    frustum: Frustum,
    min: BlockPos,
    max: BlockPos,
    x: int,
    y: int,
    z: int,
)
    requires
        min.x <= x <= max.x,
        min.y <= y <= max.y,
        min.z <= z <= max.z,
        frustum.left.signed_distance(x, y, z) >= 0,
        frustum.right.signed_distance(x, y, z) >= 0,
        frustum.bottom.signed_distance(x, y, z) >= 0,
        frustum.top.signed_distance(x, y, z) >= 0,
        frustum.near.signed_distance(x, y, z) >= 0,
        frustum.far.signed_distance(x, y, z) >= 0,
    ensures
        frustum.admits_box(min, max),
{
    lemma_box_with_point_inside_is_admitted(frustum.left, min, max, x, y, z);
    lemma_box_with_point_inside_is_admitted(frustum.right, min, max, x, y, z);
    lemma_box_with_point_inside_is_admitted(frustum.bottom, min, max, x, y, z);
    lemma_box_with_point_inside_is_admitted(frustum.top, min, max, x, y, z);
    lemma_box_with_point_inside_is_admitted(frustum.near, min, max, x, y, z);
    lemma_box_with_point_inside_is_admitted(frustum.far, min, max, x, y, z);
}

/// The lowest corner of the box of the chunk at `coord`.
pub open spec fn chunk_min(coord: ChunkCoord) -> BlockPos {
    BlockPos {
        x: coord.origin_x() as i64,
        y: coord.origin_y() as i64,
        z: coord.origin_z() as i64,
    }
}

/// The highest corner of the box of the chunk at `coord`.
pub open spec fn chunk_max(coord: ChunkCoord) -> BlockPos {
    BlockPos {
        x: (coord.origin_x() + 16) as i64,
        y: (coord.origin_y() + 16) as i64,
        z: (coord.origin_z() + 16) as i64,
    }
}

/// The coefficient that the plane of one side has for column `col` of the
/// projection-view matrix `mat`: the fourth row plus the row of the axis, or
/// minus it for the `negative` side. `mat[col][row]` is the entry in column
/// `col`, row `row`.
pub open spec fn combined_row(mat: [[i64; 4]; 4], col: int, axis: int, negative: bool) -> int {
    if negative {
        mat[col][3] - mat[col][axis]
    } else {
        mat[col][3] + mat[col][axis]
    }
}

/// Whether the plane of side (`axis`, `negative`) of `mat` fits a `Plane`.
pub open spec fn plane_fits(mat: [[i64; 4]; 4], axis: int, negative: bool) -> bool {
    &&& fits_i32(combined_row(mat, 0, axis, negative))
    &&& fits_i32(combined_row(mat, 1, axis, negative))
    &&& fits_i32(combined_row(mat, 2, axis, negative))
    &&& i64::MIN <= combined_row(mat, 3, axis, negative) <= i64::MAX
}

/// The plane of side (`axis`, `negative`) of `mat`.
pub open spec fn plane_of(mat: [[i64; 4]; 4], axis: int, negative: bool) -> Plane {
    Plane {
        a: combined_row(mat, 0, axis, negative) as i32,
        b: combined_row(mat, 1, axis, negative) as i32,
        c: combined_row(mat, 2, axis, negative) as i32,
        d: combined_row(mat, 3, axis, negative) as i64,
    }
}

/// Whether all six planes of `mat` fit.
pub open spec fn frustum_fits(mat: [[i64; 4]; 4]) -> bool {
    &&& plane_fits(mat, 0, false)
    &&& plane_fits(mat, 0, true)
    &&& plane_fits(mat, 1, false)
    &&& plane_fits(mat, 1, true)
    &&& plane_fits(mat, 2, false)
    &&& plane_fits(mat, 2, true)
}

/// The frustum of the projection-view matrix `mat`: left and right from the
/// first row, bottom and top from the second, near and far from the third,
/// each added to and subtracted from the fourth.
pub open spec fn frustum_of(mat: [[i64; 4]; 4]) -> Frustum {
    Frustum {
        left: plane_of(mat, 0, false),
        right: plane_of(mat, 0, true),
        bottom: plane_of(mat, 1, false),
        top: plane_of(mat, 1, true),
        near: plane_of(mat, 2, false),
        far: plane_of(mat, 2, true),
    }
}

/// `fourth + row`, or `fourth - row` for the negative side.
fn combine(fourth: i64, row: i64, negative: bool) -> (sum: i128)
    ensures
        sum == if negative { fourth - row } else { fourth + row },
{
    if negative {
        fourth as i128 - row as i128
    } else {
        fourth as i128 + row as i128
    }
}

/// One plane of a projection-view matrix, or `None` if a coefficient does not fit.
fn extract_plane(mat: &[[i64; 4]; 4], axis: usize, negative: bool) -> (plane: Option<Plane>)
    requires
        axis < 3,
    ensures
        plane == if plane_fits(*mat, axis as int, negative) {
            Some(plane_of(*mat, axis as int, negative))
        } else {
            None
        },
{
    let a = combine(mat[0][3], mat[0][axis], negative);
    let b = combine(mat[1][3], mat[1][axis], negative);
    let c = combine(mat[2][3], mat[2][axis], negative);
    let d = combine(mat[3][3], mat[3][axis], negative);
    if a < -0x8000_0000 || a > 0x7fff_ffff || b < -0x8000_0000 || b > 0x7fff_ffff || c
        < -0x8000_0000 || c > 0x7fff_ffff || d < -0x8000_0000_0000_0000 || d
        > 0x7fff_ffff_ffff_ffff {
        None
    } else {
        Some(Plane { a: a as i32, b: b as i32, c: c as i32, d: d as i64 })
    }
}

/// Derives the six frustum planes from a projection-view matrix.
///
/// `mat[col][row]` is the matrix entry in column `col` and row `row`. Each
/// plane is the fourth row plus or minus one of the first three. The result
/// is `None` exactly when a coefficient of some plane does not fit its field.
pub fn extract_frustum_planes(mat: &[[i64; 4]; 4]) -> (frustum: Option<Frustum>)
    ensures
        frustum == if frustum_fits(*mat) {
            Some(frustum_of(*mat))
        } else {
            None
        },
{
    let left = extract_plane(mat, 0, false);
    let right = extract_plane(mat, 0, true);
    let bottom = extract_plane(mat, 1, false);
    let top = extract_plane(mat, 1, true);
    let near = extract_plane(mat, 2, false);
    let far = extract_plane(mat, 2, true);
    match (left, right, bottom, top, near, far) {
        (Some(left), Some(right), Some(bottom), Some(top), Some(near), Some(far)) => Some(
            Frustum { left, right, bottom, top, near, far },
        ),
        _ => None,
    }
}

/// Tests a box against a frustum: the box is visible exactly when it
/// survives all six planes.
pub fn aabb_in_frustum(aabb_min: BlockPos, aabb_max: BlockPos, frustum: &Frustum) -> (visible: bool)
    ensures
        visible == frustum.admits_box(aabb_min, aabb_max),
{
    frustum.left.box_inside(aabb_min, aabb_max) && frustum.right.box_inside(aabb_min, aabb_max)
        && frustum.bottom.box_inside(aabb_min, aabb_max) && frustum.top.box_inside(
        aabb_min,
        aabb_max,
    ) && frustum.near.box_inside(aabb_min, aabb_max) && frustum.far.box_inside(aabb_min, aabb_max)
}

/// The offset, on one axis, from the observer to the centre of a chunk whose
/// lowest corner is at `origin` on that axis.
pub open spec fn center_gap(origin: int, observer: int) -> int {
    origin + 8 - observer
}

/// Whether the centre of the chunk at `coord` is farther than `CULL_RADIUS`
/// from `observer`.
pub open spec fn beyond_radius(coord: ChunkCoord, observer: BlockPos) -> bool {
    let gx = center_gap(coord.origin_x(), observer.x as int);
    let gy = center_gap(coord.origin_y(), observer.y as int);
    let gz = center_gap(coord.origin_z(), observer.z as int);
    gx * gx + gy * gy + gz * gz > 10000
}

/// The dot product of the direction `view` looks in with the offset from the
/// observer to the centre of the chunk at `coord`.
pub open spec fn forward_reach(coord: ChunkCoord, view: Viewpoint) -> int {
    center_gap(coord.origin_x(), view.position.x as int) * view.forward_x + center_gap(
        coord.origin_y(),
        view.position.y as int,
    ) * view.forward_y + center_gap(coord.origin_z(), view.position.z as int) * view.forward_z
}

/// The squared length of the direction `view` looks in.
pub open spec fn forward_norm(view: Viewpoint) -> int {
    view.forward_x * view.forward_x + view.forward_y * view.forward_y + view.forward_z
        * view.forward_z
}

/// Whether the centre of the chunk at `coord` lies more than a chunk's size
/// behind the observer: its offset from the observer, projected on the viewing
/// direction, is below -16. With a direction of any length `|f|` that is
/// `reach < -16 * |f|`, stated here without the square root.
pub open spec fn behind_observer(coord: ChunkCoord, view: Viewpoint) -> bool {
    forward_reach(coord, view) < 0 && forward_reach(coord, view) * forward_reach(coord, view) > 256
        * forward_norm(view)
}

/// Whether the chunk at `coord` is hidden from `view` by where it lies:
/// behind the observer, or beyond the cull radius.
pub open spec fn occluded(coord: ChunkCoord, view: Viewpoint) -> bool {
    behind_observer(coord, view) || beyond_radius(coord, view.position)
}

/// The squared distance from `observer` to the lowest corner of the chunk at
/// `coord`: the key by which drawn chunks are ordered.
pub open spec fn draw_key(coord: ChunkCoord, observer: BlockPos) -> int {
    (coord.origin_x() - observer.x) * (coord.origin_x() - observer.x) + (coord.origin_y()
        - observer.y) * (coord.origin_y() - observer.y) + (coord.origin_z() - observer.z) * (
    coord.origin_z() - observer.z)
}

/// Whether chunk `a` is drawn before chunk `b`: it is nearer to the observer
/// or, at the same distance, comes first by coordinate.
pub open spec fn drawn_before(a: ChunkCoord, b: ChunkCoord, observer: BlockPos) -> bool {
    draw_key(a, observer) < draw_key(b, observer) || (draw_key(a, observer) == draw_key(b, observer)
        && a.precedes(b))
}

/// The square of a value and of anything larger in size.
proof fn lemma_square_grows(small: int, large: int)
    requires
        0 <= small <= large || 0 <= small <= -large,
    ensures
        small * small <= large * large,
        0 <= large * large,
{
    assert(small * small <= large * large && 0 <= large * large) by (nonlinear_arith)
        requires
            0 <= small <= large || 0 <= small <= -large,
    ;
}

/// A product is bounded by the product of the bounds of its factors.
proof fn lemma_product_bound(a: int, b: int, bound_a: int, bound_b: int)
    requires
        -bound_a <= a <= bound_a,
        -bound_b <= b <= bound_b,
    ensures
        -(bound_a * bound_b) <= a * b <= bound_a * bound_b,
{
    assert(-(bound_a * bound_b) <= a * b <= bound_a * bound_b) by (nonlinear_arith)
        requires
            -bound_a <= a <= bound_a,
            -bound_b <= b <= bound_b,
    ;
}

/// The offset from the observer to a chunk's centre on one axis.
fn gap_to_center(chunk: i32, observer: i64) -> (gap: i128)
    ensures
        gap == center_gap(chunk * 16, observer as int),
{
    chunk as i128 * 16 + 8 - observer as i128
}

/// Tells whether the centre of the chunk at `coord` is farther than
/// `CULL_RADIUS` from `observer`.
pub fn is_beyond_radius(coord: ChunkCoord, observer: BlockPos) -> (far: bool)
    ensures
        far == beyond_radius(coord, observer),
{
    let gx = gap_to_center(coord.x, observer.x);
    let gy = gap_to_center(coord.y, observer.y);
    let gz = gap_to_center(coord.z, observer.z);
    proof {
        lemma_square_grows(0, gx as int);
        lemma_square_grows(0, gy as int);
        lemma_square_grows(0, gz as int);
    }
    if gx > 100 || gx < -100 {
        proof {
            lemma_square_grows(101, gx as int);
        }
        return true;
    }
    if gy > 100 || gy < -100 {
        proof {
            lemma_square_grows(101, gy as int);
        }
        return true;
    }
    if gz > 100 || gz < -100 {
        proof {
            lemma_square_grows(101, gz as int);
        }
        return true;
    }
    proof {
        lemma_product_bound(gx as int, gx as int, 100, 100);
        lemma_product_bound(gy as int, gy as int, 100, 100);
        lemma_product_bound(gz as int, gz as int, 100, 100);
    }
    gx * gx + gy * gy + gz * gz > 10000
}

/// Tells whether the chunk at `coord` is hidden from `view` by where it
/// lies: more than a chunk's size behind the observer, or beyond the cull
/// radius.
pub fn is_chunk_occluded(coord: ChunkCoord, view: &Viewpoint) -> (hidden: bool)
    ensures
        hidden == occluded(coord, *view),
{
    if is_beyond_radius(coord, view.position) {
        return true;
    }
    let gx = gap_to_center(coord.x, view.position.x);
    let gy = gap_to_center(coord.y, view.position.y);
    let gz = gap_to_center(coord.z, view.position.z);
    proof {
        if gx > 100 || gx < -100 {
            lemma_square_grows(101, gx as int);
        }
        if gy > 100 || gy < -100 {
            lemma_square_grows(101, gy as int);
        }
        if gz > 100 || gz < -100 {
            lemma_square_grows(101, gz as int);
        }
        lemma_square_grows(0, gx as int);
        lemma_square_grows(0, gy as int);
        lemma_square_grows(0, gz as int);
    }
    assert(-100 <= gx <= 100 && -100 <= gy <= 100 && -100 <= gz <= 100);
    let fx = view.forward_x as i128;
    let fy = view.forward_y as i128;
    let fz = view.forward_z as i128;
    proof {
        lemma_product_bound(gx as int, fx as int, 100, 0x8000_0000);
        lemma_product_bound(gy as int, fy as int, 100, 0x8000_0000);
        lemma_product_bound(gz as int, fz as int, 100, 0x8000_0000);
        lemma_product_bound(fx as int, fx as int, 0x8000_0000, 0x8000_0000);
        lemma_product_bound(fy as int, fy as int, 0x8000_0000, 0x8000_0000);
        lemma_product_bound(fz as int, fz as int, 0x8000_0000, 0x8000_0000);
    }
    let reach = gx * fx + gy * fy + gz * fz;
    let norm = fx * fx + fy * fy + fz * fz;
    proof {
        lemma_product_bound(reach as int, reach as int, 0x12c_0000_0000, 0x12c_0000_0000);
    }
    reach < 0 && reach * reach > 256 * norm
}

/// The squared distance from `observer` to the lowest corner of a chunk that
/// is not beyond the cull radius.
fn calculate_chunk_distance(coord: ChunkCoord, observer: BlockPos) -> (distance: u64)
    requires
        !beyond_radius(coord, observer),
    ensures
        distance == draw_key(coord, observer),
{
    let gx = gap_to_center(coord.x, observer.x);
    let gy = gap_to_center(coord.y, observer.y);
    let gz = gap_to_center(coord.z, observer.z);
    proof {
        if gx > 100 || gx < -100 {
            lemma_square_grows(101, gx as int);
        }
        if gy > 100 || gy < -100 {
            lemma_square_grows(101, gy as int);
        }
        if gz > 100 || gz < -100 {
            lemma_square_grows(101, gz as int);
        }
        lemma_square_grows(0, gx as int);
        lemma_square_grows(0, gy as int);
        lemma_square_grows(0, gz as int);
    }
    let dx = gx - 8;
    let dy = gy - 8;
    let dz = gz - 8;
    proof {
        lemma_product_bound(dx as int, dx as int, 108, 108);
        lemma_product_bound(dy as int, dy as int, 108, 108);
        lemma_product_bound(dz as int, dz as int, 108, 108);
        lemma_square_grows(0, dx as int);
        lemma_square_grows(0, dy as int);
        lemma_square_grows(0, dz as int);
    }
    (dx * dx + dy * dy + dz * dz) as u64
}

/// The cell of the neighbouring chunk that the outside cell `c` is: each
/// coordinate taken modulo 16.
pub open spec fn wrapped(c: Cell) -> Cell {
    Cell { x: c.x % 16, y: c.y % 16, z: c.z % 16 }
}

/// Whether two chunks seal the face between them: `blocks` are the blocks of
/// a chunk, `other` those of its neighbour across face `face`, and every
/// pair of blocks that touch across that face is solid on both sides.
pub open spec fn touching_face_solid(blocks: Seq<BlockType>, other: Seq<BlockType>, face: int) -> bool {
    0 <= face < 6 ==> forall|c: Cell|
        cell_in_chunk(c) && !cell_in_chunk(#[trigger] neighbor_cell(c, face)) ==> blocks[index_of(
            c,
        )].solid() && other[index_of(wrapped(neighbor_cell(c, face)))].solid()
}

/// One component of the coordinate of the neighbour across a face, as an integer.
pub open spec fn neighbor_chunk(coord: ChunkCoord, face: int) -> Cell {
    neighbor_cell(Cell { x: coord.x as int, y: coord.y as int, z: coord.z as int }, face)
}

/// Whether the chunk grid has a coordinate across face `face` of `coord`.
pub open spec fn has_neighbor(coord: ChunkCoord, face: int) -> bool {
    let n = neighbor_chunk(coord, face);
    fits_i32(n.x) && fits_i32(n.y) && fits_i32(n.z)
}

/// The coordinate of the chunk across face `face` of `coord`.
pub open spec fn neighbor_coord(coord: ChunkCoord, face: int) -> ChunkCoord {
    let n = neighbor_chunk(coord, face);
    ChunkCoord { x: n.x as i32, y: n.y as i32, z: n.z as i32 }
}

/// Whether face `face` of a chunk with the blocks `blocks` at `coord` is
/// sealed: a chunk is loaded across it, and all blocks that touch across it
/// are solid on both sides.
pub open spec fn face_sealed(
    world: ManagerView,
    coord: ChunkCoord,
    blocks: Seq<BlockType>,
    face: int,
) -> bool {
    &&& has_neighbor(coord, face)
    &&& world.loaded.contains_key(neighbor_coord(coord, face))
    &&& touching_face_solid(blocks, world.loaded[neighbor_coord(coord, face)].blocks, face)
}

/// Whether a chunk with the blocks `blocks` at `coord` is enclosed: across
/// each of its six faces a chunk is loaded, and the face between them is
/// sealed by solid blocks on both sides.
pub open spec fn fully_surrounded(world: ManagerView, coord: ChunkCoord, blocks: Seq<BlockType>) -> bool {
    forall|face: int| 0 <= face < 6 ==> #[trigger] face_sealed(world, coord, blocks, face)
}

/// Whether the chunk at `coord` is handed to the renderer: it is loaded, has
/// faces, lies in the frustum, is not occluded and is not enclosed.
pub open spec fn is_drawn(world: ManagerView, view: Viewpoint, coord: ChunkCoord) -> bool {
    &&& world.loaded.contains_key(coord)
    &&& world.loaded[coord].faces.len() > 0
    &&& view.frustum.admits_chunk(coord)
    &&& !occluded(coord, view)
    &&& !fully_surrounded(world, coord, world.loaded[coord].blocks)
}

/// An enclosed chunk is never drawn, wherever the camera looks: a loaded
/// chunk with a loaded neighbour across each face, whose touching blocks are
/// solid on both sides of all six faces, is left out of the drawing order
/// even if its box lies in the frustum.
pub proof fn lemma_enclosed_chunk_is_culled(world: ManagerView, view: Viewpoint, coord: ChunkCoord)
    requires
        world.loaded.contains_key(coord),
        forall|face: int|
            0 <= face < 6 ==> has_neighbor(coord, face) && world.loaded.contains_key(
                #[trigger] neighbor_coord(coord, face),
            ) && touching_face_solid(
                world.loaded[coord].blocks,
                world.loaded[neighbor_coord(coord, face)].blocks,
                face,
            ),
    ensures
        !is_drawn(world, view, coord),
{
    assert forall|face: int| 0 <= face < 6 implies #[trigger] face_sealed(
        world,
        coord,
        world.loaded[coord].blocks,
        face,
    ) by {
        assert(world.loaded.contains_key(neighbor_coord(coord, face)));
    }
}

/// The drawing order is a strict total order on chunk coordinates: of two
/// different chunks exactly one is drawn before the other, and "before"
/// carries through a chunk in between.
pub proof fn lemma_draw_order_total(a: ChunkCoord, b: ChunkCoord, c: ChunkCoord, observer: BlockPos)
    ensures
        !drawn_before(a, a, observer),
        a != b ==> (drawn_before(a, b, observer) != drawn_before(b, a, observer)),
        drawn_before(a, b, observer) && drawn_before(b, c, observer) ==> drawn_before(a, c, observer),
{
}

/// Two drawing orders of the same chunks are the same sequence: a list that
/// is ordered by `drawn_before` is determined by the chunks it holds.
pub proof fn lemma_draw_order_unique(first: Seq<ChunkCoord>, second: Seq<ChunkCoord>, observer: BlockPos)
    requires
        forall|i: int, j: int|
            0 <= i < j < first.len() ==> drawn_before(first[i], first[j], observer),
        forall|i: int, j: int|
            0 <= i < j < second.len() ==> drawn_before(second[i], second[j], observer),
        forall|c: ChunkCoord| first.contains(c) <==> second.contains(c),
    ensures
        first == second,
    decreases first.len(),
{
    if first.len() == 0 {
        if second.len() > 0 {
            assert(second.contains(second[0]));
        }
        assert(first =~= second);
    } else {
        let head = first[0];
        assert(first.contains(head));
        let at = choose|at: int| 0 <= at < second.len() && second[at] == head;
        let other = second[0];
        assert(second.contains(other));
        let back = choose|back: int| 0 <= back < first.len() && first[back] == other;
        if at > 0 {
            assert(drawn_before(other, head, observer));
            if back > 0 {
                assert(drawn_before(head, other, observer));
            }
            lemma_draw_order_total(head, other, head, observer);
            assert(false);
        }
        let rest_first = first.subrange(1, first.len() as int);
        let rest_second = second.subrange(1, second.len() as int);
        assert forall|c: ChunkCoord| rest_first.contains(c) <==> rest_second.contains(c) by {
            if rest_first.contains(c) {
                let i = choose|i: int| 0 <= i < rest_first.len() && rest_first[i] == c;
                assert(first[i + 1] == c);
                assert(drawn_before(first[0], first[i + 1], observer));
                lemma_draw_order_total(head, c, head, observer);
                assert(first.contains(c));
                let j = choose|j: int| 0 <= j < second.len() && second[j] == c;
                assert(j > 0);
                assert(rest_second[j - 1] == c);
            }
            if rest_second.contains(c) {
                let i = choose|i: int| 0 <= i < rest_second.len() && rest_second[i] == c;
                assert(second[i + 1] == c);
                assert(drawn_before(second[0], second[i + 1], observer));
                lemma_draw_order_total(head, c, head, observer);
                assert(second.contains(c));
                let j = choose|j: int| 0 <= j < first.len() && first[j] == c;
                assert(j > 0);
                assert(rest_first[j - 1] == c);
            }
        }
        assert forall|i: int, j: int| 0 <= i < j < rest_first.len() implies drawn_before(
            rest_first[i],
            rest_first[j],
            observer,
        ) by {
            assert(drawn_before(first[i + 1], first[j + 1], observer));
        }
        assert forall|i: int, j: int| 0 <= i < j < rest_second.len() implies drawn_before(
            rest_second[i],
            rest_second[j],
            observer,
        ) by {
            assert(drawn_before(second[i + 1], second[j + 1], observer));
        }
        lemma_draw_order_unique(rest_first, rest_second, observer);
        assert(first =~= seq![head] + rest_first);
        assert(second =~= seq![head] + rest_second);
    }
}

/// The cell of a chunk that touches its neighbour across `face` at the
/// position `(u, v)` of that face.
spec fn face_cell(face: int, u: int, v: int) -> Cell {
    if face == 0 {
        Cell { x: u, y: v, z: 15 }
    } else if face == 1 {
        Cell { x: u, y: v, z: 0 }
    } else if face == 2 {
        Cell { x: 0, y: u, z: v }
    } else if face == 3 {
        Cell { x: 15, y: u, z: v }
    } else if face == 4 {
        Cell { x: u, y: 15, z: v }
    } else {
        Cell { x: u, y: 0, z: v }
    }
}

/// Whether the blocks that touch across `face` at position `(u, v)` are both solid.
spec fn pair_solid(blocks: Seq<BlockType>, other: Seq<BlockType>, face: int, u: int, v: int) -> bool {
    blocks[index_of(face_cell(face, u, v))].solid() && other[index_of(
        wrapped(neighbor_cell(face_cell(face, u, v), face)),
    )].solid()
}

/// The cells that touch the neighbour across `face` are the cells
/// `face_cell(face, u, v)`.
proof fn lemma_face_cells(face: int, c: Cell)
    requires
        0 <= face < 6,
        cell_in_chunk(c),
        !cell_in_chunk(neighbor_cell(c, face)),
    ensures
        exists|u: int, v: int| 0 <= u < 16 && 0 <= v < 16 && c == #[trigger] face_cell(face, u, v),
{
    if face == 0 || face == 1 {
        assert(c == face_cell(face, c.x, c.y));
    } else if face == 2 || face == 3 {
        assert(c == face_cell(face, c.y, c.z));
    } else {
        assert(c == face_cell(face, c.x, c.z));
    }
}

/// Tells whether the face between `chunk` and `neighbor`, the chunk across
/// face `face` of it, is sealed: all 256 pairs of blocks that touch across
/// the face are solid on both sides. A `face` that is not one of the six
/// directions has no such pairs.
pub fn is_face_fully_solid(chunk: &Chunk, neighbor: &Chunk, face: usize) -> (sealed: bool)
    ensures
        sealed == touching_face_solid(chunk@.blocks, neighbor@.blocks, face as int),
{
    if face >= 6 {
        return true;
    }
    let ghost blocks = chunk@.blocks;
    let ghost other = neighbor@.blocks;
    let mut u: usize = 0;
    while u < 16
        invariant
            u <= 16,
            face < 6,
            blocks == chunk@.blocks,
            other == neighbor@.blocks,
            forall|p: int, q: int|
                0 <= p < u && 0 <= q < 16 ==> #[trigger] pair_solid(blocks, other, face as int, p, q),
        decreases 16 - u,
    {
        let mut v: usize = 0;
        while v < 16
            invariant
                u < 16,
                v <= 16,
                face < 6,
                blocks == chunk@.blocks,
                other == neighbor@.blocks,
                forall|p: int, q: int|
                    0 <= p < u && 0 <= q < 16 ==> #[trigger] pair_solid(
                        blocks,
                        other,
                        face as int,
                        p,
                        q,
                    ),
                forall|q: int| 0 <= q < v ==> #[trigger] pair_solid(blocks, other, face as int, u as int, q),
            decreases 16 - v,
        {
            let (mine, theirs) = if face == 0 {
                (chunk.block(u, v, 15), neighbor.block(u, v, 0))
            } else if face == 1 {
                (chunk.block(u, v, 0), neighbor.block(u, v, 15))
            } else if face == 2 {
                (chunk.block(0, u, v), neighbor.block(15, u, v))
            } else if face == 3 {
                (chunk.block(15, u, v), neighbor.block(0, u, v))
            } else if face == 4 {
                (chunk.block(u, 15, v), neighbor.block(u, 0, v))
            } else {
                (chunk.block(u, 0, v), neighbor.block(u, 15, v))
            };
            assert((mine.solid() && theirs.solid()) == pair_solid(
                blocks,
                other,
                face as int,
                u as int,
                v as int,
            ));
            if !mine.is_solid() || !theirs.is_solid() {
                proof {
                    let c = face_cell(face as int, u as int, v as int);
                    assert(cell_in_chunk(c) && !cell_in_chunk(neighbor_cell(c, face as int)));
                }
                return false;
            }
            v += 1;
        }
        u += 1;
    }
    proof {
        assert forall|c: Cell|
            cell_in_chunk(c) && !cell_in_chunk(
                #[trigger] neighbor_cell(c, face as int),
            ) implies blocks[index_of(c)].solid() && other[index_of(
            wrapped(neighbor_cell(c, face as int)),
        )].solid() by {
            lemma_face_cells(face as int, c);
            let (p, q) = choose|p: int, q: int|
                0 <= p < 16 && 0 <= q < 16 && c == #[trigger] face_cell(face as int, p, q);
            assert(pair_solid(blocks, other, face as int, p, q));
        }
    }
    true
}

/// The coordinate of the chunk across face `face` of `coord`, if the chunk
/// grid has one.
fn neighbor_of(coord: ChunkCoord, face: usize) -> (neighbor: Option<ChunkCoord>)
    requires
        face < 6,
    ensures
        neighbor == if has_neighbor(coord, face as int) {
            Some(neighbor_coord(coord, face as int))
        } else {
            None
        },
{
    let mut x = coord.x as i64;
    let mut y = coord.y as i64;
    let mut z = coord.z as i64;
    if face == 0 {
        z = z + 1;
    } else if face == 1 {
        z = z - 1;
    } else if face == 2 {
        x = x - 1;
    } else if face == 3 {
        x = x + 1;
    } else if face == 4 {
        y = y + 1;
    } else {
        y = y - 1;
    }
    if x < -0x8000_0000 || x > 0x7fff_ffff || y < -0x8000_0000 || y > 0x7fff_ffff || z
        < -0x8000_0000 || z > 0x7fff_ffff {
        None
    } else {
        Some(ChunkCoord { x: x as i32, y: y as i32, z: z as i32 })
    }
}

/// Tells whether `chunk` is enclosed by the chunks loaded around it: across
/// each of its six faces a chunk is loaded, and the face between them is
/// sealed by solid blocks on both sides. Such a chunk cannot be seen.
pub fn is_chunk_fully_surrounded(chunk: &Chunk, manager: &ChunkManager) -> (enclosed: bool)
    requires
        manager.wf(),
    ensures
        enclosed == fully_surrounded(manager@, chunk@.coord, chunk@.blocks),
{
    let coord = chunk.coord();
    let mut face: usize = 0;
    while face < 6
        invariant
            face <= 6,
            manager.wf(),
            coord == chunk@.coord,
            forall|f: int|
                0 <= f < face ==> #[trigger] face_sealed(manager@, coord, chunk@.blocks, f),
        decreases 6 - face,
    {
        let sealed = match neighbor_of(coord, face) {
            Some(beside) => match manager.chunk(beside) {
                Some(neighbor) => is_face_fully_solid(chunk, neighbor, face),
                None => false,
            },
            None => false,
        };
        if !sealed {
            assert(!face_sealed(manager@, coord, chunk@.blocks, face as int));
            return false;
        }
        face += 1;
    }
    true
}

/// A chunk to draw with its distance key.
struct DrawEntry {
    distance: u64,
    coord: ChunkCoord,
}

/// Whether the entries carry the keys of their chunks and stand in drawing order.
spec fn entries_ordered(entries: Seq<DrawEntry>, observer: BlockPos) -> bool {
    &&& forall|i: int|
        0 <= i < entries.len() ==> (#[trigger] entries[i]).distance == draw_key(
            entries[i].coord,
            observer,
        )
    &&& forall|i: int, j: int|
        0 <= i < j < entries.len() ==> drawn_before(
            (#[trigger] entries[i]).coord,
            (#[trigger] entries[j]).coord,
            observer,
        )
}

/// Whether `coord` stands in `entries`.
spec fn entries_hold(entries: Seq<DrawEntry>, coord: ChunkCoord) -> bool {
    exists|i: int| 0 <= i < entries.len() && (#[trigger] entries[i]).coord == coord
}

/// Tells whether entry `a` is drawn before entry `b`.
fn stands_before(a: &DrawEntry, b: &DrawEntry) -> (first: bool)
    ensures
        first == (a.distance < b.distance || (a.distance == b.distance && a.coord.precedes(b.coord))),
{
    a.distance < b.distance || (a.distance == b.distance && a.coord.comes_before(&b.coord))
}

/// Puts one more chunk at its place in the drawing order.
fn insert_entry(entries: &mut Vec<DrawEntry>, entry: DrawEntry, Ghost(observer): Ghost<BlockPos>)
    requires
        entries_ordered(old(entries)@, observer),
        entry.distance == draw_key(entry.coord, observer),
        !entries_hold(old(entries)@, entry.coord),
    ensures
        entries_ordered(final(entries)@, observer),
        forall|c: ChunkCoord|
            entries_hold(final(entries)@, c) <==> entries_hold(old(entries)@, c) || c == entry.coord,
{
    let ghost before = entries@;
    let ghost coord = entry.coord;
    let mut at: usize = 0;
    while at < entries.len() && !stands_before(&entry, &entries[at])
        invariant
            at <= entries@.len(),
            entries@ == before,
            entries_ordered(before, observer),
            entry.distance == draw_key(entry.coord, observer),
            !entries_hold(before, entry.coord),
            forall|i: int| 0 <= i < at ==> drawn_before((#[trigger] before[i]).coord, entry.coord, observer),
        decreases entries@.len() - at,
    {
        assert(before[at as int].coord != entry.coord);
        assert(drawn_before(before[at as int].coord, entry.coord, observer));
        at += 1;
    }
    assert(at < before.len() ==> drawn_before(coord, before[at as int].coord, observer));
    entries.insert(at, entry);
    proof {
        let after = entries@;
        assert forall|i: int, j: int| 0 <= i < j < after.len() implies drawn_before(
            (#[trigger] after[i]).coord,
            (#[trigger] after[j]).coord,
            observer,
        ) by {
            if j < at {
                assert(after[i] == before[i] && after[j] == before[j]);
            } else if j == at {
                assert(after[i] == before[i]);
            } else if i < at {
                assert(after[i] == before[i] && after[j] == before[j - 1]);
            } else if i == at {
                assert(after[j] == before[j - 1]);
                assert(drawn_before(coord, before[at as int].coord, observer));
                if j - 1 > at {
                    assert(drawn_before(before[at as int].coord, before[j - 1].coord, observer));
                }
            } else {
                assert(after[i] == before[i - 1] && after[j] == before[j - 1]);
            }
        }
        assert forall|i: int| 0 <= i < after.len() implies (#[trigger] after[i]).distance == draw_key(
            after[i].coord,
            observer,
        ) by {
            if i < at {
                assert(after[i] == before[i]);
            } else if i > at {
                assert(after[i] == before[i - 1]);
            }
        }
        assert forall|c: ChunkCoord|
            entries_hold(after, c) <==> entries_hold(before, c) || c == coord by {
            if entries_hold(after, c) {
                let i = choose|i: int| 0 <= i < after.len() && (#[trigger] after[i]).coord == c;
                if i < at {
                    assert(before[i].coord == c);
                } else if i > at {
                    assert(before[i - 1].coord == c);
                }
            }
            if entries_hold(before, c) {
                let i = choose|i: int| 0 <= i < before.len() && (#[trigger] before[i]).coord == c;
                if i < at {
                    assert(after[i].coord == c);
                } else {
                    assert(after[i + 1].coord == c);
                }
            }
            if c == coord {
                assert(after[at as int].coord == c);
            }
        }
    }
}

/// Tells whether a loaded chunk passes every culling test.
fn passes_culling(chunk: &Chunk, manager: &ChunkManager, view: &Viewpoint) -> (drawn: bool)
    requires
        manager.wf(),
        manager@.loaded.contains_key(chunk@.coord),
        manager@.loaded[chunk@.coord] == chunk@,
    ensures
        drawn == is_drawn(manager@, *view, chunk@.coord),
{
    let coord = chunk.coord();
    if chunk.faces().len() == 0 {
        return false;
    }
    let min = coord.origin();
    let max = BlockPos { x: min.x + 16, y: min.y + 16, z: min.z + 16 };
    if !aabb_in_frustum(min, max, &view.frustum) {
        return false;
    }
    if is_chunk_occluded(coord, view) {
        return false;
    }
    !is_chunk_fully_surrounded(chunk, manager)
}

/// Chooses the chunks to draw, nearest first.
///
/// A loaded chunk is drawn when it has faces, its box survives the frustum,
/// it lies neither behind the observer nor beyond the cull radius, and it is
/// not enclosed by its six neighbours. The result holds each such chunk
/// once, ordered by the squared distance from the observer to the chunk's
/// lowest corner, chunks at the same distance by coordinate.
pub fn select_visible(manager: &ChunkManager, view: &Viewpoint) -> (order: Vec<ChunkCoord>)
    requires
        manager.wf(),
    ensures
        forall|c: ChunkCoord| order@.contains(c) <==> is_drawn(manager@, *view, c),
        forall|i: int, j: int|
            0 <= i < j < order@.len() ==> drawn_before(order@[i], order@[j], view.position),
{
    let chunks = manager.all_chunks();
    let mut entries: Vec<DrawEntry> = Vec::new();
    let mut next: usize = 0;
    while next < chunks.len()
        invariant
            next <= chunks@.len(),
            manager.wf(),
            forall|i: int|
                0 <= i < chunks@.len() ==> manager@.loaded.contains_key(
                    (#[trigger] chunks@[i])@.coord,
                ) && manager@.loaded[chunks@[i]@.coord] == chunks@[i]@,
            forall|i: int, j: int|
                0 <= i < j < chunks@.len() ==> (#[trigger] chunks@[i])@.coord != (
                #[trigger] chunks@[j])@.coord,
            entries_ordered(entries@, view.position),
            forall|c: ChunkCoord|
                entries_hold(entries@, c) <==> is_drawn(manager@, *view, c) && exists|i: int|
                    0 <= i < next && (#[trigger] chunks@[i])@.coord == c,
        decreases chunks@.len() - next,
    {
        let chunk = chunks[next];
        let ghost held = entries@;
        let ghost coord = chunk@.coord;
        if passes_culling(chunk, manager, view) {
            let key = calculate_chunk_distance(chunk.coord(), view.position);
            assert(!entries_hold(held, coord)) by {
                if entries_hold(held, coord) {
                    let i = choose|i: int| 0 <= i < next && (#[trigger] chunks@[i])@.coord == coord;
                    assert(chunks@[i]@.coord != chunks@[next as int]@.coord);
                }
            }
            insert_entry(&mut entries, DrawEntry { distance: key, coord: chunk.coord() }, Ghost(view.position));
        }
        proof {
            assert forall|c: ChunkCoord|
                entries_hold(entries@, c) <==> is_drawn(manager@, *view, c) && exists|i: int|
                    0 <= i < next + 1 && (#[trigger] chunks@[i])@.coord == c by {
                if exists|i: int| 0 <= i < next + 1 && (#[trigger] chunks@[i])@.coord == c {
                    let i = choose|i: int| 0 <= i < next + 1 && (#[trigger] chunks@[i])@.coord == c;
                    if i < next {
                        assert(exists|i: int| 0 <= i < next && (#[trigger] chunks@[i])@.coord == c);
                    }
                }
                if exists|i: int| 0 <= i < next && (#[trigger] chunks@[i])@.coord == c {
                    let i = choose|i: int| 0 <= i < next && (#[trigger] chunks@[i])@.coord == c;
                    assert(0 <= i < next + 1 && chunks@[i]@.coord == c);
                }
                if c == coord {
                    assert(0 <= next < next + 1 && chunks@[next as int]@.coord == c);
                }
            }
        }
        next += 1;
    }
    let mut order: Vec<ChunkCoord> = Vec::new();
    let mut copied: usize = 0;
    while copied < entries.len()
        invariant
            copied <= entries@.len(),
            order@.len() == copied,
            forall|i: int| 0 <= i < copied ==> #[trigger] order@[i] == entries@[i].coord,
        decreases entries@.len() - copied,
    {
        order.push(entries[copied].coord);
        copied += 1;
    }
    proof {
        assert forall|c: ChunkCoord| order@.contains(c) <==> is_drawn(manager@, *view, c) by {
            if order@.contains(c) {
                let i = choose|i: int| 0 <= i < order@.len() && order@[i] == c;
                assert(entries@[i].coord == c);
                assert(entries_hold(entries@, c));
            }
            if is_drawn(manager@, *view, c) {
                assert(manager@.loaded.contains_key(c));
                assert(entries_hold(entries@, c));
                let i = choose|i: int| 0 <= i < entries@.len() && (#[trigger] entries@[i]).coord == c;
                assert(order@[i] == c);
            }
        }
        assert forall|i: int, j: int| 0 <= i < j < order@.len() implies drawn_before(
            order@[i],
            order@[j],
            view.position,
        ) by {
            assert(drawn_before(entries@[i].coord, entries@[j].coord, view.position));
        }
    }
    order
}

} // verus!
