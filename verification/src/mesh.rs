//! Visible-face extraction: which air of a chunk is reachable from the chunk's
//! boundary, and which block faces therefore have to be drawn.

use vstd::prelude::*;
use crate::block::BlockType;
use crate::coords::{
    axis_gap, cell_index, cell_x, cell_y, cell_z, chunk_axis, fits_i32, in_chunk, local_axis,
    BlockPos, ChunkCoord,
};

verus! {

/// A cell position relative to a chunk. Positions outside `0..16` name cells
/// of neighbouring chunks.
pub struct Cell {
    pub x: int,
    pub y: int,
    pub z: int,
}

/// One face to draw: the world position of its block, the direction it faces
/// (0: +Z, 1: -Z, 2: -X, 3: +X, 4: +Y, 5: -Y) and the id of the block's kind.
#[derive(Debug, Clone, Copy, PartialEq, Eq, Structural)]
pub struct BlockFaceInstance {
    pub position: BlockPos,
    pub face: u32,
    pub block_type: u32,
}

/// The cell stored at flat index `index`.
pub open spec fn cell_at(index: int) -> Cell {
    Cell { x: cell_x(index), y: cell_y(index), z: cell_z(index) }
}

/// The flat index of cell `c`.
pub open spec fn index_of(c: Cell) -> int {
    cell_index(c.x, c.y, c.z)
}

/// Whether `c` lies inside the chunk.
pub open spec fn cell_in_chunk(c: Cell) -> bool {
    in_chunk(c.x, c.y, c.z)
}

/// Whether `c` lies on one of the six outer faces of the chunk volume.
pub open spec fn cell_on_boundary(c: Cell) -> bool {
    cell_in_chunk(c) && (c.x == 0 || c.x == 15 || c.y == 0 || c.y == 15 || c.z == 0 || c.z == 15)
}

/// Whether `c` is a cell of the chunk that holds air.
pub open spec fn is_air_cell(blocks: Seq<BlockType>, c: Cell) -> bool {
    cell_in_chunk(c) && !blocks[index_of(c)].solid()
}

/// Whether `a` and `b` share a face.
pub open spec fn cells_adjacent(a: Cell, b: Cell) -> bool {
    axis_gap(a.x, b.x) + axis_gap(a.y, b.y) + axis_gap(a.z, b.z) == 1
}

/// A walk through air cells of the chunk that starts on the chunk's boundary
/// and moves from each cell to one that shares a face with it.
pub open spec fn is_air_path(blocks: Seq<BlockType>, path: Seq<Cell>) -> bool {
    &&& path.len() > 0
    &&& cell_on_boundary(path[0])
    &&& forall|i: int| 0 <= i < path.len() ==> is_air_cell(blocks, #[trigger] path[i])
    &&& forall|i: int| 0 <= i < path.len() - 1 ==> cells_adjacent(#[trigger] path[i], path[i + 1])
}

/// Air that can be seen from outside the chunk: an air cell that some air
/// path connects to the chunk's boundary. Sealed pockets are not exterior.
pub open spec fn exterior_air(blocks: Seq<BlockType>, c: Cell) -> bool {
    exists|path: Seq<Cell>| is_air_path(blocks, path) && #[trigger] path.last() == c
}

/// The cell that the face `face` of cell `c` looks at.
pub open spec fn neighbor_cell(c: Cell, face: int) -> Cell {
    if face == 0 {
        Cell { x: c.x, y: c.y, z: c.z + 1 }
    } else if face == 1 {
        Cell { x: c.x, y: c.y, z: c.z - 1 }
    } else if face == 2 {
        Cell { x: c.x - 1, y: c.y, z: c.z }
    } else if face == 3 {
        Cell { x: c.x + 1, y: c.y, z: c.z }
    } else if face == 4 {
        Cell { x: c.x, y: c.y + 1, z: c.z }
    } else {
        Cell { x: c.x, y: c.y - 1, z: c.z }
    }
}

/// The block at world position `(x, y, z)` in a world whose loaded chunks
/// have the block grids `grids`, or `None` where no loaded chunk holds that
/// position. "Not loaded" is not the same as air.
pub open spec fn world_block(
    grids: Map<ChunkCoord, Seq<BlockType>>,
    x: int,
    y: int,
    z: int,
) -> Option<BlockType> {
    if fits_i32(chunk_axis(x)) && fits_i32(chunk_axis(y)) && fits_i32(chunk_axis(z)) {
        let owner = ChunkCoord {
            x: chunk_axis(x) as i32,
            y: chunk_axis(y) as i32,
            z: chunk_axis(z) as i32,
        };
        if grids.contains_key(owner) {
            Some(grids[owner][cell_index(local_axis(x), local_axis(y), local_axis(z))])
        } else {
            None
        }
    } else {
        None
    }
}

/// Whether the face `face` of cell `c` borders something one can see through.
/// Inside the chunk that is exterior air. Across the chunk's boundary it is a
/// block that the world reports as not solid, or as unknown: a neighbour
/// that is not loaded hides nothing.
pub open spec fn neighbor_open(
    coord: ChunkCoord,
    blocks: Seq<BlockType>,
    grids: Map<ChunkCoord, Seq<BlockType>>,
    c: Cell,
    face: int,
) -> bool {
    let n = neighbor_cell(c, face);
    if cell_in_chunk(n) {
        exterior_air(blocks, n)
    } else {
        match world_block(
            grids,
            coord.origin_x() + n.x,
            coord.origin_y() + n.y,
            coord.origin_z() + n.z,
        ) {
            Some(block) => !block.solid(),
            None => true,
        }
    }
}

/// The cell that face slot `slot` belongs to. Slots run through the cells in
/// flat order, six faces each.
pub open spec fn slot_cell(slot: int) -> Cell {
    cell_at(slot / 6)
}

/// The face direction of face slot `slot`.
pub open spec fn slot_face(slot: int) -> int {
    slot % 6
}

/// Whether the mesh holds the face of slot `slot`: its block is solid and the
/// face borders something one can see through.
pub open spec fn face_emitted(
    coord: ChunkCoord,
    blocks: Seq<BlockType>,
    grids: Map<ChunkCoord, Seq<BlockType>>,
    slot: int,
) -> bool {
    blocks[slot / 6].solid() && neighbor_open(coord, blocks, grids, slot_cell(slot), slot_face(slot))
}

/// The instance record of face slot `slot`.
pub open spec fn slot_instance(coord: ChunkCoord, blocks: Seq<BlockType>, slot: int) -> BlockFaceInstance {
    BlockFaceInstance {
        position: BlockPos {
            x: (coord.origin_x() + slot_cell(slot).x) as i64,
            y: (coord.origin_y() + slot_cell(slot).y) as i64,
            z: (coord.origin_z() + slot_cell(slot).z) as i64,
        },
        face: slot_face(slot) as u32,
        block_type: blocks[slot / 6].kind_id(),
    }
}

/// The instances of the emitted faces among the first `count` slots, in slot order.
pub open spec fn faces_before(
    coord: ChunkCoord,
    blocks: Seq<BlockType>,
    grids: Map<ChunkCoord, Seq<BlockType>>,
    count: int,
) -> Seq<BlockFaceInstance>
    decreases count,
{
    if count <= 0 {
        Seq::empty()
    } else if face_emitted(coord, blocks, grids, count - 1) {
        faces_before(coord, blocks, grids, count - 1).push(slot_instance(coord, blocks, count - 1))
    } else {
        faces_before(coord, blocks, grids, count - 1)
    }
}

/// The mesh of a chunk: one instance for every emitted face, cell by cell in
/// flat order and face by face in direction order.
pub open spec fn mesh_faces(
    coord: ChunkCoord,
    blocks: Seq<BlockType>,
    grids: Map<ChunkCoord, Seq<BlockType>>,
) -> Seq<BlockFaceInstance> {
    faces_before(coord, blocks, grids, 24576)
}

/// The flood-fill answer for a whole chunk: entry `i` tells whether cell `i`
/// is exterior air.
pub open spec fn is_exterior_map(blocks: Seq<BlockType>, visible: Seq<bool>) -> bool {
    &&& visible.len() == 4096
    &&& forall|i: int| 0 <= i < 4096 ==> #[trigger] visible[i] == exterior_air(blocks, cell_at(i))
}

pub proof fn lemma_cell_index_roundtrip(i: int)
    requires
        0 <= i < 4096,
    ensures
        cell_in_chunk(cell_at(i)),
        index_of(cell_at(i)) == i,
{
}

pub proof fn lemma_index_cell_roundtrip(c: Cell)
    requires
        cell_in_chunk(c),
    ensures
        0 <= index_of(c) < 4096,
        cell_at(index_of(c)) == c,
{
}

/// Two cells share a face exactly when one is the neighbour of the other
/// through one of the six faces.
pub proof fn lemma_adjacent_is_neighbor(a: Cell, b: Cell)
    requires
        cells_adjacent(a, b),
    ensures
        exists|face: int| 0 <= face < 6 && b == #[trigger] neighbor_cell(a, face),
{
    if b.z == a.z + 1 {
        assert(b == neighbor_cell(a, 0));
    } else if b.z == a.z - 1 {
        assert(b == neighbor_cell(a, 1));
    } else if b.x == a.x - 1 {
        assert(b == neighbor_cell(a, 2));
    } else if b.x == a.x + 1 {
        assert(b == neighbor_cell(a, 3));
    } else if b.y == a.y + 1 {
        assert(b == neighbor_cell(a, 4));
    } else {
        assert(b == neighbor_cell(a, 5));
    }
}

/// An air cell on the chunk's boundary is exterior air.
pub proof fn lemma_boundary_air_is_exterior(blocks: Seq<BlockType>, c: Cell)
    requires
        cell_on_boundary(c),
        is_air_cell(blocks, c),
    ensures
        exterior_air(blocks, c),
{
    let path = seq![c];
    assert(is_air_path(blocks, path));
    assert(path.last() == c);
}

/// An air cell next to exterior air is exterior air.
pub proof fn lemma_exterior_air_spreads(blocks: Seq<BlockType>, from: Cell, to: Cell)
    requires
        exterior_air(blocks, from),
        cells_adjacent(from, to),
        is_air_cell(blocks, to),
    ensures
        exterior_air(blocks, to),
{
    let path = choose|path: Seq<Cell>| is_air_path(blocks, path) && #[trigger] path.last() == from;
    let longer = path.push(to);
    assert forall|i: int| 0 <= i < longer.len() implies is_air_cell(blocks, #[trigger] longer[i]) by {
        if i < path.len() {
            assert(longer[i] == path[i]);
        }
    }
    assert forall|i: int| 0 <= i < longer.len() - 1 implies cells_adjacent(
        #[trigger] longer[i],
        longer[i + 1],
    ) by {
        if i < path.len() - 1 {
            assert(longer[i] == path[i]);
            assert(longer[i + 1] == path[i + 1]);
        } else {
            assert(longer[i] == path.last());
        }
    }
    assert(longer[0] == path[0]);
    assert(is_air_path(blocks, longer));
    assert(longer.last() == to);
}

/// Exterior air is air, and every exterior air cell that is not on the
/// boundary has an exterior air cell next to it.
pub proof fn lemma_exterior_air_has_source(blocks: Seq<BlockType>, c: Cell)
    requires
        exterior_air(blocks, c),
    ensures
        is_air_cell(blocks, c),
        cell_on_boundary(c) || exists|face: int|
            0 <= face < 6 && exterior_air(blocks, #[trigger] neighbor_cell(c, face)),
{
    let path = choose|path: Seq<Cell>| is_air_path(blocks, path) && #[trigger] path.last() == c;
    assert(path[path.len() - 1] == c);
    if path.len() > 1 {
        let before = path.drop_last();
        let prev = path[path.len() - 2];
        assert forall|i: int| 0 <= i < before.len() implies is_air_cell(blocks, #[trigger] before[i]) by {
            assert(before[i] == path[i]);
        }
        assert forall|i: int| 0 <= i < before.len() - 1 implies cells_adjacent(
            #[trigger] before[i],
            before[i + 1],
        ) by {
            assert(before[i] == path[i]);
            assert(before[i + 1] == path[i + 1]);
        }
        assert(before[0] == path[0]);
        assert(is_air_path(blocks, before));
        assert(before.last() == prev);
        assert(exterior_air(blocks, prev));
        assert(cells_adjacent(path[path.len() - 2], path[path.len() - 2 + 1]));
        assert(cells_adjacent(c, prev));
        lemma_adjacent_is_neighbor(c, prev);
    }
}

/// The face of a neighbouring cell that looks back through face `face`.
pub open spec fn opposite_face(face: int) -> int {
    if face == 0 {
        1
    } else if face == 1 {
        0
    } else if face == 2 {
        3
    } else if face == 3 {
        2
    } else if face == 4 {
        5
    } else {
        4
    }
}

/// The slot of face `face` of cell `c`.
pub open spec fn slot_of(c: Cell, face: int) -> int {
    index_of(c) * 6 + face
}

/// Every block that touches the chunk at `coord` from outside is loaded and solid.
pub open spec fn enclosed_by_solid(coord: ChunkCoord, grids: Map<ChunkCoord, Seq<BlockType>>) -> bool {
    forall|c: Cell, face: int|
        cell_in_chunk(c) && 0 <= face < 6 && !cell_in_chunk(#[trigger] neighbor_cell(c, face)) ==> {
            let n = neighbor_cell(c, face);
            world_block(grids, coord.origin_x() + n.x, coord.origin_y() + n.y, coord.origin_z() + n.z)
                matches Some(block) && block.solid()
        }
}

/// Different slots have different instance records: the block position and
/// the direction tell the slot.
pub proof fn lemma_slot_instance_injective(coord: ChunkCoord, blocks: Seq<BlockType>, a: int, b: int)
    requires
        0 <= a < 24576,
        0 <= b < 24576,
        slot_instance(coord, blocks, a) == slot_instance(coord, blocks, b),
    ensures
        a == b,
{
    let ia = slot_instance(coord, blocks, a);
    let ib = slot_instance(coord, blocks, b);
    assert(ia.face == ib.face);
    assert(ia.position.x == ib.position.x);
    assert(ia.position.y == ib.position.y);
    assert(ia.position.z == ib.position.z);
    lemma_cell_index_roundtrip(a / 6);
    lemma_cell_index_roundtrip(b / 6);
    assert(slot_cell(a) == slot_cell(b));
    assert(a / 6 == b / 6);
}

/// The first `count` slots contribute exactly the instances of their emitted faces.
pub proof fn lemma_faces_before_contents(
    coord: ChunkCoord,
    blocks: Seq<BlockType>,
    grids: Map<ChunkCoord, Seq<BlockType>>,
    count: int,
    instance: BlockFaceInstance,
)
    requires
        0 <= count,
    ensures
        faces_before(coord, blocks, grids, count).contains(instance) <==> exists|slot: int|
            0 <= slot < count && face_emitted(coord, blocks, grids, slot) && #[trigger] slot_instance(
                coord,
                blocks,
                slot,
            ) == instance,
    decreases count,
{
    if count > 0 {
        let before = faces_before(coord, blocks, grids, count - 1);
        let all = faces_before(coord, blocks, grids, count);
        lemma_faces_before_contents(coord, blocks, grids, count - 1, instance);
        if all.contains(instance) {
            let at = choose|at: int| 0 <= at < all.len() && all[at] == instance;
            if at < before.len() {
                assert(before[at] == instance);
                assert(before.contains(instance));
                let slot = choose|slot: int|
                    0 <= slot < count - 1 && face_emitted(coord, blocks, grids, slot)
                        && #[trigger] slot_instance(coord, blocks, slot) == instance;
                assert(0 <= slot < count);
            } else {
                assert(face_emitted(coord, blocks, grids, count - 1));
                assert(slot_instance(coord, blocks, count - 1) == instance);
            }
        }
        if exists|slot: int|
            0 <= slot < count && face_emitted(coord, blocks, grids, slot) && #[trigger] slot_instance(
                coord,
                blocks,
                slot,
            ) == instance {
            let slot = choose|slot: int|
                0 <= slot < count && face_emitted(coord, blocks, grids, slot)
                    && #[trigger] slot_instance(coord, blocks, slot) == instance;
            if slot < count - 1 {
                assert(before.contains(instance));
                let at = choose|at: int| 0 <= at < before.len() && before[at] == instance;
                assert(all[at] == instance);
            } else {
                assert(all[all.len() - 1] == instance);
            }
        }
    }
}

/// The mesh holds an instance exactly when it is the record of an emitted face.
pub proof fn lemma_mesh_contents(
    coord: ChunkCoord,
    blocks: Seq<BlockType>,
    grids: Map<ChunkCoord, Seq<BlockType>>,
    instance: BlockFaceInstance,
)
    ensures
        mesh_faces(coord, blocks, grids).contains(instance) <==> exists|slot: int|
            0 <= slot < 24576 && face_emitted(coord, blocks, grids, slot) && #[trigger] slot_instance(
                coord,
                blocks,
                slot,
            ) == instance,
{
    lemma_faces_before_contents(coord, blocks, grids, 24576, instance);
}

/// The mesh holds the record of slot `slot` exactly when the face of that slot is emitted.
pub proof fn lemma_mesh_holds_slot(
    coord: ChunkCoord,
    blocks: Seq<BlockType>,
    grids: Map<ChunkCoord, Seq<BlockType>>,
    slot: int,
)
    requires
        0 <= slot < 24576,
    ensures
        mesh_faces(coord, blocks, grids).contains(slot_instance(coord, blocks, slot)) <==> face_emitted(
            coord,
            blocks,
            grids,
            slot,
        ),
{
    let instance = slot_instance(coord, blocks, slot);
    lemma_mesh_contents(coord, blocks, grids, instance);
    if mesh_faces(coord, blocks, grids).contains(instance) {
        let other = choose|other: int|
            0 <= other < 24576 && face_emitted(coord, blocks, grids, other) && #[trigger] slot_instance(
                coord,
                blocks,
                other,
            ) == instance;
        lemma_slot_instance_injective(coord, blocks, other, slot);
    }
}

/// Every instance of a mesh belongs to a solid block: its kind is grass, dirt
/// or stone, never air, and its direction is one of the six.
pub proof fn lemma_mesh_instances_are_solid(
    coord: ChunkCoord,
    blocks: Seq<BlockType>,
    grids: Map<ChunkCoord, Seq<BlockType>>,
    instance: BlockFaceInstance,
)
    requires
        mesh_faces(coord, blocks, grids).contains(instance),
    ensures
        instance.block_type <= 2,
        instance.face < 6,
{
    lemma_mesh_contents(coord, blocks, grids, instance);
}

/// The instances that the first `count` slots contribute stand in slot
/// order, so none of them occurs twice.
pub proof fn lemma_faces_before_distinct(
    coord: ChunkCoord,
    blocks: Seq<BlockType>,
    grids: Map<ChunkCoord, Seq<BlockType>>,
    count: int,
)
    requires
        0 <= count <= 24576,
    ensures
        faces_before(coord, blocks, grids, count).no_duplicates(),
    decreases count,
{
    if count > 0 {
        let before = faces_before(coord, blocks, grids, count - 1);
        lemma_faces_before_distinct(coord, blocks, grids, count - 1);
        if face_emitted(coord, blocks, grids, count - 1) {
            let added = slot_instance(coord, blocks, count - 1);
            lemma_faces_before_contents(coord, blocks, grids, count - 1, added);
            if before.contains(added) {
                let slot = choose|slot: int|
                    0 <= slot < count - 1 && face_emitted(coord, blocks, grids, slot)
                        && #[trigger] slot_instance(coord, blocks, slot) == added;
                lemma_slot_instance_injective(coord, blocks, slot, count - 1);
            }
            assert forall|i: int, j: int|
                0 <= i < before.len() + 1 && 0 <= j < before.len() + 1 && i != j implies before.push(
                added,
            )[i] != before.push(added)[j] by {
                if i < before.len() && j < before.len() {
                    assert(before[i] != before[j]);
                } else if i < before.len() {
                    assert(before.contains(before[i]));
                } else {
                    assert(before.contains(before[j]));
                }
            }
        }
    }
}

/// No face occurs twice in a mesh.
pub proof fn lemma_mesh_has_no_duplicates(
    coord: ChunkCoord,
    blocks: Seq<BlockType>,
    grids: Map<ChunkCoord, Seq<BlockType>>,
)
    ensures
        mesh_faces(coord, blocks, grids).no_duplicates(),
        mesh_faces(coord, blocks, grids).len() <= 24576,
{
    lemma_faces_before_distinct(coord, blocks, grids, 24576);
    lemma_faces_before_len(coord, blocks, grids, 24576);
}

/// A mesh has at most one instance per face slot.
pub proof fn lemma_faces_before_len(
    coord: ChunkCoord,
    blocks: Seq<BlockType>,
    grids: Map<ChunkCoord, Seq<BlockType>>,
    count: int,
)
    requires
        0 <= count,
    ensures
        faces_before(coord, blocks, grids, count).len() <= count,
    decreases count,
{
    if count > 0 {
        lemma_faces_before_len(coord, blocks, grids, count - 1);
    }
}

/// Where no face of the first `count` slots is emitted, they contribute nothing.
pub proof fn lemma_nothing_emitted_is_empty(
    coord: ChunkCoord,
    blocks: Seq<BlockType>,
    grids: Map<ChunkCoord, Seq<BlockType>>,
    count: int,
)
    requires
        0 <= count,
        forall|slot: int| 0 <= slot < count ==> !face_emitted(coord, blocks, grids, slot),
    ensures
        faces_before(coord, blocks, grids, count) == Seq::<BlockFaceInstance>::empty(),
    decreases count,
{
    if count > 0 {
        lemma_nothing_emitted_is_empty(coord, blocks, grids, count - 1);
    }
}

/// A chunk without any air, enclosed by loaded solid blocks on all sides, has
/// an empty mesh.
pub proof fn lemma_solid_chunk_has_no_faces(
    coord: ChunkCoord,
    blocks: Seq<BlockType>,
    grids: Map<ChunkCoord, Seq<BlockType>>,
)
    requires
        blocks.len() == 4096,
        forall|i: int| 0 <= i < 4096 ==> (#[trigger] blocks[i]).solid(),
        enclosed_by_solid(coord, grids),
    ensures
        mesh_faces(coord, blocks, grids) == Seq::<BlockFaceInstance>::empty(),
{
    assert forall|slot: int| 0 <= slot < 24576 implies !face_emitted(coord, blocks, grids, slot) by {
        let c = slot_cell(slot);
        let face = slot_face(slot);
        let n = neighbor_cell(c, face);
        lemma_cell_index_roundtrip(slot / 6);
        if cell_in_chunk(n) {
            lemma_index_cell_roundtrip(n);
            if exterior_air(blocks, n) {
                lemma_exterior_air_has_source(blocks, n);
                assert(blocks[index_of(n)].solid());
            }
        }
    }
    lemma_nothing_emitted_is_empty(coord, blocks, grids, 24576);
}

/// An air cell inside the chunk whose six neighbours are all solid is a
/// sealed pocket: it is not exterior air.
pub proof fn lemma_enclosed_cell_is_sealed(blocks: Seq<BlockType>, pocket: Cell)
    requires
        cell_in_chunk(pocket),
        !cell_on_boundary(pocket),
        forall|face: int|
            0 <= face < 6 ==> blocks[index_of(#[trigger] neighbor_cell(pocket, face))].solid(),
    ensures
        !exterior_air(blocks, pocket),
{
    if exterior_air(blocks, pocket) {
        lemma_exterior_air_has_source(blocks, pocket);
        let face = choose|face: int|
            0 <= face < 6 && exterior_air(blocks, #[trigger] neighbor_cell(pocket, face));
        lemma_exterior_air_has_source(blocks, neighbor_cell(pocket, face));
    }
}

/// No face that looks at sealed air is in the mesh: if the cell behind face
/// `face` of cell `c` lies in the chunk and is not exterior air, the mesh
/// does not hold that face.
pub proof fn lemma_face_toward_sealed_air_culled(
    coord: ChunkCoord,
    blocks: Seq<BlockType>,
    grids: Map<ChunkCoord, Seq<BlockType>>,
    c: Cell,
    face: int,
)
    requires
        cell_in_chunk(c),
        0 <= face < 6,
        cell_in_chunk(neighbor_cell(c, face)),
        !exterior_air(blocks, neighbor_cell(c, face)),
    ensures
        !mesh_faces(coord, blocks, grids).contains(slot_instance(coord, blocks, slot_of(c, face))),
{
    lemma_index_cell_roundtrip(c);
    let slot = slot_of(c, face);
    assert(slot / 6 == index_of(c) && slot % 6 == face);
    lemma_mesh_holds_slot(coord, blocks, grids, slot);
}

/// A one-block air pocket enclosed by solid blocks leaves no face in the
/// mesh: for each of its six neighbours, the face that looks at the pocket
/// is missing.
pub proof fn lemma_pocket_has_no_faces(
    coord: ChunkCoord,
    blocks: Seq<BlockType>,
    grids: Map<ChunkCoord, Seq<BlockType>>,
    pocket: Cell,
    face: int,
)
    requires
        cell_in_chunk(pocket),
        !cell_on_boundary(pocket),
        forall|f: int| 0 <= f < 6 ==> blocks[index_of(#[trigger] neighbor_cell(pocket, f))].solid(),
        0 <= face < 6,
    ensures
        !mesh_faces(coord, blocks, grids).contains(
            slot_instance(coord, blocks, slot_of(neighbor_cell(pocket, face), opposite_face(face))),
        ),
{
    lemma_enclosed_cell_is_sealed(blocks, pocket);
    let n = neighbor_cell(pocket, face);
    assert(neighbor_cell(n, opposite_face(face)) == pocket);
    lemma_face_toward_sealed_air_culled(coord, blocks, grids, n, opposite_face(face));
}

/// The cells that the fill has marked so far, and the queue of all cells it
/// has ever marked: only exterior air is marked, and each marked cell stands
/// in the queue once.
spec fn fill_state(blocks: Seq<BlockType>, visible: Seq<bool>, queue: Seq<usize>) -> bool {
    &&& blocks.len() == 4096
    &&& visible.len() == 4096
    &&& queue.no_duplicates()
    &&& forall|k: int| 0 <= k < queue.len() ==> #[trigger] queue[k] < 4096 && visible[queue[k] as int]
    &&& forall|i: int| 0 <= i < 4096 && #[trigger] visible[i] ==> queue.contains(i as usize)
    &&& forall|i: int|
        0 <= i < 4096 && #[trigger] visible[i] ==> exterior_air(blocks, cell_at(i))
}

/// Every air neighbour of cell `i` inside the chunk is marked.
spec fn spread_done(blocks: Seq<BlockType>, visible: Seq<bool>, i: int) -> bool {
    forall|face: int|
        0 <= face < 6 && is_air_cell(blocks, #[trigger] neighbor_cell(cell_at(i), face))
            ==> visible[index_of(neighbor_cell(cell_at(i), face))]
}

/// Every air cell on the boundary with an index below `limit` is marked.
spec fn boundary_marked(blocks: Seq<BlockType>, visible: Seq<bool>, limit: int) -> bool {
    forall|i: int|
        0 <= i < limit && cell_on_boundary(#[trigger] cell_at(i)) && !blocks[i].solid()
            ==> visible[i]
}

/// A list of distinct cell indices has at most as many entries as a chunk has cells.
proof fn lemma_distinct_indices_bounded(queue: Seq<usize>)
    requires
        queue.no_duplicates(),
        forall|k: int| 0 <= k < queue.len() ==> #[trigger] queue[k] < 4096,
    ensures
        queue.len() <= 4096,
{
    let ints = Seq::new(queue.len(), |k: int| queue[k] as int);
    assert(ints.no_duplicates());
    ints.unique_seq_to_set();
    vstd::set_lib::lemma_int_range(0, 4096);
    assert(ints.to_set().subset_of(vstd::set_lib::set_int_range(0, 4096))) by {
        assert forall|v: int| ints.to_set().contains(v) implies vstd::set_lib::set_int_range(
            0,
            4096,
        ).contains(v) by {
            assert(ints.contains(v));
            let k = choose|k: int| 0 <= k < ints.len() && ints[k] == v;
            assert(queue[k] < 4096);
        }
    }
    vstd::set_lib::lemma_len_subset(ints.to_set(), vstd::set_lib::set_int_range(0, 4096));
}

/// A set of marked cells that holds all boundary air and is closed under
/// stepping to air neighbours holds every cell of every air path.
proof fn lemma_closed_marks_cover_path(
    blocks: Seq<BlockType>,
    visible: Seq<bool>,
    path: Seq<Cell>,
    k: int,
)
    requires
        blocks.len() == 4096,
        visible.len() == 4096,
        boundary_marked(blocks, visible, 4096),
        forall|i: int| 0 <= i < 4096 && #[trigger] visible[i] ==> spread_done(blocks, visible, i),
        is_air_path(blocks, path),
        0 <= k < path.len(),
    ensures
        visible[index_of(path[k])],
    decreases k,
{
    let c = path[k];
    assert(is_air_cell(blocks, c));
    lemma_index_cell_roundtrip(c);
    if k == 0 {
        assert(cell_on_boundary(cell_at(index_of(c))));
    } else {
        let prev = path[k - 1];
        lemma_closed_marks_cover_path(blocks, visible, path, k - 1);
        assert(is_air_cell(blocks, prev));
        lemma_index_cell_roundtrip(prev);
        assert(cells_adjacent(path[k - 1], path[k - 1 + 1]));
        lemma_adjacent_is_neighbor(prev, c);
        let face = choose|face: int| 0 <= face < 6 && c == #[trigger] neighbor_cell(prev, face);
        assert(spread_done(blocks, visible, index_of(prev)));
        assert(is_air_cell(blocks, neighbor_cell(cell_at(index_of(prev)), face)));
    }
}

/// The index of the cell that face `face` of cell `index` looks at, if that
/// cell lies in the same chunk.
pub fn neighbor_index(index: usize, face: usize) -> (neighbor: Option<usize>)
    requires
        index < 4096,
        face < 6,
    ensures
        match neighbor {
            Some(n) => n < 4096 && cell_in_chunk(neighbor_cell(cell_at(index as int), face as int))
                && n == index_of(neighbor_cell(cell_at(index as int), face as int)),
            None => !cell_in_chunk(neighbor_cell(cell_at(index as int), face as int)),
        },
{
    let x = index / 256;
    let y = (index / 16) % 16;
    let z = index % 16;
    if face == 0 {
        if z < 15 {
            Some(index + 1)
        } else {
            None
        }
    } else if face == 1 {
        if z > 0 {
            Some(index - 1)
        } else {
            None
        }
    } else if face == 2 {
        if x > 0 {
            Some(index - 256)
        } else {
            None
        }
    } else if face == 3 {
        if x < 15 {
            Some(index + 256)
        } else {
            None
        }
    } else if face == 4 {
        if y < 15 {
            Some(index + 16)
        } else {
            None
        }
    } else {
        if y > 0 {
            Some(index - 16)
        } else {
            None
        }
    }
}

/// Marks one more exterior air cell and queues it.
fn mark_cell(
    blocks: &[BlockType; 4096],
    visible: &mut Vec<bool>,
    queue: &mut Vec<usize>,
    index: usize,
)
    requires
        fill_state(blocks@, old(visible)@, old(queue)@),
        index < 4096,
        !old(visible)@[index as int],
        exterior_air(blocks@, cell_at(index as int)),
    ensures
        fill_state(blocks@, final(visible)@, final(queue)@),
        final(visible)@ == old(visible)@.update(index as int, true),
        final(queue)@ == old(queue)@.push(index),
{
    let ghost before = queue@;
    visible.set(index, true);
    queue.push(index);
    proof {
        assert forall|i: int| 0 <= i < 4096 && #[trigger] visible@[i] implies queue@.contains(
            i as usize,
        ) by {
            if i == index {
                assert(queue@[before.len() as int] == index);
            } else {
                assert(before.contains(i as usize));
                let k = choose|k: int| 0 <= k < before.len() && before[k] == i as usize;
                assert(queue@[k] == i as usize);
            }
        }
    }
}

/// Finds the air of a chunk that is connected to the chunk's boundary.
///
/// Every air cell on one of the six outer faces is marked, and the marks
/// spread through air to cells that share a face. Entry `i` of the result is
/// `true` exactly for exterior air; air pockets sealed by solid blocks stay
/// unmarked.
pub fn flood_fill(blocks: &[BlockType; 4096]) -> (visible: Vec<bool>)
    ensures
        is_exterior_map(blocks@, visible@),
{
    let mut visible: Vec<bool> = Vec::new();
    let mut fill: usize = 0;
    while fill < 4096
        invariant
            fill <= 4096,
            visible@.len() == fill,
            forall|i: int| 0 <= i < fill ==> !#[trigger] visible@[i],
        decreases 4096 - fill,
    {
        visible.push(false);
        fill += 1;
    }
    let mut queue: Vec<usize> = Vec::new();
    let mut index: usize = 0;
    while index < 4096
        invariant
            index <= 4096,
            fill_state(blocks@, visible@, queue@),
            boundary_marked(blocks@, visible@, index as int),
            forall|i: int| index <= i < 4096 ==> !#[trigger] visible@[i],
        decreases 4096 - index,
    {
        let x = index / 256;
        let y = (index / 16) % 16;
        let z = index % 16;
        let is_boundary = x == 0 || y == 0 || z == 0 || x == 15 || y == 15 || z == 15;
        let ghost marks = visible@;
        if is_boundary && !blocks[index].is_solid() {
            proof {
                lemma_cell_index_roundtrip(index as int);
                lemma_boundary_air_is_exterior(blocks@, cell_at(index as int));
            }
            mark_cell(blocks, &mut visible, &mut queue, index);
        }
        index += 1;
    }
    let mut head: usize = 0;
    while head < queue.len()
        invariant
            head <= queue@.len(),
            fill_state(blocks@, visible@, queue@),
            boundary_marked(blocks@, visible@, 4096),
            forall|k: int| 0 <= k < head ==> spread_done(blocks@, visible@, #[trigger] queue@[k] as int),
        decreases 4096 - head,
    {
        proof {
            lemma_distinct_indices_bounded(queue@);
        }
        let current = queue[head];
        proof {
            lemma_cell_index_roundtrip(current as int);
        }
        let mut face: usize = 0;
        while face < 6
            invariant
                face <= 6,
                head < queue@.len(),
                current == queue@[head as int],
                current < 4096,
                fill_state(blocks@, visible@, queue@),
                boundary_marked(blocks@, visible@, 4096),
                forall|k: int|
                    0 <= k < head ==> spread_done(blocks@, visible@, #[trigger] queue@[k] as int),
                forall|f: int|
                    0 <= f < face && is_air_cell(
                        blocks@,
                        #[trigger] neighbor_cell(cell_at(current as int), f),
                    ) ==> visible@[index_of(neighbor_cell(cell_at(current as int), f))],
            decreases 6 - face,
        {
            let ghost marks = visible@;
            let ghost queued = queue@;
            match neighbor_index(current, face) {
                Some(n) => {
                    if !blocks[n].is_solid() && !visible[n] {
                        proof {
                            let from = cell_at(current as int);
                            let to = neighbor_cell(from, face as int);
                            lemma_index_cell_roundtrip(to);
                            assert(cells_adjacent(from, to));
                            assert(exterior_air(blocks@, from));
                            lemma_exterior_air_spreads(blocks@, from, to);
                        }
                        mark_cell(blocks, &mut visible, &mut queue, n);
                    }
                },
                None => {},
            }
            proof {
                assert forall|k: int| 0 <= k < head implies spread_done(
                    blocks@,
                    visible@,
                    #[trigger] queue@[k] as int,
                ) by {
                    assert(queue@[k] == queued[k]);
                    assert(spread_done(blocks@, marks, queued[k] as int));
                }
            }
            face += 1;
        }
        proof {
            assert(spread_done(blocks@, visible@, current as int));
        }
        head += 1;
    }
    proof {
        assert forall|i: int| 0 <= i < 4096 && #[trigger] visible@[i] implies spread_done(
            blocks@,
            visible@,
            i,
        ) by {
            assert(queue@.contains(i as usize));
            let k = choose|k: int| 0 <= k < queue@.len() && queue@[k] == i as usize;
            assert(spread_done(blocks@, visible@, queue@[k] as int));
        }
        assert forall|i: int| 0 <= i < 4096 implies #[trigger] visible@[i] == exterior_air(
            blocks@,
            cell_at(i),
        ) by {
            if exterior_air(blocks@, cell_at(i)) {
                let path = choose|path: Seq<Cell>|
                    is_air_path(blocks@, path) && #[trigger] path.last() == cell_at(i);
                lemma_closed_marks_cover_path(blocks@, visible@, path, path.len() - 1);
                lemma_cell_index_roundtrip(i);
            }
        }
    }
    visible
}

} // verus!
