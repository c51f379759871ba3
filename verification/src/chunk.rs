//! One chunk: a cube of 16 x 16 x 16 blocks with the list of faces to draw.

use vstd::prelude::*;
use crate::block::BlockType;
use crate::chunk_manager::ChunkManager;
use crate::coords::{cell_index, cell_x, cell_y, cell_z, flat_index, BlockPos, ChunkCoord};
use crate::mesh::{
    cell_at, cell_in_chunk, face_emitted, faces_before, flood_fill, is_exterior_map, mesh_faces,
    neighbor_cell, neighbor_index, neighbor_open, world_block, BlockFaceInstance, Cell,
};
use crate::terrain::{column_block, height_at, terrain_block, terrain_grid};

verus! {

/// A chunk of the world: its place on the chunk grid, its blocks in flat cell
/// order, and the face instances of its last meshing.
pub struct Chunk {
    coord: ChunkCoord,
    blocks: [BlockType; 4096],
    block_face_instances: Vec<BlockFaceInstance>,
}

/// What a chunk holds, as mathematical values.
pub struct ChunkView {
    pub coord: ChunkCoord,
    pub blocks: Seq<BlockType>,
    pub faces: Seq<BlockFaceInstance>,
}

impl ChunkView {
    /// Whether the faces are the mesh of the blocks against some world: the
    /// world that was loaded when the chunk was last meshed.
    pub open spec fn is_meshed(self) -> bool {
        exists|grids: Map<ChunkCoord, Seq<BlockType>>|
            self.faces == #[trigger] mesh_faces(self.coord, self.blocks, grids)
    }
}

impl View for Chunk {
    type V = ChunkView;

    closed spec fn view(&self) -> ChunkView {
        ChunkView {
            coord: self.coord,
            blocks: self.blocks@,
            faces: self.block_face_instances@,
        }
    }
}

/// Terrain laid over an existing block grid: every cell where the terrain is
/// solid takes the terrain's block, every other cell keeps what it had.
pub open spec fn terrain_overlay(coord: ChunkCoord, blocks: Seq<BlockType>) -> Seq<BlockType> {
    Seq::new(
        4096,
        |i: int|
            if terrain_block(coord, cell_x(i), cell_y(i), cell_z(i)).solid() {
                terrain_block(coord, cell_x(i), cell_y(i), cell_z(i))
            } else {
                blocks[i]
            },
    )
}

/// The step from a cell to the cell that its face `face` looks at.
fn face_offset(face: usize) -> (step: (i64, i64, i64))
    requires
        face < 6,
    ensures
        ({
            let from = Cell { x: 0, y: 0, z: 0 };
            let to = neighbor_cell(from, face as int);
            step.0 == to.x && step.1 == to.y && step.2 == to.z
        }),
{
    if face == 0 {
        (0, 0, 1)
    } else if face == 1 {
        (0, 0, -1)
    } else if face == 2 {
        (-1, 0, 0)
    } else if face == 3 {
        (1, 0, 0)
    } else if face == 4 {
        (0, 1, 0)
    } else {
        (0, -1, 0)
    }
}

/// Whether a solid block of a loaded chunk stands at `pos`.
pub open spec fn blocks_sight(grids: Map<ChunkCoord, Seq<BlockType>>, pos: BlockPos) -> bool {
    match world_block(grids, pos.x as int, pos.y as int, pos.z as int) {
        Some(block) => block.solid(),
        None => false,
    }
}

/// Whether none of the positions `samples` holds a solid block.
pub open spec fn sight_clear(grids: Map<ChunkCoord, Seq<BlockType>>, samples: Seq<BlockPos>) -> bool {
    forall|i: int| 0 <= i < samples.len() ==> !blocks_sight(grids, #[trigger] samples[i])
}

/// A grid of 4096 air blocks.
pub open spec fn air_grid() -> Seq<BlockType> {
    Seq::new(4096, |i: int| BlockType::Air)
}

impl Chunk {
    /// A chunk at `coord` that holds only air and no faces.
    pub fn empty(coord: ChunkCoord) -> (chunk: Chunk)
        ensures
            chunk@.coord == coord,
            chunk@.blocks == air_grid(),
            chunk@.faces == Seq::<BlockFaceInstance>::empty(),
    {
        let blocks = [BlockType::Air;4096];
        assert(blocks@ =~= air_grid());
        Chunk { coord, blocks, block_face_instances: Vec::new() }
    }

    /// The generated chunk at `coord`: its blocks are the terrain of that
    /// coordinate and nothing else, so generating a coordinate again gives
    /// the same grid. It has no faces until it is meshed.
    pub fn new(coord: ChunkCoord) -> (chunk: Chunk)
        ensures
            chunk@.coord == coord,
            chunk@.blocks == terrain_grid(coord),
            chunk@.faces == Seq::<BlockFaceInstance>::empty(),
    {
        let mut chunk = Chunk::empty(coord);
        chunk.generate_terrain();
        assert(chunk@.blocks =~= terrain_grid(coord));
        chunk
    }

    /// Lays the terrain of the chunk's coordinate over its blocks. Cells below
    /// the surface take their terrain block; all other cells, and all cells
    /// of a chunk outside the ground layer, stay as they are.
    pub fn generate_terrain(&mut self)
        ensures
            final(self)@.coord == old(self)@.coord,
            final(self)@.faces == old(self)@.faces,
            final(self)@.blocks == terrain_overlay(old(self)@.coord, old(self)@.blocks),
    {
        let ghost before = self.blocks@;
        let ghost goal = terrain_overlay(self.coord, before);
        if self.coord.y != 0 {
            assert(self.blocks@ =~= goal);
            return ;
        }
        let coord = self.coord;
        let origin = coord.origin();
        let mut x: usize = 0;
        while x < 16
            invariant
                x <= 16,
                coord == self.coord,
                coord.y == 0,
                origin.x == coord.origin_x(),
                origin.z == coord.origin_z(),
                self.block_face_instances == old(self).block_face_instances,
                self.blocks@.len() == 4096,
                goal == terrain_overlay(coord, before),
                forall|i: int|
                    0 <= i < 4096 ==> #[trigger] self.blocks@[i] == if cell_x(i) < x {
                        goal[i]
                    } else {
                        before[i]
                    },
            decreases 16 - x,
        {
            let mut z: usize = 0;
            while z < 16
                invariant
                    x < 16,
                    z <= 16,
                    coord == self.coord,
                    coord.y == 0,
                    origin.x == coord.origin_x(),
                    origin.z == coord.origin_z(),
                    self.block_face_instances == old(self).block_face_instances,
                    self.blocks@.len() == 4096,
                    goal == terrain_overlay(coord, before),
                    forall|i: int|
                        0 <= i < 4096 ==> #[trigger] self.blocks@[i] == if cell_x(i) < x || (cell_x(
                            i,
                        ) == x && cell_z(i) < z) {
                            goal[i]
                        } else {
                            before[i]
                        },
                decreases 16 - z,
            {
                let height = height_at(origin.x + x as i64, origin.z + z as i64);
                let mut y: usize = 0;
                while (y as i64) < height
                    invariant
                        x < 16,
                        z < 16,
                        y <= height <= 4,
                        coord == self.coord,
                        coord.y == 0,
                        height == crate::terrain::terrain_height(
                            (coord.origin_x() + x) as i64,
                            (coord.origin_z() + z) as i64,
                        ),
                        self.block_face_instances == old(self).block_face_instances,
                        self.blocks@.len() == 4096,
                        goal == terrain_overlay(coord, before),
                        forall|i: int|
                            0 <= i < 4096 ==> #[trigger] self.blocks@[i] == if cell_x(i) < x || (
                            cell_x(i) == x && cell_z(i) < z) || (cell_x(i) == x && cell_z(i) == z
                                && cell_y(i) < y) {
                                goal[i]
                            } else {
                                before[i]
                            },
                    decreases height - y,
                {
                    let index = flat_index(x, y, z);
                    let block = column_block(y as i64, height);
                    self.blocks[index] = block;
                    y += 1;
                }
                z += 1;
            }
            x += 1;
        }
        assert(self.blocks@ =~= goal);
    }

    /// Rebuilds the face list from the chunk's blocks and the world around
    /// it, as `mesh` computes it; nothing of the old list is kept.
    pub fn generate_mesh(&mut self, manager: &ChunkManager)
        requires
            manager.wf(),
        ensures
            final(self)@.coord == old(self)@.coord,
            final(self)@.blocks == old(self)@.blocks,
            final(self)@.faces == mesh_faces(
                old(self)@.coord,
                old(self)@.blocks,
                manager@.grids(),
            ),
    {
        let faces = self.mesh(manager);
        self.block_face_instances = faces;
    }

    /// Replaces the face list by one that was computed for this chunk.
    pub(crate) fn install_faces(&mut self, faces: Vec<BlockFaceInstance>)
        ensures
            final(self)@.coord == old(self)@.coord,
            final(self)@.blocks == old(self)@.blocks,
            final(self)@.faces == faces@,
    {
        self.block_face_instances = faces;
    }

    /// Computes the faces to draw from the chunk's blocks and the world
    /// around it.
    ///
    /// A face of a solid block is listed when the cell it looks at is
    /// exterior air of this chunk or, across the chunk's boundary, a block
    /// that `manager` reports as not solid or does not know. The list runs
    /// through the cells in flat order and through the six faces of each in
    /// direction order.
    pub fn mesh(&self, manager: &ChunkManager) -> (faces: Vec<BlockFaceInstance>)
        requires
            manager.wf(),
        ensures
            faces@ == mesh_faces(self@.coord, self@.blocks, manager@.grids()),
    {
        let visible = flood_fill(&self.blocks);
        let coord = self.coord;
        let ghost blocks = self.blocks@;
        let ghost grids = manager@.grids();
        let mut faces: Vec<BlockFaceInstance> = Vec::new();
        let mut index: usize = 0;
        while index < 4096
            invariant
                index <= 4096,
                manager.wf(),
                coord == self.coord,
                blocks == self.blocks@,
                grids == manager@.grids(),
                is_exterior_map(blocks, visible@),
                faces@ == faces_before(coord, blocks, grids, index * 6),
            decreases 4096 - index,
        {
            let block = self.blocks[index];
            let x = index / 256;
            let y = (index / 16) % 16;
            let z = index % 16;
            let mut face: usize = 0;
            while face < 6
                invariant
                    face <= 6,
                    index < 4096,
                    manager.wf(),
                    coord == self.coord,
                    blocks == self.blocks@,
                    block == blocks[index as int],
                    x == cell_x(index as int),
                    y == cell_y(index as int),
                    z == cell_z(index as int),
                    grids == manager@.grids(),
                    is_exterior_map(blocks, visible@),
                    faces@ == faces_before(coord, blocks, grids, index * 6 + face),
                decreases 6 - face,
            {
                let ghost slot = index * 6 + face;
                assert(slot / 6 == index && slot % 6 == face);
                let open = block.is_solid() && self.borders_open(manager, &visible, index, face);
                assert(open == face_emitted(coord, blocks, grids, slot as int));
                if open {
                    faces.push(
                        BlockFaceInstance {
                            position: coord.block_pos(x, y, z),
                            face: face as u32,
                            block_type: block.type_id(),
                        },
                    );
                }
                face += 1;
                assert(faces@ == faces_before(coord, blocks, grids, slot + 1));
            }
            index += 1;
        }
        faces
    }

    /// Whether the block across face `face` of cell `index`, which lies in a
    /// neighbouring chunk, lets one see through: it is not solid, or not known.
    fn outside_open(&self, manager: &ChunkManager, index: usize, face: usize) -> (open: bool)
        requires
            manager.wf(),
            index < 4096,
            face < 6,
            !cell_in_chunk(neighbor_cell(cell_at(index as int), face as int)),
        ensures
            open == neighbor_open(
                self@.coord,
                self@.blocks,
                manager@.grids(),
                cell_at(index as int),
                face as int,
            ),
    {
        let origin = self.coord.origin();
        let (dx, dy, dz) = face_offset(face);
        let pos = BlockPos {
            x: origin.x + (index / 256) as i64 + dx,
            y: origin.y + ((index / 16) % 16) as i64 + dy,
            z: origin.z + (index % 16) as i64 + dz,
        };
        match manager.block_at(pos) {
            Some(other) => !other.is_solid(),
            None => true,
        }
    }

    /// Whether face `face` of cell `index` borders something one can see through.
    fn borders_open(
        &self,
        manager: &ChunkManager,
        visible: &Vec<bool>,
        index: usize,
        face: usize,
    ) -> (open: bool)
        requires
            manager.wf(),
            index < 4096,
            face < 6,
            is_exterior_map(self@.blocks, visible@),
        ensures
            open == neighbor_open(
                self@.coord,
                self@.blocks,
                manager@.grids(),
                cell_at(index as int),
                face as int,
            ),
    {
        match neighbor_index(index, face) {
            Some(n) => {
                proof {
                    crate::mesh::lemma_index_cell_roundtrip(
                        neighbor_cell(cell_at(index as int), face as int),
                    );
                }
                visible[n]
            },
            None => self.outside_open(manager, index, face),
        }
    }

    /// Tells whether the line of sight from the camera to a face is clear.
    ///
    /// `samples` are the block positions that the line passes through,
    /// between the camera and the face. The sight is clear when none of them
    /// holds a solid block; positions in chunks that are not loaded do not
    /// block it.
    pub fn is_face_visible_from_camera(samples: &Vec<BlockPos>, manager: &ChunkManager) -> (clear: bool)
        requires
            manager.wf(),
        ensures
            clear == sight_clear(manager@.grids(), samples@),
    {
        let mut i: usize = 0;
        while i < samples.len()
            invariant
                i <= samples@.len(),
                manager.wf(),
                forall|j: int| 0 <= j < i ==> !blocks_sight(manager@.grids(), #[trigger] samples@[j]),
            decreases samples@.len() - i,
        {
            match manager.block_at(samples[i]) {
                Some(block) => {
                    if block.is_solid() {
                        assert(blocks_sight(manager@.grids(), samples@[i as int]));
                        return false;
                    }
                },
                None => {},
            }
            i += 1;
        }
        true
    }

    /// The chunk's place on the chunk grid.
    pub fn coord(&self) -> (coord: ChunkCoord)
        ensures
            coord == self@.coord,
    {
        self.coord
    }

    /// The block of cell `(x, y, z)`.
    pub fn block(&self, x: usize, y: usize, z: usize) -> (block: BlockType)
        requires
            x < 16,
            y < 16,
            z < 16,
        ensures
            block == self@.blocks[cell_index(x as int, y as int, z as int)],
    {
        self.blocks[flat_index(x, y, z)]
    }

    /// Replaces the block of cell `(x, y, z)`. The face list is left as it
    /// was: it describes the blocks of the last meshing.
    pub fn set_block(&mut self, x: usize, y: usize, z: usize, block: BlockType)
        requires
            x < 16,
            y < 16,
            z < 16,
        ensures
            final(self)@.coord == old(self)@.coord,
            final(self)@.faces == old(self)@.faces,
            final(self)@.blocks == old(self)@.blocks.update(
                cell_index(x as int, y as int, z as int),
                block,
            ),
    {
        let index = flat_index(x, y, z);
        self.blocks[index] = block;
    }

    /// The face instances of the last meshing.
    pub fn faces(&self) -> (faces: &Vec<BlockFaceInstance>)
        ensures
            faces@ == self@.faces,
    {
        &self.block_face_instances
    }
}

} // verus!
