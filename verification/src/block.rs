//! Block kinds and the face/texture tables that go with them.

use vstd::prelude::*;

verus! {

/// The material of a single block cell.
#[derive(Debug, Clone, Copy, PartialEq, Eq, Structural)]
pub enum BlockType {
    Air,
    Grass,
    Dirt,
    Stone,
}

impl BlockType {
    /// Whether a block of this kind fills its cell.
    pub open spec fn solid(&self) -> bool {
        *self != BlockType::Air
    }

    /// A block is solid exactly when it is not air.
    #[verifier::when_used_as_spec(solid)]
    pub fn is_solid(&self) -> (solid: bool)
        ensures
            solid == self.solid(),
    {
        !matches!(self, BlockType::Air)
    }

    /// The id under which a face instance records this kind: grass 0, dirt 1,
    /// stone 2. Air has no faces; its id 255 never reaches a mesh.
    pub open spec fn kind_id(&self) -> u32 {
        match *self {
            BlockType::Grass => 0,
            BlockType::Dirt => 1,
            BlockType::Stone => 2,
            BlockType::Air => 255,
        }
    }

    /// The id of this kind in face instances.
    #[verifier::when_used_as_spec(kind_id)]
    pub fn type_id(&self) -> (id: u32)
        ensures
            id == self.kind_id(),
            self.solid() <==> id <= 2,
    {
        match *self {
            BlockType::Grass => 0,
            BlockType::Dirt => 1,
            BlockType::Stone => 2,
            BlockType::Air => 255,
        }
    }

    /// The kind that instance id `id` stands for, if it stands for one.
    pub fn from_type_id(id: u32) -> (kind: Option<BlockType>)
        ensures
            match kind {
                Some(block) => block.kind_id() == id,
                None => forall|block: BlockType| block.kind_id() != id,
            },
    {
        if id == 0 {
            Some(BlockType::Grass)
        } else if id == 1 {
            Some(BlockType::Dirt)
        } else if id == 2 {
            Some(BlockType::Stone)
        } else if id == 255 {
            Some(BlockType::Air)
        } else {
            None
        }
    }

    /// The texture that face `face` of a block of this kind shows: 0 grass
    /// top, 1 grass side, 2 dirt, 3 stone. Grass shows its top texture on the
    /// upward face (4), dirt on the downward face (5) and its side texture on
    /// the four others; dirt and stone look the same from every side.
    pub open spec fn face_texture(&self, face: int) -> u32 {
        match *self {
            BlockType::Grass => if face == 4 {
                0
            } else if face == 5 {
                2
            } else {
                1
            },
            BlockType::Dirt => 2,
            BlockType::Stone => 3,
            BlockType::Air => 0,
        }
    }

    /// Looks up the texture of one face of a block of this kind.
    pub fn texture_index(&self, face_idx: usize) -> (texture: u32)
        ensures
            texture == self.face_texture(face_idx as int),
            texture <= 3,
    {
        match *self {
            BlockType::Grass => if face_idx == 4 {
                0
            } else if face_idx == 5 {
                2
            } else {
                1
            },
            BlockType::Dirt => 2,
            BlockType::Stone => 3,
            BlockType::Air => 0,
        }
    }
}

} // verus!
