//! Storage engine for a voxel world: location codes, a sparse block octree, 64³ chunks, the
//! binary chunk encoding and the payload handling of region files.

use vstd::prelude::*;

pub mod io;
pub mod module;
/// An octree implementation for space-efficient map data.
pub mod octree;
pub mod region;
pub mod sw_image;

use octree::{BlockInfo, BlockOctree, LocationCode, OctreeNode, SubCube};

verus! {

/// The identity of a block definition: a small integer that the caller assigns to each
/// definition once, when definitions are loaded, together with the definition's homogeneity.
/// Two handles denote the same block when they are equal.
#[derive(Clone, Copy, Debug, PartialEq, Eq, Structural)]
pub struct BlockHandle {
    pub id: u32,
    pub homogeneous: bool,
}

/// What a chunk holds at each place: a block, or `None` for empty space (air).
#[derive(Clone, Copy, Debug)]
pub struct OctreeBlock(pub Option<BlockHandle>);

impl PartialEq for OctreeBlock {
    fn eq(&self, other: &OctreeBlock) -> (r: bool) {
        match (self.0, other.0) {
            (None, None) => true,
            (Some(s), Some(o)) => s == o,
            _ => false,
        }
    }
}

impl vstd::std_specs::cmp::PartialEqSpecImpl for OctreeBlock {
    open spec fn obeys_eq_spec() -> bool {
        true
    }

    open spec fn eq_spec(&self, other: &OctreeBlock) -> bool {
        self.0 == other.0
    }
}

impl Eq for OctreeBlock {

}

/// `==` on the blocks of a chunk is equality of the values.
pub proof fn lemma_octree_block_eq()
    ensures
        vstd::laws_eq::obeys_concrete_eq::<OctreeBlock>(),
{
    reveal(vstd::laws_eq::obeys_concrete_eq);
}

/// The homogeneity policy of chunks: a block is homogeneous as its definition says; empty
/// space always is.
#[derive(Clone, Copy, Debug)]
pub struct ChunkBlockInfo;

impl BlockInfo<OctreeBlock> for ChunkBlockInfo {
    open spec fn homogeneous(&self, block: OctreeBlock) -> bool {
        match block.0 {
            Some(b) => b.homogeneous,
            None => true,
        }
    }

    fn is_homogeneous(&self, block: &OctreeBlock) -> (r: bool) {
        match block.0 {
            Some(b) => b.homogeneous,
            None => true,
        }
    }
}

/// The length of the side of a chunk.
pub const CHUNK_SIDE_LENGTH: u8 = 64;

/// The code of the cube of side 1 at `(x, y, z)` in a cube of side `2^n`: one level per bit,
/// the most significant bits first.
pub open spec fn interleave(x: int, y: int, z: int, n: nat) -> int
    decreases n,
{
    if n == 0 {
        1
    } else {
        8 * interleave(x / 2, y / 2, z / 2, (n - 1) as nat) + 4 * (y % 2) + 2 * (z % 2) + x % 2
    }
}

/// A coordinate within a chunk, that is, relative to the chunk.
#[derive(Clone, Copy, PartialEq, Eq, Structural)]
pub struct ChunkRelativeCoord {
    x: u8,
    y: u8,
    z: u8,
}

impl ChunkRelativeCoord {
    #[verifier::type_invariant]
    spec fn in_chunk(self) -> bool {
        self.x < 64 && self.y < 64 && self.z < 64
    }

    /// The x coordinate.
    pub closed spec fn sx(self) -> u8 {
        self.x
    }

    /// The y coordinate.
    pub closed spec fn sy(self) -> u8 {
        self.y
    }

    /// The z coordinate.
    pub closed spec fn sz(self) -> u8 {
        self.z
    }

    /// The coordinate `(x, y, z)`; each axis must be below `CHUNK_SIDE_LENGTH`.
    pub fn new(x: u8, y: u8, z: u8) -> (r: ChunkRelativeCoord)
        requires
            x < 64 && y < 64 && z < 64,
        ensures
            r.sx() == x && r.sy() == y && r.sz() == z,
    {
        ChunkRelativeCoord { x, y, z }
    }

    /// The code of the unit cube at this coordinate, in a chunk of six levels.
    pub fn to_location_code(&self) -> (r: LocationCode)
        ensures
            r.value() == interleave(self.sx() as int, self.sy() as int, self.sz() as int, 6),
    {
        proof {
            use_type_invariant(self);
        }
        let mut code = LocationCode::root();
        let mut idx: u8 = 0;
        assert((1u32 << 0u32) << 1u32 == 2u32) by (bit_vector);
        // The bits of each axis above the level being visited.
        let mut hx: u8 = 0;
        let mut hy: u8 = 0;
        let mut hz: u8 = 0;
        let (x0, y0, z0) = (self.x, self.y, self.z);
        assert(x0 >> 6u8 == 0 && y0 >> 6u8 == 0 && z0 >> 6u8 == 0) by (bit_vector)
            requires
                x0 < 64u8 && y0 < 64u8 && z0 < 64u8,
        ;
        while idx < 6
            invariant
                0 <= idx <= 6,
                self.x < 64 && self.y < 64 && self.z < 64,
                hx == self.x >> ((6 - idx) as u8),
                hy == self.y >> ((6 - idx) as u8),
                hz == self.z >> ((6 - idx) as u8),
                code.value() == interleave(hx as int, hy as int, hz as int, idx as nat),
                code.value() < 1u32 << ((3 * idx) as u32) << 1u32,
            decreases 6 - idx,
        {
            let shift: u8 = 5 - idx;
            let x = self.x;
            let y = self.y;
            let z = self.z;
            let xbit = (x >> shift) & 1;
            let ybit = (y >> shift) & 1;
            let zbit = (z >> shift) & 1;
            assert(xbit + 2 * (x >> (shift + 1)) == x >> shift && xbit < 2) by (bit_vector)
                requires
                    xbit == (x >> shift) & 1,
                    shift < 6,
            ;
            assert(ybit + 2 * (y >> (shift + 1)) == y >> shift && ybit < 2) by (bit_vector)
                requires
                    ybit == (y >> shift) & 1,
                    shift < 6,
            ;
            assert(zbit + 2 * (z >> (shift + 1)) == z >> shift && zbit < 2) by (bit_vector)
                requires
                    zbit == (z >> shift) & 1,
                    shift < 6,
            ;
            let sub_cube = SubCube::from_xyz(xbit, ybit, zbit).unwrap();
            assert(code.value() < 0x2000_0000) by {
                assert(1u32 << ((3 * idx) as u32) << 1u32 <= 0x1000_0000u32) by (bit_vector)
                    requires
                        idx < 6,
                ;
            }
            let ghost before = code.value();
            code = code.push_sub_cube(sub_cube);
            hx = x >> shift;
            hy = y >> shift;
            hz = z >> shift;
            idx = idx + 1;
            assert(code.value() < 1u32 << ((3 * idx) as u32) << 1u32) by {
                assert(before < 1u32 << ((3 * (idx - 1)) as u32) << 1u32);
                assert(8 * (1u32 << ((3 * (idx - 1)) as u32) << 1u32) == 1u32 << ((3 * idx) as u32)
                    << 1u32) by (bit_vector)
                    requires
                        1 <= idx <= 6,
                ;
            }
        }
        assert(x0 >> 0u8 == x0 && y0 >> 0u8 == y0 && z0 >> 0u8 == z0) by (bit_vector);
        code
    }
}

/// A 3D cube representing a subsection of the world.
///
/// Chunks are 64×64×64 cubes of blocks. (See [`CHUNK_SIDE_LENGTH`].)
#[derive(Clone, Debug)]
pub struct Chunk {
    octree: BlockOctree<OctreeBlock, ChunkBlockInfo>,
}

impl View for Chunk {
    type V = Map<u32, OctreeNode<OctreeBlock>>;

    /// The map of the chunk's octree.
    closed spec fn view(&self) -> Map<u32, OctreeNode<OctreeBlock>> {
        self.octree@
    }
}

impl Chunk {
    /// The chunk's octree satisfies the coverage invariant.
    pub closed spec fn wf(&self) -> bool {
        self.octree.wf()
    }

    /// An empty chunk: air everywhere.
    pub fn new() -> (r: Chunk)
        ensures
            r.wf(),
            r@ == map![1u32 => OctreeNode::<OctreeBlock>::Present(OctreeBlock(None))],
    {
        Chunk { octree: BlockOctree::with_block(ChunkBlockInfo, OctreeBlock(None)) }
    }

    /// The chunk whose octree has the map `map`, which satisfies the coverage invariant.
    pub(crate) fn from_map(map: std::collections::HashMap<u32, OctreeNode<OctreeBlock>>) -> (r:
        Chunk)
        requires
            octree::model::covers(map@),
        ensures
            r.wf(),
            r@ == map@,
    {
        Chunk { octree: BlockOctree::from_map(map, ChunkBlockInfo) }
    }

    /// Put `block` at `chunk_coord`, as the chunk's octree sets the volume of that unit cube.
    pub fn set_block(&mut self, chunk_coord: ChunkRelativeCoord, block: OctreeBlock)
        requires
            old(self).wf(),
        ensures
            final(self).wf(),
            final(self)@ == octree::model::set_volume_outcome(
                ChunkBlockInfo,
                old(self)@,
                interleave(
                    chunk_coord.sx() as int,
                    chunk_coord.sy() as int,
                    chunk_coord.sz() as int,
                    6,
                ) as u32,
                block,
            ).1,
    {
        let location_code = chunk_coord.to_location_code();
        proof {
            lemma_octree_block_eq();
        }
        self.octree.set_volume(location_code, block);
    }

    /// The blocks of the chunk, in no particular order: each present address of its octree
    /// once, with its block.
    pub fn blocks(&self) -> (r: Vec<(LocationCode, OctreeBlock)>)
        requires
            self.wf(),
        ensures
            forall|i: int|
                0 <= i < r@.len() ==> self@.contains_key(#[trigger] r@[i].0.value())
                    && self@[r@[i].0.value()] == OctreeNode::Present(r@[i].1),
            forall|k: u32, t: OctreeBlock|
                self@.contains_key(k) && self@[k] == OctreeNode::Present(t) ==> exists|i: int|
                    0 <= i < r@.len() && (#[trigger] r@[i]).0.value() == k && r@[i].1 == t,
            forall|i: int, j: int|
                0 <= i < r@.len() && 0 <= j < r@.len() && i != j ==> (#[trigger] r@[i]).0.value()
                    != (#[trigger] r@[j]).0.value(),
    {
        self.octree.iter()
    }

    /// The octree that holds the chunk's blocks.
    pub(crate) fn get_octree(&self) -> (r: &BlockOctree<OctreeBlock, ChunkBlockInfo>)
        ensures
            r@ == self@,
            r.wf() == self.wf(),
    {
        &self.octree
    }
}

} // verus!
