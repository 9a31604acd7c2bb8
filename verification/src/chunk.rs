//! A chunk: one cube of the world, its voxels stored in a sparse voxel
//! octree, together with its generation and upload-tracking state.

use vstd::prelude::*;
use crate::svo::{SparseVoxelOctree, set_result, lemma_empty_node_lookup};
use crate::voxel::{VoxelId, ChunkPos, LocalVoxelPos, CHUNK_SIZE, CHUNK_VOLUME};

verus! {

/// The flat row-major index of a local position, x varying fastest.
pub open spec fn field_idx(x: int, y: int, z: int) -> int {
    z * 1024 + y * 32 + x
}

/// What the terrain fill leaves readable at a local point after writing
/// the first `k` entries of an id field in index order over a point that
/// started as `init`: air entries are skipped, solid entries are written
/// at their position, each write acting as one octree store.
pub open spec fn gen_at(
    field: Seq<VoxelId>,
    k: int,
    qx: int,
    qy: int,
    qz: int,
    init: Option<u32>,
) -> Option<u32>
    decreases k,
{
    if k <= 0 {
        init
    } else {
        let km = k - 1;
        let px = km % 32;
        let py = (km / 32) % 32;
        let pz = km / 1024;
        if field[km].0 != 0 {
            set_result(gen_at(field, km, qx, qy, qz, init), qx, qy, qz, px, py, pz, field[km].0)
        } else {
            gen_at(field, km, qx, qy, qz, init)
        }
    }
}

/// Row-major index decomposition: within chunk bounds the flat index
/// determines its coordinates and conversely.
proof fn lemma_field_idx(x: int, y: int, z: int)
    requires
        0 <= x < 32,
        0 <= y < 32,
        0 <= z < 32,
    ensures
        (z * 1024 + y * 32 + x) % 32 == x,
        ((z * 1024 + y * 32 + x) / 32) % 32 == y,
        (z * 1024 + y * 32 + x) / 1024 == z,
        0 <= z * 1024 + y * 32 + x < 32768,
{
    assert((z * 1024 + y * 32 + x) % 32 == x && ((z * 1024 + y * 32 + x) / 32) % 32 == y && (z
        * 1024 + y * 32 + x) / 1024 == z && 0 <= z * 1024 + y * 32 + x < 32768)
        by (nonlinear_arith)
        requires 0 <= x < 32 && 0 <= y < 32 && 0 <= z < 32;
}

/// A point reads back from the fill exactly when its own field entry is
/// solid: writes never spill a recorded voxel into a point that was not
/// written itself.
pub proof fn lemma_gen_some(field: Seq<VoxelId>, k: int, qx: int, qy: int, qz: int)
    requires
        0 <= qx < 32,
        0 <= qy < 32,
        0 <= qz < 32,
        0 <= k <= 32768,
    ensures
        (gen_at(field, k, qx, qy, qz, None) is Some) == (field_idx(qx, qy, qz) < k && field[
            field_idx(qx, qy, qz)].0 != 0),
    decreases k,
{
    lemma_field_idx(qx, qy, qz);
    if k > 0 {
        lemma_gen_some(field, k - 1, qx, qy, qz);
        let km = k - 1;
        let px = km % 32;
        let py = (km / 32) % 32;
        let pz = km / 1024;
        assert(0 <= px < 32 && 0 <= py < 32 && 0 <= pz < 32 && pz * 1024 + py * 32 + px == km)
            by (nonlinear_arith)
            requires 0 <= km < 32768 && px == km % 32 && py == (km / 32) % 32 && pz == km / 1024;
        if qx == px && qy == py && qz == pz {
            assert(field_idx(qx, qy, qz) == km);
        } else {
            assert(field_idx(qx, qy, qz) != km) by {
                lemma_field_idx(px, py, pz);
            }
        }
    }
}

/// A cubic region of the world: its grid position, its voxel storage, and
/// whether it has been generated or edited since the last upload.
#[derive(Debug, Clone)]
pub struct VoxelChunk {
    pub position: ChunkPos,
    pub octree: SparseVoxelOctree,
    pub is_dirty: bool,
    pub is_generated: bool,
}

impl VoxelChunk {
    /// Structural soundness: the octree is well-formed.
    pub open spec fn wf(self) -> bool {
        self.octree.wf()
    }

    /// The stored id at a local position, `None` for air by absence.
    pub open spec fn voxel_at(self, x: int, y: int, z: int) -> Option<u32> {
        self.octree.voxel_at(x, y, z)
    }

    /// A chunk fresh at `position`: empty storage, not yet generated,
    /// marked dirty so it is picked up by consumers.
    pub fn new(position: ChunkPos) -> (r: VoxelChunk)
        ensures
            r.wf(),
            r.position == position,
            r.is_dirty,
            !r.is_generated,
            forall|x: int, y: int, z: int| #[trigger] r.voxel_at(x, y, z) is None,
            r.octree.nodes_spec().len() == 1,
            r.octree.nodes_spec()[0] == crate::svo::OctreeNode::empty_spec(),
    {
        VoxelChunk {
            position,
            octree: SparseVoxelOctree::new(),
            is_dirty: true,
            is_generated: false,
        }
    }

    /// Writes a voxel and marks the chunk dirty.
    pub fn set_voxel(&mut self, local_pos: LocalVoxelPos, voxel_id: VoxelId)
        requires
            old(self).wf(),
            local_pos.wf(),
        ensures
            final(self).wf(),
            final(self).position == old(self).position,
            final(self).is_generated == old(self).is_generated,
            final(self).is_dirty,
            (voxel_id.0 == 0 && old(self).voxel_at(
                local_pos.x as int,
                local_pos.y as int,
                local_pos.z as int,
            ) is None) ==> final(self).octree == old(self).octree,
            !(voxel_id.0 == 0 && old(self).voxel_at(
                local_pos.x as int,
                local_pos.y as int,
                local_pos.z as int,
            ) is None) ==> forall|qx: int, qy: int, qz: int|
                0 <= qx < CHUNK_SIZE && 0 <= qy < CHUNK_SIZE && 0 <= qz < CHUNK_SIZE
                    ==> #[trigger] final(self).voxel_at(qx, qy, qz) == set_result(
                    old(self).voxel_at(qx, qy, qz),
                    qx,
                    qy,
                    qz,
                    local_pos.x as int,
                    local_pos.y as int,
                    local_pos.z as int,
                    voxel_id.0,
                ),
            final(self).octree.value_at(
                local_pos.x as int,
                local_pos.y as int,
                local_pos.z as int,
            ) == voxel_id.0,
    {
        self.octree.set_voxel(local_pos, voxel_id);
        self.is_dirty = true;
    }

    /// Reads a voxel: the stored id, or air where none is recorded.
    pub fn get_voxel(&self, local_pos: LocalVoxelPos) -> (r: VoxelId)
        requires
            self.wf(),
            local_pos.wf(),
        ensures
            r.0 == self.octree.value_at(local_pos.x as int, local_pos.y as int, local_pos.z as int),
    {
        self.octree.get_voxel(local_pos)
    }

    /// Fills the chunk from a pre-sampled id field of one entry per local
    /// position in row-major order, writing only the solid entries, then
    /// marks the chunk generated. A second call is a no-op. Starting from
    /// an empty chunk, afterwards a position reads back a stored id
    /// exactly when its field entry is solid.
    pub fn generate_terrain(&mut self, field: &Vec<VoxelId>)
        requires
            old(self).wf(),
            field@.len() == CHUNK_VOLUME,
        ensures
            final(self).wf(),
            final(self).position == old(self).position,
            old(self).is_generated ==> *final(self) == *old(self),
            !old(self).is_generated ==> final(self).is_generated && final(self).is_dirty,
            !old(self).is_generated ==> forall|x: int, y: int, z: int|
                0 <= x < CHUNK_SIZE && 0 <= y < CHUNK_SIZE && 0 <= z < CHUNK_SIZE
                    ==> #[trigger] final(self).voxel_at(x, y, z) == gen_at(
                    field@,
                    CHUNK_VOLUME as int,
                    x,
                    y,
                    z,
                    old(self).voxel_at(x, y, z),
                ),
            (!old(self).is_generated && (forall|x: int, y: int, z: int|
                #[trigger] old(self).voxel_at(x, y, z) is None)) ==> forall|x: int, y: int, z: int|
                0 <= x < CHUNK_SIZE && 0 <= y < CHUNK_SIZE && 0 <= z < CHUNK_SIZE
                    ==> ((#[trigger] final(self).voxel_at(x, y, z)) is Some == (field@[field_idx(
                    x,
                    y,
                    z,
                )].0 != 0)),
    {
        if self.is_generated {
            return;
        }
        let ghost empty_start = forall|x: int, y: int, z: int|
            #[trigger] old(self).voxel_at(x, y, z) is None;
        let mut k: usize = 0;
        while k < CHUNK_VOLUME
            invariant
                k <= CHUNK_VOLUME,
                field@.len() == CHUNK_VOLUME,
                self.wf(),
                self.position == old(self).position,
                self.is_generated == old(self).is_generated,
                !self.is_generated,
                empty_start == (forall|x: int, y: int, z: int|
                    #[trigger] old(self).voxel_at(x, y, z) is None),
                forall|x: int, y: int, z: int|
                    0 <= x < CHUNK_SIZE && 0 <= y < CHUNK_SIZE && 0 <= z < CHUNK_SIZE
                        ==> #[trigger] self.voxel_at(x, y, z) == gen_at(
                        field@,
                        k as int,
                        x,
                        y,
                        z,
                        old(self).voxel_at(x, y, z),
                    ),
            decreases CHUNK_VOLUME - k,
        {
            let pos = LocalVoxelPos::from_index(k);
            let v = field[k];
            proof {
                lemma_field_idx(pos.x as int, pos.y as int, pos.z as int);
                assert(pos.x as int == k as int % 32 && pos.y as int == (k as int / 32) % 32
                    && pos.z as int == k as int / 1024) by {
                    assert(pos.index_spec() == k);
                }
            }
            let ghost pre = *self;
            if v.is_solid() {
                self.octree.set_voxel(pos, v);
            }
            proof {
                assert forall|x: int, y: int, z: int|
                    0 <= x < CHUNK_SIZE && 0 <= y < CHUNK_SIZE && 0 <= z < CHUNK_SIZE
                        implies #[trigger] self.voxel_at(x, y, z) == gen_at(
                    field@,
                    k as int + 1,
                    x,
                    y,
                    z,
                    old(self).voxel_at(x, y, z),
                ) by {
                    assert(pre.voxel_at(x, y, z) == gen_at(field@, k as int, x, y, z,
                        old(self).voxel_at(x, y, z)));
                    if v.0 != 0 {
                        assert(self.voxel_at(x, y, z) == set_result(
                            pre.voxel_at(x, y, z),
                            x,
                            y,
                            z,
                            pos.x as int,
                            pos.y as int,
                            pos.z as int,
                            v.0,
                        ));
                    } else {
                        assert(self.voxel_at(x, y, z) == pre.voxel_at(x, y, z));
                    }
                }
            }
            k = k + 1;
        }
        let ghost done = *self;
        self.is_generated = true;
        self.is_dirty = true;
        proof {
            assert forall|x: int, y: int, z: int|
                0 <= x < CHUNK_SIZE && 0 <= y < CHUNK_SIZE && 0 <= z < CHUNK_SIZE
                    implies #[trigger] self.voxel_at(x, y, z) == gen_at(
                field@,
                CHUNK_VOLUME as int,
                x,
                y,
                z,
                old(self).voxel_at(x, y, z),
            ) by {
                assert(done.voxel_at(x, y, z) == gen_at(field@, CHUNK_VOLUME as int, x, y, z,
                    old(self).voxel_at(x, y, z)));
                assert(self.octree == done.octree);
            }
            if empty_start {
                assert forall|x: int, y: int, z: int|
                    0 <= x < CHUNK_SIZE && 0 <= y < CHUNK_SIZE && 0 <= z < CHUNK_SIZE
                        implies ((#[trigger] self.voxel_at(x, y, z)) is Some == (field@[field_idx(
                    x,
                    y,
                    z,
                )].0 != 0)) by {
                    assert(old(self).voxel_at(x, y, z) is None);
                    lemma_gen_some(field@, CHUNK_VOLUME as int, x, y, z);
                }
            }
        }
    }

    /// True exactly when the octree is a single node with no occupied
    /// octant; such a chunk holds no recorded voxel at all.
    pub fn is_empty(&self) -> (r: bool)
        requires
            self.wf(),
        ensures
            r == (self.octree.nodes_spec().len() <= 1 && self.octree.nodes_spec()[0].child_mask
                == 0),
            r ==> forall|x: int, y: int, z: int| #[trigger] self.voxel_at(x, y, z) is None,
    {
        let r = self.octree.node_count() <= 1 && self.octree.get_nodes()[0].child_mask == 0;
        proof {
            if r {
                assert forall|x: int, y: int, z: int| #[trigger] self.voxel_at(x, y, z) is None by {
                    lemma_empty_node_lookup(
                        self.octree.nodes_spec(),
                        0,
                        CHUNK_SIZE as int,
                        x,
                        y,
                        z,
                    );
                }
            }
        }
        r
    }
}

} // verus!
