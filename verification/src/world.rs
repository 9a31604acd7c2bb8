//! The world: a sparse set of resident chunks streamed around a viewpoint,
//! with reads and writes addressed by world voxel coordinates.

use vstd::prelude::*;
use crate::chunk::VoxelChunk;
use crate::chunk::gen_at;
use crate::svo::set_result;
use crate::voxel::{VoxelId, ChunkPos, CHUNK_SIZE, CHUNK_VOLUME, world_to_chunk_and_local,
    chunk_coord_of, local_coord_of};

verus! {

/// The chunk grid position holding a world voxel position.
pub open spec fn world_chunk_of(wx: int, wy: int, wz: int) -> ChunkPos {
    ChunkPos {
        x: chunk_coord_of(wx) as i32,
        y: chunk_coord_of(wy) as i32,
        z: chunk_coord_of(wz) as i32,
    }
}

/// A chunk as streaming creates it: at its position, generated and dirty,
/// its content the terrain fill of the given id field over an empty
/// start.
pub open spec fn chunk_from_field(c: VoxelChunk, p: ChunkPos, field: Seq<VoxelId>) -> bool {
    &&& c.position == p
    &&& c.is_generated
    &&& c.is_dirty
    &&& field.len() == CHUNK_VOLUME
    &&& forall|x: int, y: int, z: int|
        0 <= x < CHUNK_SIZE && 0 <= y < CHUNK_SIZE && 0 <= z < CHUNK_SIZE
            ==> #[trigger] c.voxel_at(x, y, z) == gen_at(field, CHUNK_VOLUME as int, x, y, z, None)
}

/// Whether some entry of the sampled fields carries a full id field for
/// position `p`.
pub open spec fn covers(fields: Seq<(ChunkPos, Vec<VoxelId>)>, p: ChunkPos) -> bool {
    exists|k: int|
        0 <= k < fields.len() && (#[trigger] fields[k]).0 == p && fields[k].1@.len()
            == CHUNK_VOLUME
}

/// A chunk generated from whichever of the sampled fields names its
/// position.
pub open spec fn generated_chunk(c: VoxelChunk, p: ChunkPos, fields: Seq<(ChunkPos, Vec<VoxelId>)>) -> bool {
    exists|k: int|
        0 <= k < fields.len() && (#[trigger] fields[k]).0 == p && chunk_from_field(
            c,
            p,
            fields[k].1@,
        )
}

/// Whether `p` lies in the cube of half-edge `rd` around `c`
/// (chebyshev metric, inclusive).
pub open spec fn within_box(p: ChunkPos, c: ChunkPos, rd: int) -> bool {
    &&& c.x - rd <= p.x <= c.x + rd
    &&& c.y - rd <= p.y <= c.y + rd
    &&& c.z - rd <= p.z <= c.z + rd
}

/// The world: every currently resident chunk, each carrying its own grid
/// position, and the streaming radius in chunks.
pub struct VoxelWorld {
    chunks: Vec<VoxelChunk>,
    render_distance: i32,
}

/// Two worlds with the same chunk sequence are equally well-formed.
proof fn lemma_wf_same_chunks(w1: VoxelWorld, w2: VoxelWorld)
    requires
        w1.wf(),
        w2.chunks_spec() == w1.chunks_spec(),
    ensures
        w2.wf(),
{
    assert forall|k1: int, k2: int|
        0 <= k1 < k2 < w2.chunks_spec().len() implies #[trigger] w2.chunks_spec()[k1].position
        != #[trigger] w2.chunks_spec()[k2].position by {
        assert(w1.chunks_spec()[k1].position != w1.chunks_spec()[k2].position);
    }
    assert forall|k: int| 0 <= k < w2.chunks_spec().len() implies (
    #[trigger] w2.chunks_spec()[k]).wf() by {
        assert(w1.chunks_spec()[k].wf());
    }
}

/// A position occurring at index `k` makes `k` the unique index the
/// specification's accessors name.
proof fn lemma_unique_idx(w: VoxelWorld, p: ChunkPos, k: int)
    requires
        w.wf(),
        0 <= k < w.chunks_spec().len(),
        w.chunks_spec()[k].position == p,
    ensures
        w.resident(p),
        w.chunk_idx(p) == k,
        w.chunk_at(p) == w.chunks_spec()[k],
{
    assert(w.resident(p));
    let j = w.chunk_idx(p);
    assert(w.chunks_spec()[j].position == p);
    if j < k {
        assert(w.chunks_spec()[j].position != w.chunks_spec()[k].position);
    }
    if k < j {
        assert(w.chunks_spec()[k].position != w.chunks_spec()[j].position);
    }
}

impl VoxelWorld {
    /// The resident chunks as the specification sees them.
    pub closed spec fn chunks_spec(self) -> Seq<VoxelChunk> {
        self.chunks@
    }

    /// The streaming radius.
    pub closed spec fn render_distance_spec(self) -> int {
        self.render_distance as int
    }

    /// Whether a chunk at `p` is resident.
    pub open spec fn resident(self, p: ChunkPos) -> bool {
        exists|k: int| 0 <= k < self.chunks_spec().len() && self.chunks_spec()[k].position == p
    }

    /// The index of the resident chunk at `p`.
    pub open spec fn chunk_idx(self, p: ChunkPos) -> int {
        choose|k: int| 0 <= k < self.chunks_spec().len() && self.chunks_spec()[k].position == p
    }

    /// The resident chunk at `p`.
    pub open spec fn chunk_at(self, p: ChunkPos) -> VoxelChunk {
        self.chunks_spec()[self.chunk_idx(p)]
    }

    /// Well-formedness: chunk positions are distinct and every chunk's
    /// storage is well-formed.
    pub open spec fn wf(self) -> bool {
        &&& forall|k1: int, k2: int|
            0 <= k1 < k2 < self.chunks_spec().len() ==> #[trigger] self.chunks_spec()[k1].position
                != #[trigger] self.chunks_spec()[k2].position
        &&& forall|k: int|
            0 <= k < self.chunks_spec().len() ==> (#[trigger] self.chunks_spec()[k]).wf()
    }

    /// A world with no resident chunks and the default streaming radius.
    pub fn new() -> (r: VoxelWorld)
        ensures
            r.wf(),
            r.chunks_spec().len() == 0,
            r.render_distance_spec() == 8,
            forall|p: ChunkPos| !(#[trigger] r.resident(p)),
    {
        VoxelWorld { chunks: Vec::new(), render_distance: 8 }
    }

    pub fn set_render_distance(&mut self, distance: i32)
        requires
            old(self).wf(),
        ensures
            final(self).wf(),
            final(self).render_distance_spec() == distance,
            final(self).chunks_spec() == old(self).chunks_spec(),
    {
        self.render_distance = distance;
        proof {
            lemma_wf_same_chunks(*old(self), *self);
        }
    }

    /// Number of resident chunks.
    pub fn chunk_count(&self) -> (r: usize)
        ensures
            r == self.chunks_spec().len(),
    {
        self.chunks.len()
    }

    /// The resident chunks, for iteration by a renderer.
    pub fn get_loaded_chunks(&self) -> (r: &Vec<VoxelChunk>)
        ensures
            r@ == self.chunks_spec(),
    {
        &self.chunks
    }

    /// The resident chunk at `pos`, if any.
    pub fn get_chunk(&self, pos: ChunkPos) -> (r: Option<&VoxelChunk>)
        requires
            self.wf(),
        ensures
            match r {
                Some(c) => self.resident(pos) && *c == self.chunk_at(pos),
                None => !self.resident(pos),
            },
    {
        let n = self.chunks.len();
        let mut k: usize = 0;
        while k < n
            invariant
                n == self.chunks_spec().len(),
                k <= n,
                self.wf(),
                forall|j: int| 0 <= j < k ==> #[trigger] self.chunks_spec()[j].position != pos,
            decreases n - k,
        {
            if self.chunks[k].position == pos {
                proof {
                    assert(self.chunks_spec()[k as int].position == pos);
                }
                return Some(&self.chunks[k]);
            }
            k = k + 1;
        }
        proof {
            if self.resident(pos) {
                let j = choose|j: int|
                    0 <= j < self.chunks_spec().len() && self.chunks_spec()[j].position == pos;
                assert(self.chunks_spec()[j].position != pos);
            }
        }
        None
    }

    /// Mutable access to the resident chunk at `pos`, if any.
    pub fn get_chunk_mut(&mut self, pos: ChunkPos) -> (r: Option<&mut VoxelChunk>)
        requires
            old(self).wf(),
        ensures
            match r {
                Some(c) => {
                    &&& old(self).resident(pos)
                    &&& *c == old(self).chunk_at(pos)
                    &&& final(self).chunks_spec() == old(self).chunks_spec().update(
                        old(self).chunk_idx(pos),
                        *final(c),
                    )
                },
                None => {
                    &&& !old(self).resident(pos)
                    &&& *final(self) == *old(self)
                },
            },
    {
        let n = self.chunks.len();
        let mut k: usize = 0;
        while k < n
            invariant
                n == self.chunks_spec().len(),
                k <= n,
                old(self).wf(),
                *self == *old(self),
                forall|j: int| 0 <= j < k ==> #[trigger] self.chunks_spec()[j].position != pos,
            decreases n - k,
        {
            if self.chunks[k].position == pos {
                proof {
                    assert(self.chunks_spec()[k as int].position == pos);
                    assert(old(self).resident(pos));
                    let j = old(self).chunk_idx(pos);
                    if j != k as int {
                        assert(old(self).chunks_spec()[j].position == pos);
                    }
                }
                return Some(&mut self.chunks[k]);
            }
            k = k + 1;
        }
        proof {
            if self.resident(pos) {
                let j = choose|j: int|
                    0 <= j < self.chunks_spec().len() && self.chunks_spec()[j].position == pos;
                assert(self.chunks_spec()[j].position != pos);
            }
        }
        None
    }

    /// Writes a voxel addressed by world voxel coordinates. A write into a
    /// chunk that is not resident is silently dropped: this library
    /// discards such edits rather than queueing them.
    pub fn set_voxel(&mut self, wx: i64, wy: i64, wz: i64, voxel_id: VoxelId)
        requires
            old(self).wf(),
            -0x1000000000 <= wx < 0x1000000000,
            -0x1000000000 <= wy < 0x1000000000,
            -0x1000000000 <= wz < 0x1000000000,
        ensures
            final(self).wf(),
            final(self).render_distance_spec() == old(self).render_distance_spec(),
            !old(self).resident(world_chunk_of(wx as int, wy as int, wz as int)) ==> *final(self)
                == *old(self),
            old(self).resident(world_chunk_of(wx as int, wy as int, wz as int)) ==> ({
                let cp = world_chunk_of(wx as int, wy as int, wz as int);
                let oldc = old(self).chunk_at(cp);
                let newc = final(self).chunk_at(cp);
                &&& (forall|p: ChunkPos| #[trigger] final(self).resident(p) == old(self).resident(
                    p,
                ))
                &&& (forall|p: ChunkPos|
                    p != cp && #[trigger] old(self).resident(p) ==> final(self).chunk_at(p) == old(
                        self,
                    ).chunk_at(p))
                &&& newc.position == cp
                &&& newc.is_dirty
                &&& newc.is_generated == oldc.is_generated
                &&& newc.octree.value_at(
                    local_coord_of(wx as int),
                    local_coord_of(wy as int),
                    local_coord_of(wz as int),
                ) == voxel_id.0
                &&& (voxel_id.0 == 0 && oldc.voxel_at(
                    local_coord_of(wx as int),
                    local_coord_of(wy as int),
                    local_coord_of(wz as int),
                ) is None) ==> newc.octree == oldc.octree
                &&& !(voxel_id.0 == 0 && oldc.voxel_at(
                    local_coord_of(wx as int),
                    local_coord_of(wy as int),
                    local_coord_of(wz as int),
                ) is None) ==> (forall|qx: int, qy: int, qz: int|
                    0 <= qx < CHUNK_SIZE && 0 <= qy < CHUNK_SIZE && 0 <= qz < CHUNK_SIZE
                        ==> #[trigger] newc.voxel_at(qx, qy, qz) == set_result(
                        oldc.voxel_at(qx, qy, qz),
                        qx,
                        qy,
                        qz,
                        local_coord_of(wx as int),
                        local_coord_of(wy as int),
                        local_coord_of(wz as int),
                        voxel_id.0,
                    ))
            }),
    {
        let (chunk_pos, local_pos) = world_to_chunk_and_local(wx, wy, wz);
        let ghost cp = world_chunk_of(wx as int, wy as int, wz as int);
        proof {
            assert(chunk_pos == cp);
        }
        let n = self.chunks.len();
        let mut k: usize = 0;
        while k < n
            invariant
                n == self.chunks_spec().len(),
                k <= n,
                old(self).wf(),
                *self == *old(self),
                local_pos.wf(),
                chunk_pos == cp,
                cp == world_chunk_of(wx as int, wy as int, wz as int),
                local_pos.x == local_coord_of(wx as int),
                local_pos.y == local_coord_of(wy as int),
                local_pos.z == local_coord_of(wz as int),
                forall|j: int| 0 <= j < k ==> #[trigger] self.chunks_spec()[j].position != cp,
            decreases n - k,
        {
            if self.chunks[k].position == chunk_pos {
                let ghost pre = self.chunks@;
                proof {
                    assert(self.chunks_spec()[k as int].wf());
                    lemma_unique_idx(*old(self), cp, k as int);
                }
                self.chunks[k].set_voxel(local_pos, voxel_id);
                proof {
                    assert(self.chunks@ == pre.update(k as int, self.chunks@[k as int]));
                    assert(self.chunks@[k as int].position == pre[k as int].position);
                    assert forall|k1: int, k2: int|
                        0 <= k1 < k2 < self.chunks_spec().len() implies #[trigger] self.chunks_spec()[k1].position
                        != #[trigger] self.chunks_spec()[k2].position by {
                        assert(pre[k1].position != pre[k2].position);
                    }
                    assert forall|j: int|
                        0 <= j < self.chunks_spec().len() implies (#[trigger] self.chunks_spec()[j]).wf() by {
                        if j != k as int {
                            assert(self.chunks_spec()[j] == pre[j]);
                        }
                    }
                    assert forall|p: ChunkPos| #[trigger] self.resident(p) == old(self).resident(
                        p,
                    ) by {
                        if self.resident(p) {
                            let j = choose|j: int|
                                0 <= j < self.chunks@.len() && self.chunks@[j].position == p;
                            assert(pre[j].position == p);
                            assert(old(self).resident(p));
                        }
                        if old(self).resident(p) {
                            let j = choose|j: int| 0 <= j < pre.len() && pre[j].position == p;
                            assert(self.chunks@[j].position == p);
                            assert(self.resident(p));
                        }
                    }
                    lemma_unique_idx(*self, cp, k as int);
                    assert(old(self).resident(cp));
                    assert(self.chunk_at(cp) == self.chunks@[k as int]);
                    assert(self.chunk_at(cp).is_dirty);
                    assert(self.chunk_at(cp).position == cp);
                    assert(old(self).chunk_at(cp) == pre[k as int]);
                    assert(self.chunk_at(cp).octree.value_at(
                        local_coord_of(wx as int),
                        local_coord_of(wy as int),
                        local_coord_of(wz as int),
                    ) == voxel_id.0);
                    assert forall|p: ChunkPos|
                        p != cp && #[trigger] old(self).resident(p) implies self.chunk_at(p)
                        == old(self).chunk_at(p) by {
                        let j = choose|j: int| 0 <= j < pre.len() && pre[j].position == p;
                        assert(j != k as int);
                        assert(self.chunks_spec()[j] == pre[j]);
                        lemma_unique_idx(*old(self), p, j);
                        lemma_unique_idx(*self, p, j);
                    }
                }
                return;
            }
            k = k + 1;
        }
        proof {
            if old(self).resident(cp) {
                let j = choose|j: int|
                    0 <= j < self.chunks@.len() && self.chunks@[j].position == cp;
                assert(self.chunks_spec()[j].position != cp);
            }
        }
    }

    /// Reads the voxel at world voxel coordinates. A position whose chunk
    /// is not resident reads as air: absence is never an error.
    pub fn get_voxel(&self, wx: i64, wy: i64, wz: i64) -> (r: VoxelId)
        requires
            self.wf(),
            -0x1000000000 <= wx < 0x1000000000,
            -0x1000000000 <= wy < 0x1000000000,
            -0x1000000000 <= wz < 0x1000000000,
        ensures
            r.0 == ({
                let cp = world_chunk_of(wx as int, wy as int, wz as int);
                if self.resident(cp) {
                    self.chunk_at(cp).octree.value_at(
                        local_coord_of(wx as int),
                        local_coord_of(wy as int),
                        local_coord_of(wz as int),
                    )
                } else {
                    0
                }
            }),
    {
        let (chunk_pos, local_pos) = world_to_chunk_and_local(wx, wy, wz);
        proof {
            assert(chunk_pos == world_chunk_of(wx as int, wy as int, wz as int));
        }
        match self.get_chunk(chunk_pos) {
            Some(chunk) => {
                proof {
                    let j = self.chunk_idx(chunk_pos);
                    assert(self.chunks_spec()[j].wf());
                }
                chunk.get_voxel(local_pos)
            },
            None => VoxelId(0),
        }
    }


    /// Makes a chunk at `pos` resident, creating a fresh one when none is
    /// there; everything already resident is untouched.
    fn insert_missing(&mut self, pos: ChunkPos, fields: &Vec<(ChunkPos, Vec<VoxelId>)>)
        requires
            old(self).wf(),
            !old(self).resident(pos) ==> covers(fields@, pos),
        ensures
            final(self).wf(),
            final(self).render_distance_spec() == old(self).render_distance_spec(),
            forall|p: ChunkPos|
                #[trigger] final(self).resident(p) == (old(self).resident(p) || p == pos),
            forall|p: ChunkPos|
                #[trigger] old(self).resident(p) ==> final(self).chunk_at(p) == old(self).chunk_at(
                    p,
                ),
            !old(self).resident(pos) ==> generated_chunk(final(self).chunk_at(pos), pos, fields@),
            old(self).resident(pos) ==> *final(self) == *old(self),
    {
        if self.get_chunk(pos).is_none() {
            let ghost pre = self.chunks@;
            let n_fields = fields.len();
            let mut kf: usize = 0;
            let mut found = false;
            while kf < n_fields && !found
                invariant
                    kf <= n_fields,
                    n_fields == fields@.len(),
                    found ==> kf < n_fields && (fields@[kf as int]).0 == pos
                        && fields@[kf as int].1@.len() == CHUNK_VOLUME,
                    !found ==> forall|j: int|
                        0 <= j < kf ==> !((#[trigger] fields@[j]).0 == pos && fields@[j].1@.len()
                            == CHUNK_VOLUME),
                decreases n_fields - kf + (if found { 0int } else { 1int }),
            {
                let entry = &fields[kf];
                if entry.0 == pos && entry.1.len() == CHUNK_VOLUME {
                    found = true;
                } else {
                    kf = kf + 1;
                }
            }
            if !found {
                proof {
                    assert(covers(fields@, pos));
                    let k = choose|k: int|
                        0 <= k < fields@.len() && (#[trigger] fields@[k]).0 == pos
                            && fields@[k].1@.len() == CHUNK_VOLUME;
                    assert(false);
                }
                return;
            }
            let mut c = VoxelChunk::new(pos);
            let ghost c0 = c;
            c.generate_terrain(&fields[kf].1);
            proof {
                assert(chunk_from_field(c, pos, fields@[kf as int].1@)) by {
                    assert forall|x: int, y: int, z: int|
                        0 <= x < CHUNK_SIZE && 0 <= y < CHUNK_SIZE && 0 <= z < CHUNK_SIZE
                            implies #[trigger] c.voxel_at(x, y, z) == gen_at(
                        fields@[kf as int].1@,
                        CHUNK_VOLUME as int,
                        x,
                        y,
                        z,
                        None,
                    ) by {
                        assert(c0.voxel_at(x, y, z) is None);
                        assert(c.voxel_at(x, y, z) == gen_at(fields@[kf as int].1@,
                            CHUNK_VOLUME as int, x, y, z, c0.voxel_at(x, y, z)));
                    }
                }
                assert(generated_chunk(c, pos, fields@)) by {
                    assert(0 <= (kf as int) && (kf as int) < fields@.len() && (fields@[kf as int]).0
                        == pos && chunk_from_field(c, pos, fields@[kf as int].1@));
                }
            }
            self.chunks.push(c);
            proof {
                let n = pre.len() as int;
                assert(pre == old(self).chunks_spec());
                assert(self.chunks@ == pre.push(c));
                assert(self.chunks@[n] == c);
                assert forall|j: int| 0 <= j < n implies self.chunks@[j] == pre[j] by {}
                assert forall|k1: int, k2: int|
                    0 <= k1 < k2 < self.chunks_spec().len() implies #[trigger] self.chunks_spec()[k1].position
                    != #[trigger] self.chunks_spec()[k2].position by {
                    if k2 < n {
                        assert(old(self).chunks_spec()[k1].position != old(
                            self,
                        ).chunks_spec()[k2].position);
                    } else {
                        assert(self.chunks_spec()[k2] == c);
                        if pre[k1].position == pos {
                            assert(old(self).chunks_spec()[k1].position == pos);
                            assert(old(self).resident(pos));
                        }
                    }
                }
                assert forall|j: int|
                    0 <= j < self.chunks_spec().len() implies (
                #[trigger] self.chunks_spec()[j]).wf() by {
                    if j < n {
                        assert(old(self).chunks_spec()[j].wf());
                    }
                }
                assert forall|p: ChunkPos|
                    #[trigger] self.resident(p) == (old(self).resident(p) || p == pos) by {
                    if self.resident(p) {
                        let j = choose|j: int|
                            0 <= j < self.chunks_spec().len() && self.chunks_spec()[j].position
                                == p;
                        if j < n {
                            assert(old(self).chunks_spec()[j].position == p);
                            assert(old(self).resident(p));
                        } else {
                            assert(p == pos);
                        }
                    }
                    if old(self).resident(p) {
                        let j = choose|j: int|
                            0 <= j < old(self).chunks_spec().len() && old(
                                self,
                            ).chunks_spec()[j].position == p;
                        assert(self.chunks_spec()[j].position == p);
                        assert(self.resident(p));
                    }
                    if p == pos {
                        assert(self.chunks@[n].position == pos);
                        assert(self.resident(p));
                    }
                }
                assert forall|p: ChunkPos|
                    #[trigger] old(self).resident(p) implies self.chunk_at(p) == old(
                    self,
                ).chunk_at(p) by {
                    let j = choose|j: int|
                        0 <= j < old(self).chunks_spec().len() && old(
                            self,
                        ).chunks_spec()[j].position == p;
                    lemma_unique_idx(*old(self), p, j);
                    assert(self.chunks_spec()[j] == old(self).chunks_spec()[j]);
                    lemma_unique_idx(*self, p, j);
                }
                lemma_unique_idx(*self, pos, n);
                assert(self.chunk_at(pos) == c);
            }
        }
    }

    /// Makes every chunk of one grid row around the centre resident: fixed
    /// x and y, z ranging over the box.
    fn insert_missing_row(
        &mut self,
        cx: i32,
        cy: i32,
        center_z: i32,
        rd: i32,
        fields: &Vec<(ChunkPos, Vec<VoxelId>)>,
    )
        requires
            old(self).wf(),
            -1000000 <= center_z <= 1000000,
            rd <= 1000000,
            forall|p: ChunkPos|
                p.x == cx && p.y == cy && center_z - rd <= p.z <= center_z + rd && !old(
                    self,
                ).resident(p) ==> #[trigger] covers(fields@, p),
        ensures
            final(self).wf(),
            final(self).render_distance_spec() == old(self).render_distance_spec(),
            forall|p: ChunkPos|
                #[trigger] final(self).resident(p) == (old(self).resident(p) || (p.x == cx && p.y
                    == cy && center_z - rd <= p.z <= center_z + rd)),
            forall|p: ChunkPos|
                #[trigger] old(self).resident(p) ==> final(self).chunk_at(p) == old(self).chunk_at(
                    p,
                ),
            forall|p: ChunkPos|
                !old(self).resident(p) && #[trigger] final(self).resident(p) ==> generated_chunk(
                    final(self).chunk_at(p),
                    p,
                    fields@,
                ),
    {
        if rd < 0 {
            return;
        }
        let mut z: i32 = center_z - rd;
        while z <= center_z + rd
            invariant
                old(self).wf(),
                self.wf(),
                -1000000 <= center_z <= 1000000,
                0 <= rd <= 1000000,
                center_z - rd <= z <= center_z + rd + 1,
                self.render_distance_spec() == old(self).render_distance_spec(),
                forall|p: ChunkPos|
                    #[trigger] self.resident(p) == (old(self).resident(p) || (p.x == cx && p.y
                        == cy && center_z - rd <= p.z < z)),
                forall|p: ChunkPos|
                    #[trigger] old(self).resident(p) ==> self.chunk_at(p) == old(self).chunk_at(p),
                forall|p: ChunkPos|
                    p.x == cx && p.y == cy && center_z - rd <= p.z <= center_z + rd && !old(
                        self,
                    ).resident(p) ==> #[trigger] covers(fields@, p),
                forall|p: ChunkPos|
                    !old(self).resident(p) && #[trigger] self.resident(p) ==> generated_chunk(
                        self.chunk_at(p),
                        p,
                        fields@,
                    ),
            decreases center_z + rd - z + 1,
        {
            let ghost mid = *self;
            proof {
                let q = ChunkPos { x: cx, y: cy, z };
                if !self.resident(q) {
                    assert(!old(self).resident(q));
                    assert(covers(fields@, q));
                }
            }
            self.insert_missing(ChunkPos::new(cx, cy, z), fields);
            proof {
                let q = ChunkPos { x: cx, y: cy, z };
                assert forall|p: ChunkPos|
                    #[trigger] self.resident(p) == (old(self).resident(p) || (p.x == cx && p.y
                        == cy && center_z - rd <= p.z < z + 1)) by {
                    assert(self.resident(p) == (mid.resident(p) || p == q));
                }
                assert forall|p: ChunkPos|
                    #[trigger] old(self).resident(p) implies self.chunk_at(p) == old(
                    self,
                ).chunk_at(p) by {
                    assert(mid.resident(p));
                    assert(self.chunk_at(p) == mid.chunk_at(p));
                }
                assert forall|p: ChunkPos|
                    !old(self).resident(p) && #[trigger] self.resident(p) implies generated_chunk(
                    self.chunk_at(p),
                    p,
                    fields@,
                ) by {
                    if mid.resident(p) {
                        assert(self.chunk_at(p) == mid.chunk_at(p));
                        assert(generated_chunk(mid.chunk_at(p), p, fields@));
                    } else {
                        assert(p == q);
                        assert(generated_chunk(self.chunk_at(p), p, fields@));
                    }
                }
            }
            z = z + 1;
        }
    }

    /// Makes every chunk of one grid plane around the centre resident:
    /// fixed x, y and z ranging over the box.
    fn insert_missing_plane(
        &mut self,
        cx: i32,
        center_y: i32,
        center_z: i32,
        rd: i32,
        fields: &Vec<(ChunkPos, Vec<VoxelId>)>,
    )
        requires
            old(self).wf(),
            -1000000 <= center_y <= 1000000,
            -1000000 <= center_z <= 1000000,
            rd <= 1000000,
            forall|p: ChunkPos|
                p.x == cx && center_y - rd <= p.y <= center_y + rd && center_z - rd <= p.z
                    <= center_z + rd && !old(self).resident(p) ==> #[trigger] covers(fields@, p),
        ensures
            final(self).wf(),
            final(self).render_distance_spec() == old(self).render_distance_spec(),
            forall|p: ChunkPos|
                #[trigger] final(self).resident(p) == (old(self).resident(p) || (p.x == cx
                    && center_y - rd <= p.y <= center_y + rd && center_z - rd <= p.z <= center_z
                    + rd)),
            forall|p: ChunkPos|
                #[trigger] old(self).resident(p) ==> final(self).chunk_at(p) == old(self).chunk_at(
                    p,
                ),
            forall|p: ChunkPos|
                !old(self).resident(p) && #[trigger] final(self).resident(p) ==> generated_chunk(
                    final(self).chunk_at(p),
                    p,
                    fields@,
                ),
    {
        if rd < 0 {
            return;
        }
        let mut y: i32 = center_y - rd;
        while y <= center_y + rd
            invariant
                old(self).wf(),
                self.wf(),
                -1000000 <= center_y <= 1000000,
                -1000000 <= center_z <= 1000000,
                0 <= rd <= 1000000,
                center_y - rd <= y <= center_y + rd + 1,
                self.render_distance_spec() == old(self).render_distance_spec(),
                forall|p: ChunkPos|
                    #[trigger] self.resident(p) == (old(self).resident(p) || (p.x == cx
                        && center_y - rd <= p.y < y && center_z - rd <= p.z <= center_z + rd)),
                forall|p: ChunkPos|
                    #[trigger] old(self).resident(p) ==> self.chunk_at(p) == old(self).chunk_at(p),
                forall|p: ChunkPos|
                    p.x == cx && center_y - rd <= p.y <= center_y + rd && center_z - rd <= p.z
                        <= center_z + rd && !old(self).resident(p) ==> #[trigger] covers(fields@, p),
                forall|p: ChunkPos|
                    !old(self).resident(p) && #[trigger] self.resident(p) ==> generated_chunk(
                        self.chunk_at(p),
                        p,
                        fields@,
                    ),
            decreases center_y + rd - y + 1,
        {
            let ghost mid = *self;
            proof {
                assert forall|p: ChunkPos|
                    p.x == cx && p.y == y && center_z - rd <= p.z <= center_z + rd
                        && !self.resident(p) implies #[trigger] covers(fields@, p) by {
                    assert(!old(self).resident(p));
                }
            }
            self.insert_missing_row(cx, y, center_z, rd, fields);
            proof {
                assert forall|p: ChunkPos|
                    #[trigger] self.resident(p) == (old(self).resident(p) || (p.x == cx
                        && center_y - rd <= p.y < y + 1 && center_z - rd <= p.z <= center_z + rd))
                    by {
                    assert(self.resident(p) == (mid.resident(p) || (p.x == cx && p.y == y
                        && center_z - rd <= p.z <= center_z + rd)));
                }
                assert forall|p: ChunkPos|
                    #[trigger] old(self).resident(p) implies self.chunk_at(p) == old(
                    self,
                ).chunk_at(p) by {
                    assert(mid.resident(p));
                    assert(self.chunk_at(p) == mid.chunk_at(p));
                }
                assert forall|p: ChunkPos|
                    !old(self).resident(p) && #[trigger] self.resident(p) implies generated_chunk(
                    self.chunk_at(p),
                    p,
                    fields@,
                ) by {
                    if mid.resident(p) {
                        assert(self.chunk_at(p) == mid.chunk_at(p));
                        assert(generated_chunk(mid.chunk_at(p), p, fields@));
                    } else {
                        assert(generated_chunk(self.chunk_at(p), p, fields@));
                    }
                }
            }
            y = y + 1;
        }
    }

    /// Streams the world around a viewpoint chunk: after the call the
    /// resident set is exactly the box of the render distance around the
    /// centre, whatever it was before. Chunks that were already resident
    /// keep their content; each missing chunk of the box is created and
    /// generated from the sampled id field supplied for its position;
    /// everything outside the box is dropped. The caller samples one field
    /// per missing position, in parallel if it likes, and hands them in.
    pub fn update_around_player(
        &mut self,
        center: ChunkPos,
        fields: &Vec<(ChunkPos, Vec<VoxelId>)>,
    )
        requires
            old(self).wf(),
            -1000000 <= center.x <= 1000000,
            -1000000 <= center.y <= 1000000,
            -1000000 <= center.z <= 1000000,
            -1000000 <= old(self).render_distance_spec() <= 1000000,
            forall|p: ChunkPos|
                within_box(p, center, old(self).render_distance_spec()) && !old(self).resident(p)
                    ==> #[trigger] covers(fields@, p),
        ensures
            final(self).wf(),
            final(self).render_distance_spec() == old(self).render_distance_spec(),
            forall|p: ChunkPos|
                #[trigger] final(self).resident(p) == within_box(
                    p,
                    center,
                    old(self).render_distance_spec(),
                ),
            forall|p: ChunkPos|
                within_box(p, center, old(self).render_distance_spec()) && #[trigger] old(
                    self,
                ).resident(p) ==> final(self).chunk_at(p) == old(self).chunk_at(p),
            forall|p: ChunkPos|
                within_box(p, center, old(self).render_distance_spec()) && !old(self).resident(p)
                    ==> generated_chunk(#[trigger] final(self).chunk_at(p), p, fields@),
            // when everything resident was generated before, everything
            // resident is generated after
            (forall|p: ChunkPos|
                #[trigger] old(self).resident(p) ==> old(self).chunk_at(p).is_generated)
                ==> forall|p: ChunkPos|
                #[trigger] final(self).resident(p) ==> final(self).chunk_at(p).is_generated,
    {
        let rd = self.render_distance;
        // first bring every missing chunk of the box in, so that a chunk on
        // the boundary is never transiently absent
        if rd >= 0 {
            let mut x: i32 = center.x - rd;
            while x <= center.x + rd
                invariant
                    old(self).wf(),
                    self.wf(),
                    -1000000 <= center.x <= 1000000,
                    -1000000 <= center.y <= 1000000,
                    -1000000 <= center.z <= 1000000,
                    0 <= rd <= 1000000,
                    rd == old(self).render_distance_spec(),
                    center.x - rd <= x <= center.x + rd + 1,
                    self.render_distance_spec() == old(self).render_distance_spec(),
                    forall|p: ChunkPos|
                        #[trigger] self.resident(p) == (old(self).resident(p) || (center.x - rd
                            <= p.x < x && center.y - rd <= p.y <= center.y + rd && center.z - rd
                            <= p.z <= center.z + rd)),
                    forall|p: ChunkPos|
                        #[trigger] old(self).resident(p) ==> self.chunk_at(p) == old(
                            self,
                        ).chunk_at(p),
                    forall|p: ChunkPos|
                        within_box(p, center, rd as int) && !old(self).resident(p) ==> #[trigger] covers(fields@, p),
                    forall|p: ChunkPos|
                        !old(self).resident(p) && #[trigger] self.resident(p) ==> generated_chunk(
                            self.chunk_at(p),
                            p,
                            fields@,
                        ),
                decreases center.x + rd - x + 1,
            {
                let ghost mid = *self;
                proof {
                    assert forall|p: ChunkPos|
                        p.x == x && center.y - rd <= p.y <= center.y + rd && center.z - rd <= p.z
                            <= center.z + rd && !self.resident(p) implies #[trigger] covers(fields@, p) by {
                        assert(!old(self).resident(p));
                        assert(within_box(p, center, rd as int));
                    }
                }
                self.insert_missing_plane(x, center.y, center.z, rd, fields);
                proof {
                    assert forall|p: ChunkPos|
                        #[trigger] self.resident(p) == (old(self).resident(p) || (center.x - rd
                            <= p.x < x + 1 && center.y - rd <= p.y <= center.y + rd && center.z
                            - rd <= p.z <= center.z + rd)) by {
                        assert(self.resident(p) == (mid.resident(p) || (p.x == x && center.y - rd
                            <= p.y <= center.y + rd && center.z - rd <= p.z <= center.z + rd)));
                    }
                    assert forall|p: ChunkPos|
                        #[trigger] old(self).resident(p) implies self.chunk_at(p) == old(
                        self,
                    ).chunk_at(p) by {
                        assert(mid.resident(p));
                        assert(self.chunk_at(p) == mid.chunk_at(p));
                    }
                    assert forall|p: ChunkPos|
                        !old(self).resident(p) && #[trigger] self.resident(p)
                            implies generated_chunk(self.chunk_at(p), p, fields@) by {
                        if mid.resident(p) {
                            assert(self.chunk_at(p) == mid.chunk_at(p));
                            assert(generated_chunk(mid.chunk_at(p), p, fields@));
                        } else {
                            assert(generated_chunk(self.chunk_at(p), p, fields@));
                        }
                    }
                }
                x = x + 1;
            }
        }
        let ghost mid = *self;
        proof {
            assert forall|p: ChunkPos|
                #[trigger] mid.resident(p) == (old(self).resident(p) || within_box(
                p,
                center,
                rd as int,
            )) by {}
        }
        // then drop everything the box no longer covers
        let mut k: usize = 0;
        while k < self.chunks.len()
            invariant
                old(self).wf(),
                self.wf(),
                mid.wf(),
                k <= self.chunks_spec().len(),
                rd == old(self).render_distance_spec(),
                self.render_distance_spec() == old(self).render_distance_spec(),
                -1000000 <= center.x <= 1000000,
                -1000000 <= center.y <= 1000000,
                -1000000 <= center.z <= 1000000,
                -1000000 <= rd <= 1000000,
                forall|p: ChunkPos|
                    #[trigger] mid.resident(p) == (old(self).resident(p) || within_box(
                        p,
                        center,
                        rd as int,
                    )),
                forall|p: ChunkPos|
                    #[trigger] old(self).resident(p) ==> mid.chunk_at(p) == old(self).chunk_at(p),
                forall|p: ChunkPos|
                    !old(self).resident(p) && #[trigger] mid.resident(p) ==> generated_chunk(
                        mid.chunk_at(p),
                        p,
                        fields@,
                    ),
                forall|j: int|
                    0 <= j < k ==> within_box(
                        (#[trigger] self.chunks_spec()[j]).position,
                        center,
                        rd as int,
                    ),
                forall|p: ChunkPos| #[trigger] self.resident(p) ==> mid.resident(p),
                forall|p: ChunkPos|
                    within_box(p, center, rd as int) ==> (#[trigger] self.resident(p)
                        == mid.resident(p)) && (self.resident(p) ==> self.chunk_at(p)
                        == mid.chunk_at(p)),
            decreases self.chunks_spec().len() - k,
        {
            let p = self.chunks[k].position;
            let inside = p.x as i64 - center.x as i64 >= -(rd as i64) && p.x as i64
                - center.x as i64 <= rd as i64 && p.y as i64 - center.y as i64 >= -(rd as i64)
                && p.y as i64 - center.y as i64 <= rd as i64 && p.z as i64 - center.z as i64
                >= -(rd as i64) && p.z as i64 - center.z as i64 <= rd as i64;
            proof {
                assert(inside == within_box(p, center, rd as int));
            }
            if inside {
                k = k + 1;
            } else {
                let ghost wpre = *self;
                let ghost pre = self.chunks@;
                self.chunks.swap_remove(k);
                proof {
                    let n = pre.len() as int;
                    assert(pre == wpre.chunks_spec());
                    assert(self.chunks@ == pre.update(k as int, pre.last()).drop_last());
                    assert forall|j: int|
                        0 <= j < self.chunks@.len() implies self.chunks@[j] == (if j == k as int {
                        pre[n - 1]
                    } else {
                        pre[j]
                    }) by {}
                    assert forall|k1: int, k2: int|
                        0 <= k1 < k2 < self.chunks_spec().len() implies #[trigger] self.chunks_spec()[k1].position
                        != #[trigger] self.chunks_spec()[k2].position by {
                        let a1: int = if k1 == k as int { n - 1 } else { k1 };
                        let a2: int = if k2 == k as int { n - 1 } else { k2 };
                        assert(self.chunks_spec()[k1] == wpre.chunks_spec()[a1]);
                        assert(self.chunks_spec()[k2] == wpre.chunks_spec()[a2]);
                        if a1 < a2 {
                            assert(wpre.chunks_spec()[a1].position != wpre.chunks_spec()[a2].position);
                        } else {
                            assert(wpre.chunks_spec()[a2].position != wpre.chunks_spec()[a1].position);
                        }
                    }
                    assert forall|j: int|
                        0 <= j < self.chunks_spec().len() implies (
                    #[trigger] self.chunks_spec()[j]).wf() by {
                        if j == k as int {
                            assert(wpre.chunks_spec()[n - 1].wf());
                        } else {
                            assert(wpre.chunks_spec()[j].wf());
                        }
                    }
                    assert forall|j: int|
                        0 <= j < k implies within_box(
                        (#[trigger] self.chunks_spec()[j]).position,
                        center,
                        rd as int,
                    ) by {
                        assert(self.chunks_spec()[j] == wpre.chunks_spec()[j]);
                        assert(within_box(wpre.chunks_spec()[j].position, center, rd as int));
                    }
                    assert forall|p2: ChunkPos| #[trigger] self.resident(p2) implies mid.resident(
                        p2,
                    ) by {
                        let j = choose|j: int|
                            0 <= j < self.chunks_spec().len() && self.chunks_spec()[j].position
                                == p2;
                        let a: int = if j == k as int { n - 1 } else { j };
                        assert(wpre.chunks_spec()[a].position == p2);
                        assert(wpre.resident(p2));
                    }
                    assert forall|p2: ChunkPos|
                        within_box(p2, center, rd as int) implies (#[trigger] self.resident(p2)
                        == mid.resident(p2)) && (self.resident(p2) ==> self.chunk_at(p2)
                        == mid.chunk_at(p2)) by {
                        if self.resident(p2) {
                            let j = choose|j: int|
                                0 <= j < self.chunks_spec().len() && self.chunks_spec()[j].position
                                    == p2;
                            let a: int = if j == k as int { n - 1 } else { j };
                            assert(wpre.chunks_spec()[a].position == p2);
                            assert(wpre.resident(p2));
                            assert(mid.resident(p2));
                        }
                        if mid.resident(p2) {
                            assert(wpre.resident(p2));
                            let j = choose|j: int|
                                0 <= j < wpre.chunks_spec().len() && wpre.chunks_spec()[j].position
                                    == p2;
                            assert(j != k as int) by {
                                if j == k as int {
                                    assert(!within_box(wpre.chunks_spec()[k as int].position,
                                        center, rd as int));
                                }
                            }
                            let j2: int = if j == n - 1 { k as int } else { j };
                            assert(j2 < self.chunks_spec().len()) by {
                                if j == n - 1 {
                                    assert((k as int) < n - 1);
                                }
                            }
                            assert(self.chunks_spec()[j2] == wpre.chunks_spec()[j]);
                            assert(self.resident(p2)) by {
                                assert(self.chunks_spec()[j2].position == p2);
                            }
                            lemma_unique_idx(*self, p2, j2);
                            lemma_unique_idx(wpre, p2, j);
                            assert(self.chunk_at(p2) == wpre.chunk_at(p2));
                            assert(wpre.chunk_at(p2) == mid.chunk_at(p2));
                        }
                    }
                }
            }
        }
        proof {
            assert forall|p: ChunkPos|
                #[trigger] self.resident(p) == within_box(p, center, rd as int) by {
                if self.resident(p) {
                    let j = choose|j: int|
                        0 <= j < self.chunks_spec().len() && self.chunks_spec()[j].position == p;
                    assert(within_box(self.chunks_spec()[j].position, center, rd as int));
                }
                if within_box(p, center, rd as int) {
                    assert(mid.resident(p));
                }
            }
            assert forall|p: ChunkPos|
                within_box(p, center, rd as int) && #[trigger] old(self).resident(p)
                implies self.chunk_at(p) == old(self).chunk_at(p) by {
                assert(mid.resident(p));
                assert(self.resident(p));
                assert(self.chunk_at(p) == mid.chunk_at(p));
                assert(mid.chunk_at(p) == old(self).chunk_at(p));
            }
            assert forall|p: ChunkPos|
                within_box(p, center, rd as int) && !old(self).resident(p)
                    implies generated_chunk(#[trigger] self.chunk_at(p), p, fields@) by {
                assert(mid.resident(p));
                assert(self.resident(p));
                assert(self.chunk_at(p) == mid.chunk_at(p));
                assert(generated_chunk(mid.chunk_at(p), p, fields@));
            }
            if forall|p: ChunkPos|
                #[trigger] old(self).resident(p) ==> old(self).chunk_at(p).is_generated {
                assert forall|p: ChunkPos| #[trigger] self.resident(p) implies self.chunk_at(
                    p,
                ).is_generated by {
                    assert(within_box(p, center, rd as int));
                    if old(self).resident(p) {
                        assert(self.chunk_at(p) == old(self).chunk_at(p));
                    } else {
                        assert(generated_chunk(self.chunk_at(p), p, fields@));
                        let k = choose|k: int|
                            0 <= k < fields@.len() && (#[trigger] fields@[k]).0 == p
                                && chunk_from_field(self.chunk_at(p), p, fields@[k].1@);
                    }
                }
            }
        }
    }
}


/// Streaming is idempotent for a fixed viewpoint: after an update the
/// resident set is exactly the box around the centre, whatever was
/// resident before, so two worlds updated around the same centre with the
/// same render distance agree on residency — in particular, a second
/// update in a row leaves the resident set unchanged.
pub proof fn lemma_update_residency_deterministic(
    w1: VoxelWorld,
    w2: VoxelWorld,
    center: ChunkPos,
    rd: int,
)
    requires
        forall|p: ChunkPos| #[trigger] w1.resident(p) == within_box(p, center, rd),
        forall|p: ChunkPos| #[trigger] w2.resident(p) == within_box(p, center, rd),
    ensures
        forall|p: ChunkPos| #[trigger] w1.resident(p) == w2.resident(p),
{
}

impl Default for VoxelWorld {
    /// The empty world, as `new` builds it.
    fn default() -> (r: VoxelWorld)
        ensures
            r.wf(),
            r.chunks_spec().len() == 0,
            r.render_distance_spec() == 8,
    {
        VoxelWorld::new()
    }
}

} // verus!
