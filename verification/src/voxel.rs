//! Voxel identifiers and the coordinate model: chunk coordinates, in-chunk
//! voxel coordinates, and the conversions between them.

use vstd::prelude::*;

verus! {

/// Voxels per chunk edge; a chunk is a cube of `CHUNK_SIZE^3` voxels.
pub const CHUNK_SIZE: u32 = 32;

/// Voxels per chunk, `CHUNK_SIZE` cubed.
pub const CHUNK_VOLUME: usize = 32768;

/// Identifier of a voxel's material. The value 0 is reserved for air:
/// the absence of any solid material.
#[derive(Clone, Copy, PartialEq, Eq, Structural, Debug, Hash)]
pub struct VoxelId(pub u32);

impl VoxelId {
    /// True when this id denotes empty space.
    pub fn is_air(self) -> (r: bool)
        ensures
            r == (self.0 == 0),
    {
        self.0 == 0
    }

    /// True when this id denotes a solid material.
    pub fn is_solid(self) -> (r: bool)
        ensures
            r == (self.0 != 0),
    {
        self.0 != 0
    }
}

/// Coordinate of a chunk in the chunk grid. Neighbouring chunks differ by
/// one in a single component.
#[derive(Clone, Copy, PartialEq, Eq, Structural, Debug, Hash)]
pub struct ChunkPos {
    pub x: i32,
    pub y: i32,
    pub z: i32,
}

impl ChunkPos {
    pub fn new(x: i32, y: i32, z: i32) -> (r: ChunkPos)
        ensures
            r == (ChunkPos { x, y, z }),
    {
        ChunkPos { x, y, z }
    }
}

/// Position of a voxel inside a chunk; every component lies in
/// `[0, CHUNK_SIZE)`.
#[derive(Clone, Copy, PartialEq, Eq, Structural, Debug)]
pub struct LocalVoxelPos {
    pub x: u32,
    pub y: u32,
    pub z: u32,
}

impl LocalVoxelPos {
    /// All components in range.
    pub open spec fn wf(self) -> bool {
        self.x < CHUNK_SIZE && self.y < CHUNK_SIZE && self.z < CHUNK_SIZE
    }

    /// Flat row-major index of a local position: x varies fastest, then y,
    /// then z.
    pub open spec fn index_spec(self) -> int {
        self.z * (CHUNK_SIZE * CHUNK_SIZE) + self.y * CHUNK_SIZE + self.x
    }

    pub fn new(x: u32, y: u32, z: u32) -> (r: LocalVoxelPos)
        requires
            x < CHUNK_SIZE,
            y < CHUNK_SIZE,
            z < CHUNK_SIZE,
        ensures
            r == (LocalVoxelPos { x, y, z }),
            r.wf(),
    {
        LocalVoxelPos { x, y, z }
    }

    /// Flat array index of this position, row-major.
    pub fn to_index(self) -> (r: usize)
        requires
            self.wf(),
        ensures
            r == self.index_spec(),
            r < CHUNK_VOLUME,
    {
        proof {
            assert(self.z * 1024 + self.y * 32 + self.x < 32768
                && self.z * (CHUNK_SIZE * CHUNK_SIZE) + self.y * CHUNK_SIZE + self.x
                    == self.z * 1024 + self.y * 32 + self.x)
                by (nonlinear_arith)
                requires self.x < 32 && self.y < 32 && self.z < 32 && CHUNK_SIZE == 32;
        }
        (self.z as usize) * 1024 + (self.y as usize) * 32 + (self.x as usize)
    }

    /// Inverse of `to_index`: the local position with the given flat index.
    pub fn from_index(index: usize) -> (r: LocalVoxelPos)
        requires
            index < CHUNK_VOLUME,
        ensures
            r.wf(),
            r.index_spec() == index,
    {
        let z = (index / ((CHUNK_SIZE * CHUNK_SIZE) as usize)) as u32;
        let y = ((index % ((CHUNK_SIZE * CHUNK_SIZE) as usize)) / (CHUNK_SIZE as usize)) as u32;
        let x = (index % (CHUNK_SIZE as usize)) as u32;
        proof {
            lemma_index_decomposition(index as int);
        }
        LocalVoxelPos { x, y, z }
    }
}

proof fn lemma_index_decomposition(i: int)
    requires
        0 <= i < 32768,
    ensures
        (i / 1024) * 1024 + ((i % 1024) / 32) * 32 + i % 32 == i,
        0 <= i / 1024 < 32,
        0 <= (i % 1024) / 32 < 32,
        0 <= i % 32 < 32,
{
    assert((i / 1024) * 1024 + ((i % 1024) / 32) * 32 + i % 32 == i
        && 0 <= i / 1024 < 32 && 0 <= (i % 1024) / 32 < 32 && 0 <= i % 32 < 32)
        by (nonlinear_arith)
        requires 0 <= i < 32768;
}

/// The chunk coordinate holding a world voxel coordinate: the floor of
/// division by the chunk edge.
pub open spec fn chunk_coord_of(w: int) -> int {
    w / 32
}

/// The in-chunk coordinate of a world voxel coordinate.
pub open spec fn local_coord_of(w: int) -> int {
    w % 32
}

/// Splits a world voxel coordinate (a position on the global voxel lattice)
/// into the chunk holding it and the position within that chunk. The chunk
/// coordinate is the floor of division by `CHUNK_SIZE`, so the identity
/// `chunk * CHUNK_SIZE + local == world` holds on every axis.
pub fn world_to_chunk_and_local(wx: i64, wy: i64, wz: i64) -> (r: (ChunkPos, LocalVoxelPos))
    requires
        -0x1000000000 <= wx < 0x1000000000,
        -0x1000000000 <= wy < 0x1000000000,
        -0x1000000000 <= wz < 0x1000000000,
    ensures
        r.1.wf(),
        r.0.x * CHUNK_SIZE + r.1.x == wx,
        r.0.y * CHUNK_SIZE + r.1.y == wy,
        r.0.z * CHUNK_SIZE + r.1.z == wz,
        r.0.x == chunk_coord_of(wx as int) && r.1.x == local_coord_of(wx as int),
        r.0.y == chunk_coord_of(wy as int) && r.1.y == local_coord_of(wy as int),
        r.0.z == chunk_coord_of(wz as int) && r.1.z == local_coord_of(wz as int),
{
    let (cx, lx) = split_axis(wx);
    let (cy, ly) = split_axis(wy);
    let (cz, lz) = split_axis(wz);
    (ChunkPos { x: cx, y: cy, z: cz }, LocalVoxelPos { x: lx, y: ly, z: lz })
}

/// Floor-divides one world axis by the chunk edge, returning the chunk
/// coordinate and the in-chunk remainder.
fn split_axis(w: i64) -> (r: (i32, u32))
    requires
        -0x1000000000 <= w < 0x1000000000,
    ensures
        r.1 < CHUNK_SIZE,
        r.0 * CHUNK_SIZE + r.1 == w,
        r.0 == w as int / 32,
        r.1 == w as int % 32,
{
    let q: i64 = if w >= 0 {
        w / 32
    } else {
        -((-w + 31) / 32)
    };
    let rem: i64 = w - q * 32;
    proof {
        if w >= 0 {
            assert(w / 32 * 32 + w % 32 == w && 0 <= w % 32 < 32 && w - w / 32 * 32 == w % 32
                && 0 <= w / 32 < 0x80000000)
                by (nonlinear_arith)
                requires 0 <= w < 0x1000000000;
        } else {
            let m: int = -(w as int);
            assert((m + 31) / 32 * 32 - m < 32 && 0 <= (m + 31) / 32 * 32 - m
                && 0 < (m + 31) / 32 <= 0x80000000)
                by (nonlinear_arith)
                requires 0 < m <= 0x1000000000;
        }
    }
    proof {
        assert(q == w as int / 32 && rem == w as int % 32) by (nonlinear_arith)
            requires q * 32 + rem == w && 0 <= rem < 32;
    }
    (q as i32, rem as u32)
}

} // verus!
