//! Ray-side behaviour: the slab test and the agreement of the two
//! traversals. World units: one voxel is 0.125 units; the library's ray
//! parameter is in voxel units along the (unnormalised) direction.

use voxelray::voxel::{VoxelId, ChunkPos, LocalVoxelPos};
use voxelray::chunk::VoxelChunk;
use voxelray::ray::{Ray, Rat, ray_aabb_intersect, SCALE};
use voxelray::traversal::{ChunkRaytracer, OctreeRaytracer, get_child_index};

fn rat_f64(r: Rat) -> f64 {
    r.num as f64 / r.den as f64
}

#[test]
fn aabb_miss_for_ray_pointing_away() {
    // origin right of the box, moving further right
    let ray = Ray::new(100 * SCALE, 0, 0, 1, 0, 0);
    assert!(ray_aabb_intersect(&ray, 0, -16, -16, 32).is_none());
    // below the box, moving down
    let ray2 = Ray::new(0, -100 * SCALE, 0, 3, -2, 1);
    assert!(ray_aabb_intersect(&ray2, -16, 0, -16, 32).is_none());
}

#[test]
fn aabb_inside_origin_gives_zero_near() {
    let ray = Ray::new(16 * SCALE, 16 * SCALE, 16 * SCALE, 1, 2, 3);
    let (tn, tf) = ray_aabb_intersect(&ray, 0, 0, 0, 32).expect("must hit");
    assert_eq!(tn.num, 0);
    assert!(tf.num > 0);
}

#[test]
fn aabb_exact_interval_on_axis_ray() {
    // from x = -8 voxels toward a box starting at 0: enters at t = 8,
    // leaves at t = 40
    let ray = Ray::new(-8 * SCALE, 512, 512, 1, 0, 0);
    let (tn, tf) = ray_aabb_intersect(&ray, 0, 0, 0, 32).expect("must hit");
    assert!((rat_f64(tn) - 8.0).abs() < 1e-12);
    assert!((rat_f64(tf) - 40.0).abs() < 1e-12);
}

#[test]
fn single_voxel_hit_reports_material_and_face() {
    // chunk at the origin, one voxel of material 7 at local (0,0,0);
    // the ray starts a world unit to the left, at the voxel's centre
    // height: world (-1, 0.0625, 0.0625) is (-8, 0.5, 0.5) in voxels
    let mut chunk = VoxelChunk::new(ChunkPos::new(0, 0, 0));
    chunk.set_voxel(LocalVoxelPos::new(0, 0, 0), VoxelId(7));
    let ray = Ray::new(-8 * SCALE, SCALE / 2, SCALE / 2, 1, 0, 0);
    let hit = ChunkRaytracer::trace_chunk(&ray, &chunk);
    assert!(hit.hit);
    assert_eq!(hit.material_id.0, 7);
    assert_eq!((hit.cx, hit.cy, hit.cz), (0, 0, 0));
    assert_eq!((hit.nx, hit.ny, hit.nz), (-1, 0, 0));
    // the entry parameter is 8 voxels; the hit sits at world x ~ 0 and
    // one world unit from the origin
    let t = rat_f64(hit.t);
    let world_x = -1.0 + t * 0.125;
    assert!(world_x.abs() < 1e-9);
    assert!((t * 0.125 - 1.0).abs() < 1e-9);
    // the octree walk agrees on hit, material and distance
    let oct = OctreeRaytracer::trace_octree(&ray, &chunk.octree, 0, 0, 0);
    assert!(oct.hit);
    assert_eq!(oct.material_id.0, 7);
    assert!((rat_f64(oct.t) - t).abs() * 0.125 < 1e-3);
    // the octree normal is the approximate -x face here as well
    assert_eq!((oct.nx, oct.ny, oct.nz), (-1, 0, 0));
}

#[test]
fn traversals_agree_on_hits() {
    let mut chunk = VoxelChunk::new(ChunkPos::new(0, 0, 0));
    // a small wall and some scattered voxels
    for y in 0..8u32 {
        for z in 0..8u32 {
            chunk.set_voxel(LocalVoxelPos::new(12, y, z), VoxelId(2));
        }
    }
    chunk.set_voxel(LocalVoxelPos::new(3, 3, 3), VoxelId(5));
    chunk.set_voxel(LocalVoxelPos::new(20, 14, 9), VoxelId(6));
    let rays = [
        Ray::new(-4 * SCALE, 2 * SCALE, 2 * SCALE, 5, 1, 1),
        Ray::new(-4 * SCALE, 3 * SCALE + 512, 3 * SCALE + 512, 1, 0, 0),
        Ray::new(2 * SCALE, 40 * SCALE, 2 * SCALE, 1, -2, 0),
        Ray::new(16 * SCALE, 16 * SCALE, 16 * SCALE, -1, -1, -1),
        Ray::new(-8 * SCALE, 512, 512, 1, 1, 1),
        Ray::new(50 * SCALE, 50 * SCALE, 50 * SCALE, 1, 1, 1),
    ];
    for ray in rays.iter() {
        let a = ChunkRaytracer::trace_chunk(ray, &chunk);
        let b = OctreeRaytracer::trace_octree(ray, &chunk.octree, 0, 0, 0);
        assert_eq!(a.hit, b.hit, "hit flags disagree");
        if a.hit {
            assert_eq!(a.material_id.0, b.material_id.0, "materials disagree");
            assert_eq!((a.cx, a.cy, a.cz), (b.cx, b.cy, b.cz), "cells disagree");
            // distances agree within the documented tolerance of
            // 1e-3 world units
            let dir_len = ((ray.dx * ray.dx + ray.dy * ray.dy + ray.dz * ray.dz) as f64).sqrt();
            let da = rat_f64(a.t) * dir_len * 0.125;
            let db = rat_f64(b.t) * dir_len * 0.125;
            assert!((da - db).abs() < 1e-3, "distances disagree: {} vs {}", da, db);
        }
    }
}

#[test]
fn empty_chunk_is_never_hit() {
    let chunk = VoxelChunk::new(ChunkPos::new(0, 0, 0));
    let ray = Ray::new(-8 * SCALE, 512, 512, 1, 0, 0);
    assert!(!ChunkRaytracer::trace_chunk(&ray, &chunk).hit);
    assert!(!OctreeRaytracer::trace_octree(&ray, &chunk.octree, 0, 0, 0).hit);
}

#[test]
fn trace_respects_chunk_offset() {
    // a chunk away from the origin: cells are reported in absolute
    // voxel coordinates
    let mut chunk = VoxelChunk::new(ChunkPos::new(1, 0, 0));
    chunk.set_voxel(LocalVoxelPos::new(0, 16, 16), VoxelId(9));
    let ray = Ray::new(0, 16 * SCALE + 512, 16 * SCALE + 512, 1, 0, 0);
    let hit = ChunkRaytracer::trace_chunk(&ray, &chunk);
    assert!(hit.hit);
    assert_eq!((hit.cx, hit.cy, hit.cz), (32, 16, 16));
    assert_eq!(hit.material_id.0, 9);
    let oct = OctreeRaytracer::trace_octree(&ray, &chunk.octree, 32, 0, 0);
    assert!(oct.hit);
    assert_eq!((oct.cx, oct.cy, oct.cz), (32, 16, 16));
}

#[test]
fn child_index_packs_axis_bits() {
    assert_eq!(get_child_index(0, 0, 0, 1, 1, 1), 0);
    assert_eq!(get_child_index(1, 0, 0, 1, 1, 1), 1);
    assert_eq!(get_child_index(0, 1, 0, 1, 1, 1), 2);
    assert_eq!(get_child_index(0, 0, 1, 1, 1, 1), 4);
    assert_eq!(get_child_index(5, 5, 5, 1, 1, 1), 7);
    assert_eq!(get_child_index(-3, 7, 0, 0, 0, 0), 6);
}

#[test]
fn ray_starting_inside_solid_volume() {
    // a fully filled 4x4x4 block; a ray starting inside it hits at once
    let mut chunk = VoxelChunk::new(ChunkPos::new(0, 0, 0));
    for x in 0..4u32 {
        for y in 0..4u32 {
            for z in 0..4u32 {
                chunk.set_voxel(LocalVoxelPos::new(x, y, z), VoxelId(3));
            }
        }
    }
    let ray = Ray::new(2 * SCALE + 100, 2 * SCALE + 100, 2 * SCALE + 100, 1, 1, 0);
    let hit = ChunkRaytracer::trace_chunk(&ray, &chunk);
    assert!(hit.hit);
    assert_eq!(hit.material_id.0, 3);
    assert!(rat_f64(hit.t) < 1.0);
    let oct = OctreeRaytracer::trace_octree(&ray, &chunk.octree, 0, 0, 0);
    assert!(oct.hit);
    assert_eq!(oct.material_id.0, 3);
}

#[test]
fn negative_direction_walk_hits() {
    // approaching from beyond the chunk's far corner, moving down-left
    let mut chunk = VoxelChunk::new(ChunkPos::new(0, 0, 0));
    chunk.set_voxel(LocalVoxelPos::new(10, 10, 10), VoxelId(4));
    let ray = Ray::new(40 * SCALE, 40 * SCALE + 512 - 30 * SCALE, 10 * SCALE + 512, -1, 0, 0);
    let hit = ChunkRaytracer::trace_chunk(&ray, &chunk);
    assert!(hit.hit);
    assert_eq!((hit.cx, hit.cy, hit.cz), (10, 10, 10));
    assert_eq!((hit.nx, hit.ny, hit.nz), (1, 0, 0));
    let oct = OctreeRaytracer::trace_octree(&ray, &chunk.octree, 0, 0, 0);
    assert!(oct.hit);
    assert_eq!((oct.cx, oct.cy, oct.cz), (10, 10, 10));
}

#[test]
fn first_solid_cell_wins() {
    // two voxels on the ray's line: the nearer one is reported, by both
    // traversals
    let mut chunk = VoxelChunk::new(ChunkPos::new(0, 0, 0));
    chunk.set_voxel(LocalVoxelPos::new(20, 16, 16), VoxelId(2));
    chunk.set_voxel(LocalVoxelPos::new(4, 16, 16), VoxelId(9));
    let ray = Ray::new(-SCALE, 16 * SCALE + 512, 16 * SCALE + 512, 1, 0, 0);
    let hit = ChunkRaytracer::trace_chunk(&ray, &chunk);
    assert!(hit.hit);
    assert_eq!((hit.cx, hit.cy, hit.cz), (4, 16, 16));
    assert_eq!(hit.material_id.0, 9);
    let oct = OctreeRaytracer::trace_octree(&ray, &chunk.octree, 0, 0, 0);
    assert!(oct.hit);
    assert_eq!((oct.cx, oct.cy, oct.cz), (4, 16, 16));
    assert_eq!(oct.material_id.0, 9);
    assert_eq!(rat_f64(hit.t), rat_f64(oct.t));
}
