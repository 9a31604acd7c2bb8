//! Storage-side behaviour: octree reads and writes, chunk generation, and
//! world streaming.

use voxelray::voxel::{VoxelId, ChunkPos, LocalVoxelPos, world_to_chunk_and_local, CHUNK_VOLUME};
use voxelray::svo::{OctreeNode, SparseVoxelOctree};
use voxelray::chunk::VoxelChunk;
use voxelray::world::VoxelWorld;

/// One all-air sampled field per chunk position of the box around
/// `center`, as `update_around_player` expects for its missing positions.
fn box_fields(center: ChunkPos, rd: i32) -> Vec<(ChunkPos, Vec<VoxelId>)> {
    let mut fields = Vec::new();
    for dx in -rd..=rd {
        for dy in -rd..=rd {
            for dz in -rd..=rd {
                fields.push((
                    ChunkPos::new(center.x + dx, center.y + dy, center.z + dz),
                    vec![VoxelId(0); CHUNK_VOLUME],
                ));
            }
        }
    }
    fields
}

#[test]
fn set_then_get_returns_written_id() {
    let mut svo = SparseVoxelOctree::new();
    for (p, v) in [
        ((0u32, 0u32, 0u32), 7u32),
        ((31, 31, 31), 1),
        ((5, 6, 7), 250),
        ((16, 0, 31), 3),
    ] {
        let pos = LocalVoxelPos::new(p.0, p.1, p.2);
        svo.set_voxel(pos, VoxelId(v));
        assert_eq!(svo.get_voxel(pos).0, v);
    }
    // writing air over a stored voxel reads back as air
    let pos = LocalVoxelPos::new(5, 6, 7);
    svo.set_voxel(pos, VoxelId(0));
    assert_eq!(svo.get_voxel(pos).0, 0);
}

#[test]
fn set_air_on_untouched_position_is_noop() {
    let mut svo = SparseVoxelOctree::new();
    assert_eq!(svo.node_count(), 1);
    svo.set_voxel(LocalVoxelPos::new(12, 3, 29), VoxelId(0));
    assert_eq!(svo.node_count(), 1);
    // also after some other voxel exists elsewhere
    svo.set_voxel(LocalVoxelPos::new(0, 0, 0), VoxelId(9));
    let n = svo.node_count();
    svo.set_voxel(LocalVoxelPos::new(31, 31, 31), VoxelId(0));
    assert_eq!(svo.node_count(), n);
}

#[test]
fn fresh_octree_is_empty_single_node() {
    let svo = SparseVoxelOctree::new();
    assert_eq!(svo.node_count(), 1);
    let chunk = VoxelChunk::new(ChunkPos::new(0, 0, 0));
    assert!(chunk.is_empty());
    assert_eq!(chunk.octree.node_count(), 1);
}

#[test]
fn chunk_write_marks_dirty_and_fills() {
    let mut chunk = VoxelChunk::new(ChunkPos::new(2, -1, 4));
    chunk.is_dirty = false;
    chunk.set_voxel(LocalVoxelPos::new(1, 2, 3), VoxelId(42));
    assert!(chunk.is_dirty);
    assert!(!chunk.is_empty());
    assert_eq!(chunk.get_voxel(LocalVoxelPos::new(1, 2, 3)).0, 42);
    assert_eq!(chunk.get_voxel(LocalVoxelPos::new(9, 9, 9)).0, 0);
}

#[test]
fn generate_terrain_fills_solids_and_is_guarded() {
    let mut field = vec![VoxelId(0); CHUNK_VOLUME];
    // a 2-voxel floor of stone at y == 0, x fastest in the flat order
    for z in 0..32usize {
        for x in 0..32usize {
            field[z * 1024 + x] = VoxelId(1);
        }
    }
    field[5 * 1024 + 3 * 32 + 7] = VoxelId(4); // one grass voxel in the air
    let mut chunk = VoxelChunk::new(ChunkPos::new(0, 0, 0));
    chunk.generate_terrain(&field);
    assert!(chunk.is_generated);
    assert!(chunk.is_dirty);
    assert_eq!(chunk.get_voxel(LocalVoxelPos::new(0, 0, 0)).0, 1);
    assert_eq!(chunk.get_voxel(LocalVoxelPos::new(31, 0, 31)).0, 1);
    assert_eq!(chunk.get_voxel(LocalVoxelPos::new(7, 3, 5)).0, 4);
    assert_eq!(chunk.get_voxel(LocalVoxelPos::new(7, 4, 5)).0, 0);
    // a second call is a no-op even with different data
    let other = vec![VoxelId(9); CHUNK_VOLUME];
    chunk.generate_terrain(&other);
    assert_eq!(chunk.get_voxel(LocalVoxelPos::new(7, 4, 5)).0, 0);
}

#[test]
fn update_around_player_is_idempotent() {
    let mut world = VoxelWorld::new();
    world.set_render_distance(2);
    let center = ChunkPos::new(3, 1, -2);
    world.update_around_player(center, &box_fields(center, 2));
    let n1 = world.chunk_count();
    // nothing is missing the second time, so no fields are needed
    world.update_around_player(center, &Vec::new());
    assert_eq!(world.chunk_count(), n1);
    for dx in -2..=2i32 {
        for dy in -2..=2i32 {
            for dz in -2..=2i32 {
                assert!(world.get_chunk(ChunkPos::new(3 + dx, 1 + dy, -2 + dz)).is_some());
            }
        }
    }
}

#[test]
fn update_around_player_keeps_exact_box() {
    let mut world = VoxelWorld::new();
    world.set_render_distance(1);
    world.update_around_player(ChunkPos::new(0, 0, 0), &box_fields(ChunkPos::new(0, 0, 0), 1));
    assert_eq!(world.chunk_count(), 27);
    for dx in -1..=1i32 {
        for dy in -1..=1i32 {
            for dz in -1..=1i32 {
                let c = world.get_chunk(ChunkPos::new(dx, dy, dz)).expect("resident");
                // streaming generates every chunk it brings in
                assert!(c.is_generated);
            }
        }
    }
    assert!(world.get_chunk(ChunkPos::new(2, 0, 0)).is_none());
    // moving the viewpoint evicts what the box no longer covers
    world.update_around_player(ChunkPos::new(5, 0, 0), &box_fields(ChunkPos::new(5, 0, 0), 1));
    assert_eq!(world.chunk_count(), 27);
    assert!(world.get_chunk(ChunkPos::new(0, 0, 0)).is_none());
    assert!(world.get_chunk(ChunkPos::new(4, 1, -1)).is_some());
}

#[test]
fn update_preserves_resident_chunk_content() {
    let mut world = VoxelWorld::new();
    world.set_render_distance(1);
    world.update_around_player(ChunkPos::new(0, 0, 0), &box_fields(ChunkPos::new(0, 0, 0), 1));
    world.set_voxel(1, 2, 3, VoxelId(11));
    world.update_around_player(ChunkPos::new(1, 0, 0), &box_fields(ChunkPos::new(1, 0, 0), 1));
    assert_eq!(world.get_voxel(1, 2, 3).0, 11);
}

#[test]
fn get_voxel_on_unloaded_chunk_is_air() {
    let world = VoxelWorld::new();
    assert_eq!(world.get_voxel(100, 100, 100).0, 0);
    let mut world = VoxelWorld::new();
    world.set_render_distance(0);
    world.update_around_player(ChunkPos::new(0, 0, 0), &box_fields(ChunkPos::new(0, 0, 0), 0));
    // outside the one resident chunk
    assert_eq!(world.get_voxel(40, 0, 0).0, 0);
}

#[test]
fn set_voxel_on_unloaded_chunk_is_dropped() {
    let mut world = VoxelWorld::new();
    world.set_voxel(8, 8, 8, VoxelId(5));
    assert_eq!(world.chunk_count(), 0);
    assert_eq!(world.get_voxel(8, 8, 8).0, 0);
}

#[test]
fn world_voxel_roundtrip_in_loaded_chunk() {
    let mut world = VoxelWorld::new();
    world.set_render_distance(1);
    world.update_around_player(ChunkPos::new(0, 0, 0), &box_fields(ChunkPos::new(0, 0, 0), 1));
    world.set_voxel(-1, -32, 31, VoxelId(77));
    assert_eq!(world.get_voxel(-1, -32, 31).0, 77);
    assert_eq!(world.get_voxel(-2, -32, 31).0, 0);
}

#[test]
fn local_pos_index_roundtrip() {
    for &(x, y, z) in &[(0u32, 0u32, 0u32), (31, 31, 31), (1, 2, 3), (30, 0, 15)] {
        let p = LocalVoxelPos::new(x, y, z);
        let i = p.to_index();
        let q = LocalVoxelPos::from_index(i);
        assert_eq!((q.x, q.y, q.z), (x, y, z));
    }
    assert_eq!(LocalVoxelPos::new(1, 2, 3).to_index(), 3 * 1024 + 2 * 32 + 1);
}

#[test]
fn world_to_chunk_and_local_splits_negatives() {
    let (c, l) = world_to_chunk_and_local(-1, 0, 32);
    assert_eq!((c.x, c.y, c.z), (-1, 0, 1));
    assert_eq!((l.x, l.y, l.z), (31, 0, 0));
    let (c2, l2) = world_to_chunk_and_local(-32, -33, 63);
    assert_eq!((c2.x, c2.y, c2.z), (-1, -2, 1));
    assert_eq!((l2.x, l2.y, l2.z), (0, 31, 31));
}

#[test]
fn shared_cell_keeps_last_written_id() {
    // the eight voxels of one 2x2x2 cell share one stored id: the most
    // recent write wins for all of the cell's recorded voxels
    let mut svo = SparseVoxelOctree::new();
    svo.set_voxel(LocalVoxelPos::new(0, 0, 0), VoxelId(3));
    svo.set_voxel(LocalVoxelPos::new(1, 0, 0), VoxelId(8));
    assert_eq!(svo.get_voxel(LocalVoxelPos::new(1, 0, 0)).0, 8);
    assert_eq!(svo.get_voxel(LocalVoxelPos::new(0, 0, 0)).0, 8);
    // an unwritten voxel of the cell still reads as air
    assert_eq!(svo.get_voxel(LocalVoxelPos::new(0, 1, 0)).0, 0);
    // a voxel of a different cell is untouched
    svo.set_voxel(LocalVoxelPos::new(4, 4, 4), VoxelId(9));
    assert_eq!(svo.get_voxel(LocalVoxelPos::new(1, 0, 0)).0, 8);
}

#[test]
fn clear_resets_octree() {
    let mut svo = SparseVoxelOctree::new();
    svo.set_voxel(LocalVoxelPos::new(10, 20, 30), VoxelId(2));
    assert!(svo.node_count() > 1);
    svo.clear();
    assert_eq!(svo.node_count(), 1);
    assert_eq!(svo.get_voxel(LocalVoxelPos::new(10, 20, 30)).0, 0);
}

#[test]
fn scattered_writes_all_read_back() {
    // many writes across octants force the pool to regroup children
    // repeatedly; every cell must still read back its last write
    let mut svo = SparseVoxelOctree::new();
    let mut expected = Vec::new();
    let mut seed: u64 = 11;
    for i in 0..200u32 {
        seed = seed.wrapping_mul(6364136223846793005).wrapping_add(1442695040888963407);
        let x = ((seed >> 33) % 16) as u32 * 2; // even coords: distinct cells
        let y = ((seed >> 17) % 16) as u32 * 2;
        let z = ((seed >> 3) % 16) as u32 * 2;
        let v = 1 + (i % 250);
        svo.set_voxel(LocalVoxelPos::new(x, y, z), VoxelId(v));
        expected.retain(|&(px, py, pz, _): &(u32, u32, u32, u32)| (px, py, pz) != (x, y, z));
        expected.push((x, y, z, v));
    }
    for &(x, y, z, v) in &expected {
        assert_eq!(svo.get_voxel(LocalVoxelPos::new(x, y, z)).0, v);
    }
}

#[test]
fn node_mask_operations() {
    let mut node = OctreeNode::new_empty();
    assert_eq!(node.child_mask, 0);
    assert!(!node.has_child(3));
    node.set_child(3, true);
    assert!(node.has_child(3));
    assert!(node.is_leaf(3));
    node.set_child(5, false);
    assert!(node.has_child(5));
    assert!(!node.is_leaf(5));
    node.remove_child(3);
    assert!(!node.has_child(3));
    assert!(!node.is_leaf(3));
    assert!(node.has_child(5));
    let leaf = OctreeNode::new_leaf(VoxelId(9));
    assert_eq!(leaf.voxel_id, 9);
    assert_eq!(leaf.child_mask, 0);
}

#[test]
fn single_write_allocates_one_node_per_level() {
    // a first voxel needs the root plus one child per level down to the
    // voxel-pair node: five pool slots in all
    let mut svo = SparseVoxelOctree::new();
    svo.set_voxel(LocalVoxelPos::new(0, 0, 0), VoxelId(1));
    assert_eq!(svo.node_count(), 5);
    // a write into an occupied pair-cell allocates nothing further
    svo.set_voxel(LocalVoxelPos::new(1, 1, 1), VoxelId(2));
    assert_eq!(svo.node_count(), 5);
}

#[test]
fn update_generates_resident_chunks_from_fields() {
    // streaming itself generates: a solid entry in a supplied field is
    // readable right after the update
    let mut world = VoxelWorld::new();
    world.set_render_distance(0);
    let mut field = vec![VoxelId(0); CHUNK_VOLUME];
    field[3 * 1024 + 2 * 32 + 1] = VoxelId(7); // local (1, 2, 3)
    world.update_around_player(ChunkPos::new(0, 0, 0), &vec![(ChunkPos::new(0, 0, 0), field)]);
    let chunk = world.get_chunk(ChunkPos::new(0, 0, 0)).expect("resident");
    assert!(chunk.is_generated);
    assert!(chunk.is_dirty);
    assert_eq!(world.get_voxel(1, 2, 3).0, 7);
    assert_eq!(world.get_voxel(0, 0, 0).0, 0);
}
