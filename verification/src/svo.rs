//! The sparse voxel octree: a node pool with a free list, storing one voxel
//! id per occupied position of a chunk-sized cube.
//!
//! Nodes are addressed by index into a flat pool; index 0 is the root and is
//! never freed. An internal node keeps its children in one contiguous block:
//! the child for octant `c` sits at `child_ptr` plus the number of occupied
//! octants below `c`. Nodes of size 2 do not allocate children at all: their
//! occupied octants are single voxels, recorded in the mask pair, and the
//! voxel id of the node stands for all of them (the most recent write wins).
//!
//! The specification models the pool as a partial lookup function from local
//! coordinates to a stored id: `None` where no leaf octant is recorded (air
//! by absence), `Some(id)` where one is. All operations are specified, and
//! verified, against that model.

use vstd::prelude::*;
use crate::voxel::{VoxelId, LocalVoxelPos, CHUNK_SIZE};

verus! {

/// One node of the pool. For a node of size 2 the occupied octants are
/// voxels and `leaf_mask` mirrors `child_mask`; for larger nodes
/// `leaf_mask` is zero and each occupied octant has a child node in the
/// pool.
#[derive(Clone, Copy, PartialEq, Eq, Structural, Debug)]
pub struct OctreeNode {
    /// Bit `c` is set when octant `c` is occupied.
    pub child_mask: u32,
    /// Bit `c` is set when octant `c` is a voxel stored inline rather than
    /// a child node.
    pub leaf_mask: u32,
    /// Pool index of the first child; children of occupied octants follow
    /// contiguously in octant order.
    pub child_ptr: usize,
    /// Stored id when this node's occupied octants are voxels.
    pub voxel_id: u32,
}

/// True when bit `i` of `m` is set.
pub open spec fn nth_bit(m: u32, i: u32) -> bool {
    m & (1u32 << i) != 0
}

/// How many bits of `m` are set at positions below `c`.
pub open spec fn count_below(m: u32, c: u32) -> nat
    decreases c,
{
    if c == 0 {
        0
    } else {
        count_below(m, (c - 1) as u32) + if nth_bit(m, (c - 1) as u32) { 1nat } else { 0nat }
    }
}

/// The octant of a point with coordinates relative to a node whose half
/// size is `half`: bit 0, 1, 2 say whether x, y, z lie in the upper half.
pub open spec fn octant(x: int, y: int, z: int, half: int) -> u32 {
    ((if x >= half { 1int } else { 0int })
        + (if y >= half { 2int } else { 0int })
        + (if z >= half { 4int } else { 0int })) as u32
}

/// One coordinate rebased into the child octant.
pub open spec fn reduce(x: int, half: int) -> int {
    if x >= half { x - half } else { x }
}

/// Pool index of the child of node `i` for octant `c`.
pub open spec fn child_slot(nodes: Seq<OctreeNode>, i: int, c: u32) -> int {
    nodes[i].child_ptr + count_below(nodes[i].child_mask, c)
}

/// The node sizes that occur in a chunk-sized octree.
pub open spec fn valid_size(s: int) -> bool {
    s == 2 || s == 4 || s == 8 || s == 16 || s == 32
}

/// Indices reachable from node `i` of size `s`: the node itself and, for
/// sizes above 2, everything reachable from its children.
pub open spec fn desc(nodes: Seq<OctreeNode>, i: int, s: int) -> Set<int>
    decreases s, 9int,
{
    if s <= 2 {
        set!{i}
    } else {
        set!{i}.union(desc_kids(nodes, i, s, 8))
    }
}

/// Indices reachable from the children of node `i` for octants below `cm`.
pub open spec fn desc_kids(nodes: Seq<OctreeNode>, i: int, s: int, cm: u32) -> Set<int>
    decreases s, cm,
{
    if cm == 0 || s <= 2 {
        Set::empty()
    } else {
        desc_kids(nodes, i, s, (cm - 1) as u32).union(
            if nth_bit(nodes[i].child_mask, (cm - 1) as u32) {
                desc(nodes, child_slot(nodes, i, (cm - 1) as u32), s / 2)
            } else {
                Set::empty()
            },
        )
    }
}

/// Structural soundness of the subtree rooted at node `i` of size `s`:
/// masks are consistent with the size, every occupied octant's child slot
/// is a well-formed subtree, distinct children do not share pool indices,
/// and no child subtree reaches back to `i`.
pub open spec fn wf_node(nodes: Seq<OctreeNode>, i: int, s: int) -> bool
    decreases s, 9int,
{
    &&& 0 <= i < nodes.len()
    &&& if s <= 2 {
        nodes[i].leaf_mask == nodes[i].child_mask
    } else {
        &&& nodes[i].leaf_mask == 0
        &&& forall|c: u32|
            c < 8 && nth_bit(nodes[i].child_mask, c) ==> wf_node(
                nodes,
                #[trigger] child_slot(nodes, i, c),
                s / 2,
            )
        &&& forall|c: u32|
            c < 8 && nth_bit(nodes[i].child_mask, c) ==> !(#[trigger] desc(
                nodes,
                child_slot(nodes, i, c),
                s / 2,
            )).contains(i)
        &&& forall|c1: u32, c2: u32|
            c1 < 8 && c2 < 8 && c1 != c2 && nth_bit(nodes[i].child_mask, c1) && nth_bit(
                nodes[i].child_mask,
                c2,
            ) ==> (#[trigger] desc(nodes, child_slot(nodes, i, c1), s / 2)).disjoint(
                #[trigger] desc(nodes, child_slot(nodes, i, c2), s / 2),
            )
    }
}

/// The id stored for a point of the subtree rooted at node `i` of size `s`,
/// with coordinates relative to that node; `None` where no voxel octant is
/// recorded on the path.
pub open spec fn lookup(nodes: Seq<OctreeNode>, i: int, s: int, x: int, y: int, z: int) -> Option<
    u32,
>
    decreases s,
{
    if s <= 2 {
        if nth_bit(nodes[i].child_mask, octant(x, y, z, 1)) {
            Some(nodes[i].voxel_id)
        } else {
            None
        }
    } else {
        let h = s / 2;
        let c = octant(x, y, z, h);
        if nth_bit(nodes[i].child_mask, c) {
            lookup(nodes, child_slot(nodes, i, c), h, reduce(x, h), reduce(y, h), reduce(z, h))
        } else {
            None
        }
    }
}

/// Pool slots a write can append per level: regrouping a node's children
/// into a block with one more slot appends at most a block of eight.
pub open spec fn pool_growth_bound(s: int) -> int
    decreases s,
{
    if s <= 2 {
        0
    } else {
        8 + pool_growth_bound(s / 2)
    }
}

/// Live nodes a write can add per level: each level above the leaf pairs
/// allocates at most one new child, whatever slots the regrouping moves
/// through, so the pool minus the free list grows by at most one there.
pub open spec fn live_growth_bound(s: int) -> int
    decreases s,
{
    if s <= 2 {
        0
    } else {
        1 + live_growth_bound(s / 2)
    }
}

proof fn lemma_growth_bounds_nonneg(s: int)
    ensures
        pool_growth_bound(s) >= 0,
        live_growth_bound(s) >= 0,
    decreases s,
{
    if s > 2 {
        lemma_growth_bounds_nonneg(s / 2);
    }
}

/// Whether the subtree records a solid voxel at the given relative
/// coordinates: an octant on the path is occupied and the stored id is
/// not air.
pub open spec fn stores_solid(
    nodes: Seq<OctreeNode>,
    i: int,
    s: int,
    x: int,
    y: int,
    z: int,
) -> bool {
    match lookup(nodes, i, s, x, y, z) {
        Some(v) => v != 0,
        None => false,
    }
}

impl OctreeNode {
    /// The node with no occupied octants and the air id.
    pub open spec fn empty_spec() -> OctreeNode {
        OctreeNode { child_mask: 0, leaf_mask: 0, child_ptr: 0, voxel_id: 0 }
    }

    pub fn new_empty() -> (r: OctreeNode)
        ensures
            r == OctreeNode::empty_spec(),
    {
        OctreeNode { child_mask: 0, leaf_mask: 0, child_ptr: 0, voxel_id: 0 }
    }

    pub fn new_leaf(voxel_id: VoxelId) -> (r: OctreeNode)
        ensures
            r == (OctreeNode { child_mask: 0, leaf_mask: 0, child_ptr: 0, voxel_id: voxel_id.0 }),
    {
        OctreeNode { child_mask: 0, leaf_mask: 0, child_ptr: 0, voxel_id: voxel_id.0 }
    }

    /// Whether octant `child_index` is occupied.
    pub fn has_child(&self, child_index: u32) -> (r: bool)
        requires
            child_index < 8,
        ensures
            r == nth_bit(self.child_mask, child_index),
    {
        (self.child_mask & (1u32 << child_index)) != 0
    }

    /// Whether octant `child_index` is an inline voxel.
    pub fn is_leaf(&self, child_index: u32) -> (r: bool)
        requires
            child_index < 8,
        ensures
            r == nth_bit(self.leaf_mask, child_index),
    {
        (self.leaf_mask & (1u32 << child_index)) != 0
    }

    /// Marks octant `child_index` occupied, as an inline voxel when
    /// `is_leaf` is set and as a child node otherwise.
    pub fn set_child(&mut self, child_index: u32, is_leaf: bool)
        requires
            child_index < 8,
        ensures
            final(self).child_mask == (old(self).child_mask | (1u32 << child_index)),
            final(self).leaf_mask == if is_leaf {
                old(self).leaf_mask | (1u32 << child_index)
            } else {
                old(self).leaf_mask & !(1u32 << child_index)
            },
            final(self).child_ptr == old(self).child_ptr,
            final(self).voxel_id == old(self).voxel_id,
    {
        let mask = 1u32 << child_index;
        self.child_mask = self.child_mask | mask;
        if is_leaf {
            self.leaf_mask = self.leaf_mask | mask;
        } else {
            self.leaf_mask = self.leaf_mask & !mask;
        }
    }

    /// Marks octant `child_index` unoccupied.
    pub fn remove_child(&mut self, child_index: u32)
        requires
            child_index < 8,
        ensures
            final(self).child_mask == (old(self).child_mask & !(1u32 << child_index)),
            final(self).leaf_mask == (old(self).leaf_mask & !(1u32 << child_index)),
            final(self).child_ptr == old(self).child_ptr,
            final(self).voxel_id == old(self).voxel_id,
    {
        let mask = !(1u32 << child_index);
        self.child_mask = self.child_mask & mask;
        self.leaf_mask = self.leaf_mask & mask;
    }
}

/// The octree: a pool of nodes rooted at index 0, and the free list of
/// reclaimed pool indices.
#[derive(Debug, Clone)]
pub struct SparseVoxelOctree {
    nodes: Vec<OctreeNode>,
    free_indices: Vec<usize>,
    root_size: u32,
}

impl SparseVoxelOctree {
    /// The node pool as the specification sees it.
    pub closed spec fn nodes_spec(self) -> Seq<OctreeNode> {
        self.nodes@
    }

    /// The free list as the specification sees it.
    pub closed spec fn free_spec(self) -> Seq<usize> {
        self.free_indices@
    }

    /// The stored id at a local position, `None` where air by absence.
    pub open spec fn voxel_at(self, x: int, y: int, z: int) -> Option<u32> {
        lookup(self.nodes_spec(), 0, CHUNK_SIZE as int, x, y, z)
    }

    /// The id read back at a local position: the stored id, or 0 where
    /// none is recorded.
    pub open spec fn value_at(self, x: int, y: int, z: int) -> u32 {
        match self.voxel_at(x, y, z) {
            Some(v) => v,
            None => 0,
        }
    }

    /// Well-formedness: the root subtree is structurally sound and the
    /// free list holds distinct, unreachable, non-root indices of the
    /// pool.
    pub open spec fn wf(self) -> bool {
        &&& self.nodes_spec().len() >= 1
        &&& self.root_size_spec() == CHUNK_SIZE
        &&& wf_node(self.nodes_spec(), 0, CHUNK_SIZE as int)
        &&& forall|k: int|
            0 <= k < self.free_spec().len() ==> 0 < #[trigger] self.free_spec()[k]
                < self.nodes_spec().len() && !desc(self.nodes_spec(), 0, CHUNK_SIZE as int).contains(
                self.free_spec()[k] as int,
            )
        &&& forall|k1: int, k2: int|
            0 <= k1 < k2 < self.free_spec().len() ==> #[trigger] self.free_spec()[k1]
                != #[trigger] self.free_spec()[k2]
    }

    /// The stored root size; always the chunk edge for a well-formed tree.
    pub closed spec fn root_size_spec(self) -> u32 {
        self.root_size
    }

    pub fn new() -> (r: SparseVoxelOctree)
        ensures
            r.wf(),
            r.nodes_spec().len() == 1,
            r.nodes_spec()[0] == OctreeNode::empty_spec(),
            r.free_spec().len() == 0,
            forall|x: int, y: int, z: int| #[trigger] r.voxel_at(x, y, z) is None,
    {
        let mut nodes: Vec<OctreeNode> = Vec::new();
        nodes.push(OctreeNode::new_empty());
        let r = SparseVoxelOctree { nodes, free_indices: Vec::new(), root_size: CHUNK_SIZE };
        proof {
            lemma_empty_node_wf(r.nodes@, 0, CHUNK_SIZE as int);
            assert forall|x: int, y: int, z: int| #[trigger] r.voxel_at(x, y, z) is None by {
                lemma_empty_node_lookup(r.nodes@, 0, CHUNK_SIZE as int, x, y, z);
            }
        }
        r
    }

    /// Drops every stored voxel, returning to a pool of one empty root.
    pub fn clear(&mut self)
        ensures
            final(self).wf(),
            final(self).nodes_spec().len() == 1,
            final(self).nodes_spec()[0] == OctreeNode::empty_spec(),
            final(self).free_spec().len() == 0,
            forall|x: int, y: int, z: int| #[trigger] final(self).voxel_at(x, y, z) is None,
    {
        self.nodes.clear();
        self.nodes.push(OctreeNode::new_empty());
        self.free_indices.clear();
        self.root_size = CHUNK_SIZE;
        proof {
            lemma_empty_node_wf(self.nodes@, 0, CHUNK_SIZE as int);
            assert forall|x: int, y: int, z: int| #[trigger] self.voxel_at(x, y, z) is None by {
                lemma_empty_node_lookup(self.nodes@, 0, CHUNK_SIZE as int, x, y, z);
            }
        }
    }

    /// Read-only view of the pool for traversal; index 0 is the root.
    pub fn get_nodes(&self) -> (r: &Vec<OctreeNode>)
        ensures
            r@ == self.nodes_spec(),
    {
        &self.nodes
    }

    /// Number of pool slots, free-list slots included.
    pub fn node_count(&self) -> (r: usize)
        ensures
            r == self.nodes_spec().len(),
    {
        self.nodes.len()
    }

    /// Takes a slot for a new node: the most recently freed index when one
    /// exists, a fresh slot at the end of the pool otherwise. The slot is
    /// reset to the empty node.
    fn allocate_node(&mut self) -> (idx: usize)
        requires
            old(self).nodes@.len() >= 1,
            forall|k: int|
                0 <= k < old(self).free_indices@.len() ==> 0 < #[trigger] old(self).free_indices@[k] < old(self).nodes@.len(),
        ensures
            0 < idx < final(self).nodes@.len(),
            final(self).nodes@.len() >= old(self).nodes@.len(),
            final(self).nodes@[idx as int] == OctreeNode::empty_spec(),
            forall|j: int|
                0 <= j < old(self).nodes@.len() && j != idx ==> final(self).nodes@[j] == old(self).nodes@[j],
            (old(self).free_indices@.len() > 0 && idx == old(self).free_indices@[old(self).free_indices@.len() - 1] && final(self).free_indices@ == old(self).free_indices@.drop_last() && final(self).nodes@.len() == old(self).nodes@.len()) || (
            old(self).free_indices@.len() == 0 && idx == old(self).nodes@.len() && final(self).free_indices@ == old(self).free_indices@ && final(self).nodes@.len() == old(self).nodes@.len() + 1),
            final(self).root_size == old(self).root_size,
    {
        match self.free_indices.pop() {
            Some(index) => {
                self.nodes[index] = OctreeNode::new_empty();
                index
            },
            None => {
                let index = self.nodes.len();
                self.nodes.push(OctreeNode::new_empty());
                index
            },
        }
    }

    /// Returns a slot to the free list and resets it to the empty node.
    /// The caller warrants the slot is not reachable and not already free.
    fn deallocate_node(&mut self, index: usize)
        requires
            0 < index < old(self).nodes@.len(),
            !free_set(old(self).free_spec()).contains(index as int),
            forall|k1: int, k2: int|
                0 <= k1 < k2 < old(self).free_indices@.len() ==> #[trigger] old(self).free_indices@[k1] != #[trigger] old(self).free_indices@[k2],
        ensures
            final(self).nodes@ == old(self).nodes@.update(
                index as int,
                OctreeNode::empty_spec(),
            ),
            final(self).free_indices@ == old(self).free_indices@.push(index),
            forall|k1: int, k2: int|
                0 <= k1 < k2 < final(self).free_indices@.len() ==> #[trigger] final(self).free_indices@[k1] != #[trigger] final(self).free_indices@[k2],
            final(self).root_size == old(self).root_size,
    {
        self.nodes[index] = OctreeNode::new_empty();
        self.free_indices.push(index);
        proof {
            assert forall|k1: int, k2: int|
                0 <= k1 < k2 < self.free_indices@.len() implies #[trigger] self.free_indices@[k1]
                != #[trigger] self.free_indices@[k2] by {
                if k2 == self.free_indices@.len() - 1 {
                    assert(free_set(old(self).free_spec()).contains(
                        old(self).free_indices@[k1] as int,
                    ));
                }
            }
        }
    }

    /// Reads the voxel id at a local position: the stored id where one is
    /// recorded, air otherwise.
    pub fn get_voxel(&self, pos: LocalVoxelPos) -> (r: VoxelId)
        requires
            self.wf(),
            pos.wf(),
        ensures
            r.0 == self.value_at(pos.x as int, pos.y as int, pos.z as int),
    {
        VoxelId(self.get_rec(0, CHUNK_SIZE, pos.x, pos.y, pos.z))
    }

    /// Descends from node `i` of size `s` to the octant holding the given
    /// relative coordinates.
    fn get_rec(&self, i: usize, s: u32, x: u32, y: u32, z: u32) -> (r: u32)
        requires
            valid_size(s as int),
            wf_node(self.nodes@, i as int, s as int),
            x < s,
            y < s,
            z < s,
        ensures
            r == match lookup(self.nodes@, i as int, s as int, x as int, y as int, z as int) {
                Some(v) => v,
                None => 0u32,
            },
        decreases s,
    {
        let h = s / 2;
        let c = octant_exec(x, y, z, h);
        let node = self.nodes[i];
        if s == 2 {
            if node.child_mask & (1u32 << c) != 0 {
                node.voxel_id
            } else {
                0
            }
        } else {
            if node.child_mask & (1u32 << c) != 0 {
                let off = count_below_exec(node.child_mask, c);
                proof {
                    assert(wf_node(
                        self.nodes@,
                        child_slot(self.nodes@, i as int, c),
                        s as int / 2,
                    ));
                }
                let n = self.nodes.len();
                proof {
                    assert(child_slot(self.nodes@, i as int, c) < n);
                }
                let j = node.child_ptr + (off as usize);
                self.get_rec(
                    j,
                    h,
                    if x >= h { x - h } else { x },
                    if y >= h { y - h } else { y },
                    if z >= h { z - h } else { z },
                )
            } else {
                0
            }
        }
    }
}

/// The set of indices a free list holds.
pub(crate) open spec fn free_set(free: Seq<usize>) -> Set<int> {
    Set::new(|j: int| exists|k: int| 0 <= k < free.len() && free[k] == j)
}

/// The octant of a point, computed.
fn octant_exec(x: u32, y: u32, z: u32, half: u32) -> (c: u32)
    ensures
        c == octant(x as int, y as int, z as int, half as int),
        c < 8,
{
    (if x >= half { 1u32 } else { 0u32 })
        + (if y >= half { 2u32 } else { 0u32 })
        + (if z >= half { 4u32 } else { 0u32 })
}

/// Counts the set bits of `m` below position `c`.
pub(crate) fn count_below_exec(m: u32, c: u32) -> (r: u32)
    requires
        c <= 8,
    ensures
        r == count_below(m, c),
        r <= c,
{
    let mut r: u32 = 0;
    let mut i: u32 = 0;
    while i < c
        invariant
            i <= c,
            c <= 8,
            r == count_below(m, i),
            r <= i,
        decreases c - i,
    {
        if m & (1u32 << i) != 0 {
            r = r + 1;
        }
        i = i + 1;
    }
    r
}

/// An empty node is a well-formed subtree of any size.
proof fn lemma_empty_node_wf(nodes: Seq<OctreeNode>, i: int, s: int)
    requires
        0 <= i < nodes.len(),
        nodes[i] == OctreeNode::empty_spec(),
    ensures
        wf_node(nodes, i, s),
{
    if s > 2 {
        assert forall|c: u32| c < 8 && nth_bit(nodes[i].child_mask, c) implies wf_node(
            nodes,
            #[trigger] child_slot(nodes, i, c),
            s / 2,
        ) by {
            assert(0u32 & (1u32 << c) == 0) by (bit_vector);
        }
        assert forall|c: u32| c < 8 implies !nth_bit(nodes[i].child_mask, c) by {
            assert(0u32 & (1u32 << c) == 0) by (bit_vector);
        }
    }
}

/// An empty node stores nothing.
pub proof fn lemma_empty_node_lookup(nodes: Seq<OctreeNode>, i: int, s: int, x: int, y: int, z: int)
    requires
        0 <= i < nodes.len(),
        nodes[i].child_mask == 0,
    ensures
        lookup(nodes, i, s, x, y, z) is None,
{
    let c = if s <= 2 { octant(x, y, z, 1) } else { octant(x, y, z, s / 2) };
    assert(0u32 & (1u32 << c) == 0) by (bit_vector);
}

/// The descendants of an empty node are the node alone.
proof fn lemma_empty_node_desc(nodes: Seq<OctreeNode>, i: int, s: int)
    requires
        nodes[i].child_mask == 0,
    ensures
        desc(nodes, i, s) =~= set!{i},
{
    if s > 2 {
        lemma_empty_kids(nodes, i, s, 8);
    }
}

proof fn lemma_empty_kids(nodes: Seq<OctreeNode>, i: int, s: int, cm: u32)
    requires
        nodes[i].child_mask == 0,
        cm <= 8,
    ensures
        desc_kids(nodes, i, s, cm) =~= Set::<int>::empty(),
    decreases cm,
{
    if cm > 0 && s > 2 {
        lemma_empty_kids(nodes, i, s, (cm - 1) as u32);
        let b = (cm - 1) as u32;
        assert(0u32 & (1u32 << b) == 0) by (bit_vector);
    }
}


/// Membership in a cell: two points share a cell of the voxel-pair lattice
/// when each coordinate pair lands in the same lattice cell of edge two.
pub open spec fn same_cell(ax: int, ay: int, az: int, bx: int, by: int, bz: int) -> bool {
    ax / 2 == bx / 2 && ay / 2 == by / 2 && az / 2 == bz / 2
}

/// What a write of `v` at `p` leaves readable at `q`, given what was
/// readable there before: the written point reads `v` back; another point
/// of the same cell keeps its absence or follows the cell's shared id;
/// points of other cells are untouched.
pub open spec fn set_result(
    prev: Option<u32>,
    qx: int,
    qy: int,
    qz: int,
    px: int,
    py: int,
    pz: int,
    v: u32,
) -> Option<u32> {
    if same_cell(qx, qy, qz, px, py, pz) {
        if qx == px && qy == py && qz == pz {
            Some(v)
        } else if prev is Some {
            Some(v)
        } else {
            None
        }
    } else {
        prev
    }
}

proof fn lemma_bit_or(m: u32, c: u32, b: u32)
    requires
        b < 8,
        c < 8,
    ensures
        nth_bit(m | (1u32 << c), b) == (b == c || nth_bit(m, b)),
{
    assert((((m | (1u32 << c)) & (1u32 << b) != 0) == (b == c || (m & (1u32 << b) != 0))))
        by (bit_vector)
        requires b < 8 && c < 8;
}

proof fn lemma_bit_zero(b: u32)
    ensures
        !nth_bit(0u32, b),
{
    assert(0u32 & (1u32 << b) == 0) by (bit_vector);
}

proof fn lemma_count_zero(b: u32)
    requires
        b <= 8,
    ensures
        count_below(0u32, b) == 0,
    decreases b,
{
    if b > 0 {
        lemma_count_zero((b - 1) as u32);
        lemma_bit_zero((b - 1) as u32);
    }
}

proof fn lemma_count_below_or(m: u32, c: u32, b: u32)
    requires
        c < 8,
        b <= 8,
        !nth_bit(m, c),
    ensures
        count_below(m | (1u32 << c), b) == count_below(m, b) + if c < b {
            1nat
        } else {
            0nat
        },
    decreases b,
{
    if b > 0 {
        lemma_count_below_or(m, c, (b - 1) as u32);
        lemma_bit_or(m, c, (b - 1) as u32);
    }
}

proof fn lemma_count_mono(m: u32, b1: u32, b2: u32)
    requires
        b1 <= b2 <= 8,
    ensures
        count_below(m, b1) <= count_below(m, b2),
    decreases b2,
{
    if b2 > b1 {
        lemma_count_mono(m, b1, (b2 - 1) as u32);
    }
}

/// A set bit strictly separates the counts on its two sides, so distinct
/// occupied octants get distinct child slots.
proof fn lemma_count_strict(m: u32, c1: u32, c2: u32)
    requires
        c1 < c2 <= 8,
        nth_bit(m, c1),
    ensures
        count_below(m, c1) < count_below(m, c2),
{
    assert(count_below(m, (c1 + 1) as u32) == count_below(m, c1) + 1);
    lemma_count_mono(m, (c1 + 1) as u32, c2);
}

/// Everything reachable through children comes from some child, and every
/// child's reachable set is contained in the union over children.
proof fn lemma_kids_member(nodes: Seq<OctreeNode>, i: int, s: int, cm: u32)
    requires
        s > 2,
        cm <= 8,
    ensures
        forall|j: int|
            #[trigger] desc_kids(nodes, i, s, cm).contains(j) ==> exists|c: u32|
                c < cm && nth_bit(nodes[i].child_mask, c) && desc(
                    nodes,
                    child_slot(nodes, i, c),
                    s / 2,
                ).contains(j),
        forall|c: u32, j: int|
            c < cm && nth_bit(nodes[i].child_mask, c) && #[trigger] desc(
                nodes,
                child_slot(nodes, i, c),
                s / 2,
            ).contains(j) ==> desc_kids(nodes, i, s, cm).contains(j),
    decreases cm,
{
    if cm > 0 {
        lemma_kids_member(nodes, i, s, (cm - 1) as u32);
        let cp = (cm - 1) as u32;
        assert forall|j: int| #[trigger] desc_kids(nodes, i, s, cm).contains(j) implies exists|
            c: u32,
        |
            c < cm && nth_bit(nodes[i].child_mask, c) && desc(
                nodes,
                child_slot(nodes, i, c),
                s / 2,
            ).contains(j) by {
            if desc_kids(nodes, i, s, cp).contains(j) {
                let c0 = choose|c: u32|
                    c < cp && nth_bit(nodes[i].child_mask, c) && desc(
                        nodes,
                        child_slot(nodes, i, c),
                        s / 2,
                    ).contains(j);
                assert(c0 < cm && nth_bit(nodes[i].child_mask, c0) && desc(
                    nodes,
                    child_slot(nodes, i, c0),
                    s / 2,
                ).contains(j));
            } else {
                assert(nth_bit(nodes[i].child_mask, cp) && desc(
                    nodes,
                    child_slot(nodes, i, cp),
                    s / 2,
                ).contains(j));
            }
        }
    }
}

/// Reachable indices of a well-formed subtree lie inside the pool.
proof fn lemma_desc_in_range(nodes: Seq<OctreeNode>, i: int, s: int)
    requires
        valid_size(s),
        wf_node(nodes, i, s),
    ensures
        forall|j: int| #[trigger] desc(nodes, i, s).contains(j) ==> 0 <= j < nodes.len(),
    decreases s,
{
    if s > 2 {
        lemma_kids_member(nodes, i, s, 8);
        assert forall|j: int| #[trigger] desc(nodes, i, s).contains(j) implies 0 <= j
            < nodes.len() by {
            if j != i {
                assert(desc_kids(nodes, i, s, 8).contains(j));
                let c = choose|c: u32|
                    c < 8 && nth_bit(nodes[i].child_mask, c) && desc(
                        nodes,
                        child_slot(nodes, i, c),
                        s / 2,
                    ).contains(j);
                assert(wf_node(nodes, child_slot(nodes, i, c), s / 2));
                lemma_desc_in_range(nodes, child_slot(nodes, i, c), s / 2);
            }
        }
    }
}

/// Moving or keeping a subtree root while its descendants stay in place
/// preserves structure, reachability and every stored value.
proof fn lemma_subtree_transfer(n1: Seq<OctreeNode>, n2: Seq<OctreeNode>, i1: int, i2: int, s: int)
    requires
        valid_size(s),
        wf_node(n1, i1, s),
        0 <= i2 < n2.len(),
        n1.len() <= n2.len(),
        n2[i2] == n1[i1],
        forall|j: int| #[trigger] desc(n1, i1, s).contains(j) && j != i1 ==> n2[j] == n1[j],
        !desc(n1, i1, s).contains(i2) || i2 == i1,
    ensures
        wf_node(n2, i2, s),
        desc(n2, i2, s) =~= desc(n1, i1, s).remove(i1).insert(i2),
        forall|x: int, y: int, z: int|
            #[trigger] lookup(n2, i2, s, x, y, z) == lookup(n1, i1, s, x, y, z),
    decreases s, 9int,
{
    if s <= 2 {
    } else {
        lemma_kids_member(n1, i1, s, 8);
        lemma_desc_in_range(n1, i1, s);
        assert forall|c: u32| c < 8 && nth_bit(n1[i1].child_mask, c) implies wf_node(
            n2,
            #[trigger] child_slot(n2, i2, c),
            s / 2,
        ) && desc(n2, child_slot(n2, i2, c), s / 2) =~= desc(n1, child_slot(n1, i1, c), s / 2)
            && forall|x: int, y: int, z: int|
            #[trigger] lookup(n2, child_slot(n2, i2, c), s / 2, x, y, z) == lookup(
                n1,
                child_slot(n1, i1, c),
                s / 2,
                x,
                y,
                z,
            ) by {
            let sl = child_slot(n1, i1, c);
            assert(child_slot(n2, i2, c) == sl);
            assert(desc(n1, sl, s / 2).contains(sl));
            assert(desc(n1, i1, s).contains(sl));
            assert(sl != i1) by {
                assert(!desc(n1, sl, s / 2).contains(i1));
            }
            assert forall|j: int| #[trigger] desc(n1, sl, s / 2).contains(j) && j != sl implies
                n2[j] == n1[j] by {
                assert(desc(n1, i1, s).contains(j));
                assert(j != i1) by {
                    assert(!desc(n1, sl, s / 2).contains(i1));
                }
            }
            lemma_subtree_transfer(n1, n2, sl, sl, s / 2);
            assert(desc(n1, sl, s / 2).remove(sl).insert(sl) =~= desc(n1, sl, s / 2));
        }
        lemma_kids_transfer(n1, n2, i1, i2, s, 8);
        lemma_kids_member(n2, i2, s, 8);
        assert forall|c: u32| c < 8 && nth_bit(n2[i2].child_mask, c) implies !(#[trigger] desc(
            n2,
            child_slot(n2, i2, c),
            s / 2,
        )).contains(i2) by {
            assert(desc(n2, child_slot(n2, i2, c), s / 2) =~= desc(
                n1,
                child_slot(n1, i1, c),
                s / 2,
            ));
            if i2 != i1 {
                assert(desc(n1, i1, s).contains(i2) == false);
                assert(desc(n1, child_slot(n1, i1, c), s / 2).contains(i2) ==> desc(
                    n1,
                    i1,
                    s,
                ).contains(i2));
            }
        }
        assert forall|c1: u32, c2: u32|
            c1 < 8 && c2 < 8 && c1 != c2 && nth_bit(n2[i2].child_mask, c1) && nth_bit(
                n2[i2].child_mask,
                c2,
            ) implies (#[trigger] desc(n2, child_slot(n2, i2, c1), s / 2)).disjoint(
            #[trigger] desc(n2, child_slot(n2, i2, c2), s / 2),
        ) by {
            assert(desc(n2, child_slot(n2, i2, c1), s / 2) =~= desc(
                n1,
                child_slot(n1, i1, c1),
                s / 2,
            ));
            assert(desc(n2, child_slot(n2, i2, c2), s / 2) =~= desc(
                n1,
                child_slot(n1, i1, c2),
                s / 2,
            ));
        }
        assert(wf_node(n2, i2, s));
        assert forall|x: int, y: int, z: int|
            #[trigger] lookup(n2, i2, s, x, y, z) == lookup(n1, i1, s, x, y, z) by {
            let c = octant(x, y, z, s / 2);
            assert(c < 8);
            if nth_bit(n1[i1].child_mask, c) {
                assert(lookup(n2, child_slot(n2, i2, c), s / 2, reduce(x, s / 2), reduce(y, s / 2),
                    reduce(z, s / 2)) == lookup(n1, child_slot(n1, i1, c), s / 2, reduce(x, s / 2),
                    reduce(y, s / 2), reduce(z, s / 2)));
            }
        }
        assert(desc(n2, i2, s) =~= desc(n1, i1, s).remove(i1).insert(i2)) by {
            assert(desc_kids(n2, i2, s, 8) =~= desc_kids(n1, i1, s, 8));
            assert(!desc_kids(n1, i1, s, 8).contains(i1)) by {
                if desc_kids(n1, i1, s, 8).contains(i1) {
                    let c = choose|c: u32|
                        c < 8 && nth_bit(n1[i1].child_mask, c) && desc(
                            n1,
                            child_slot(n1, i1, c),
                            s / 2,
                        ).contains(i1);
                }
            }
        }
    }
}

/// The union of children's reachable sets is unchanged when the parent
/// keeps its mask and pointer and every child subtree keeps its set.
proof fn lemma_kids_transfer(
    n1: Seq<OctreeNode>,
    n2: Seq<OctreeNode>,
    i1: int,
    i2: int,
    s: int,
    cm: u32,
)
    requires
        valid_size(s),
        s > 2,
        cm <= 8,
        wf_node(n1, i1, s),
        0 <= i2 < n2.len(),
        n1.len() <= n2.len(),
        n2[i2] == n1[i1],
        forall|j: int| #[trigger] desc(n1, i1, s).contains(j) && j != i1 ==> n2[j] == n1[j],
    ensures
        desc_kids(n2, i2, s, cm) =~= desc_kids(n1, i1, s, cm),
    decreases s, cm,
{
    if cm > 0 {
        lemma_kids_transfer(n1, n2, i1, i2, s, (cm - 1) as u32);
        let c = (cm - 1) as u32;
        if nth_bit(n1[i1].child_mask, c) {
            let sl = child_slot(n1, i1, c);
            lemma_kids_member(n1, i1, s, 8);
            assert(desc(n1, sl, s / 2).contains(sl));
            assert(desc(n1, i1, s).contains(sl));
            assert(sl != i1) by {
                assert(!desc(n1, sl, s / 2).contains(i1));
            }
            assert forall|j: int| #[trigger] desc(n1, sl, s / 2).contains(j) && j != sl implies
                n2[j] == n1[j] by {
                assert(desc(n1, i1, s).contains(j));
                assert(j != i1) by {
                    assert(!desc(n1, sl, s / 2).contains(i1));
                }
            }
            lemma_desc_in_range(n1, i1, s);
            lemma_subtree_transfer(n1, n2, sl, sl, s / 2);
            assert(child_slot(n2, i2, c) == sl);
            assert(desc(n2, sl, s / 2) =~= desc(n1, sl, s / 2).remove(sl).insert(sl));
            assert(desc(n1, sl, s / 2).remove(sl).insert(sl) =~= desc(n1, sl, s / 2));
        }
    }
}


/// Halving one axis: two coordinates of a node share their pair-cell
/// exactly when they fall on the same side of the half and their rebased
/// coordinates share the pair-cell of the child.
proof fn lemma_axis(x: int, px: int, h: int)
    requires
        h >= 2,
        h % 2 == 0,
        0 <= x < 2 * h,
        0 <= px < 2 * h,
    ensures
        (x / 2 == px / 2) == (((x >= h) == (px >= h)) && reduce(x, h) / 2 == reduce(px, h) / 2),
{
    let g = h / 2;
    assert(h == 2 * g);
    assert((x >= 2 * g) == (x / 2 >= g) && (x >= 2 * g ==> (x - 2 * g) / 2 == x / 2 - g))
        by (nonlinear_arith)
        requires 0 <= x && g >= 1;
    assert((px >= 2 * g) == (px / 2 >= g) && (px >= 2 * g ==> (px - 2 * g) / 2 == px / 2 - g))
        by (nonlinear_arith)
        requires 0 <= px && g >= 1;
}

/// Two points of a node land in the same octant exactly when they fall on
/// the same side of the half on every axis.
pub proof fn lemma_octant_eq(x: int, y: int, z: int, px: int, py: int, pz: int, h: int)
    ensures
        (octant(x, y, z, h) == octant(px, py, pz, h)) == (((x >= h) == (px >= h)) && ((y >= h) == (py
            >= h)) && ((z >= h) == (pz >= h))),
        octant(x, y, z, h) < 8,
{
}

/// Lifting the effect of a write from a child octant to its parent: for
/// two points of the same octant the cell relation is unchanged by
/// rebasing, and points of distinct octants never share a cell.
proof fn lemma_set_lift(
    s: int,
    qx: int,
    qy: int,
    qz: int,
    px: int,
    py: int,
    pz: int,
    prev: Option<u32>,
    v: u32,
)
    requires
        valid_size(s),
        s > 2,
        0 <= qx < s,
        0 <= qy < s,
        0 <= qz < s,
        0 <= px < s,
        0 <= py < s,
        0 <= pz < s,
    ensures
        octant(qx, qy, qz, s / 2) == octant(px, py, pz, s / 2) ==> set_result(
            prev,
            reduce(qx, s / 2),
            reduce(qy, s / 2),
            reduce(qz, s / 2),
            reduce(px, s / 2),
            reduce(py, s / 2),
            reduce(pz, s / 2),
            v,
        ) == set_result(prev, qx, qy, qz, px, py, pz, v),
        octant(qx, qy, qz, s / 2) != octant(px, py, pz, s / 2) ==> set_result(
            prev,
            qx,
            qy,
            qz,
            px,
            py,
            pz,
            v,
        ) == prev,
{
    let h = s / 2;
    assert(h >= 2 && h % 2 == 0 && s == 2 * h);
    lemma_axis(qx, px, h);
    lemma_axis(qy, py, h);
    lemma_axis(qz, pz, h);
    lemma_octant_eq(qx, qy, qz, px, py, pz, h);
    if octant(qx, qy, qz, h) == octant(px, py, pz, h) {
        assert((qx == px) == (reduce(qx, h) == reduce(px, h)));
        assert((qy == py) == (reduce(qy, h) == reduce(py, h)));
        assert((qz == pz) == (reduce(qz, h) == reduce(pz, h)));
    }
}

/// Reattaching a child after an update inside it: with the parent's node
/// untouched and every sibling subtree untouched, the parent is again
/// well-formed, everything outside it is untouched, and a point reads
/// through the updated child exactly when its octant is the updated one.
proof fn lemma_reassemble(
    n1: Seq<OctreeNode>,
    n2: Seq<OctreeNode>,
    f1: Seq<usize>,
    f2: Seq<usize>,
    i: int,
    s: int,
    c: u32,
)
    requires
        valid_size(s),
        s > 2,
        c < 8,
        wf_node(n1, i, s),
        nth_bit(n1[i].child_mask, c),
        n1.len() <= n2.len(),
        forall|k: int|
            0 <= k < f1.len() ==> 0 < #[trigger] f1[k] < n1.len() && !desc(n1, i, s).contains(
                f1[k] as int,
            ),
        wf_node(n2, child_slot(n1, i, c), s / 2),
        forall|j: int|
            0 <= j < n1.len() && !desc(n1, child_slot(n1, i, c), s / 2).contains(j) && !free_set(
                f1,
            ).contains(j) ==> n2[j] == n1[j],
        forall|j: int|
            #[trigger] desc(n2, child_slot(n1, i, c), s / 2).contains(j) ==> desc(
                n1,
                child_slot(n1, i, c),
                s / 2,
            ).contains(j) || free_set(f1).contains(j) || n1.len() <= j < n2.len(),
        forall|k: int|
            0 <= k < f2.len() ==> 0 < #[trigger] f2[k] < n2.len() && !desc(
                n2,
                child_slot(n1, i, c),
                s / 2,
            ).contains(f2[k] as int),
        forall|g: int|
            #[trigger] free_set(f2).contains(g) ==> free_set(f1).contains(g) || desc(
                n1,
                child_slot(n1, i, c),
                s / 2,
            ).contains(g),
    ensures
        wf_node(n2, i, s),
        n2[i] == n1[i],
        forall|j: int|
            0 <= j < n1.len() && !desc(n1, i, s).contains(j) && !free_set(f1).contains(j) ==> n2[j]
                == n1[j],
        forall|j: int|
            #[trigger] desc(n2, i, s).contains(j) ==> desc(n1, i, s).contains(j) || free_set(
                f1,
            ).contains(j) || n1.len() <= j < n2.len(),
        forall|k: int| 0 <= k < f2.len() ==> !desc(n2, i, s).contains(#[trigger] f2[k] as int),
        forall|x: int, y: int, z: int|
            #[trigger] lookup(n2, i, s, x, y, z) == if octant(x, y, z, s / 2) == c {
                lookup(
                    n2,
                    child_slot(n1, i, c),
                    s / 2,
                    reduce(x, s / 2),
                    reduce(y, s / 2),
                    reduce(z, s / 2),
                )
            } else {
                lookup(n1, i, s, x, y, z)
            },
{
    let h = s / 2;
    let sl = child_slot(n1, i, c);
    lemma_kids_member(n1, i, s, 8);
    lemma_desc_in_range(n1, i, s);
    assert(desc(n1, sl, h).contains(sl));
    assert(desc(n1, i, s).contains(i));
    assert(!free_set(f1).contains(i)) by {
        if free_set(f1).contains(i) {
            let k = choose|k: int| 0 <= k < f1.len() && f1[k] == i;
        }
    }
    assert(n2[i] == n1[i]);
    // Sibling subtrees are untouched, so they transfer unchanged.
    assert forall|cs: u32| cs < 8 && cs != c && nth_bit(n1[i].child_mask, cs) implies wf_node(
        n2,
        #[trigger] child_slot(n1, i, cs),
        h,
    ) && desc(n2, child_slot(n1, i, cs), h) =~= desc(n1, child_slot(n1, i, cs), h) && forall|
        x: int,
        y: int,
        z: int,
    |
        #[trigger] lookup(n2, child_slot(n1, i, cs), h, x, y, z) == lookup(
            n1,
            child_slot(n1, i, cs),
            h,
            x,
            y,
            z,
        ) by {
        let ss = child_slot(n1, i, cs);
        assert(desc(n1, ss, h).contains(ss));
        assert(desc(n1, i, s).contains(ss));
        assert forall|j: int| #[trigger] desc(n1, ss, h).contains(j) && j != ss implies n2[j]
            == n1[j] by {
            assert(desc(n1, i, s).contains(j));
            assert(!desc(n1, sl, h).contains(j));
            assert(!free_set(f1).contains(j)) by {
                if free_set(f1).contains(j) {
                    let k = choose|k: int| 0 <= k < f1.len() && f1[k] == j;
                }
            }
        }
        assert(n2[ss] == n1[ss]) by {
            assert(!desc(n1, sl, h).contains(ss));
            assert(!free_set(f1).contains(ss)) by {
                if free_set(f1).contains(ss) {
                    let k = choose|k: int| 0 <= k < f1.len() && f1[k] == ss;
                }
            }
        }
        lemma_subtree_transfer(n1, n2, ss, ss, h);
        assert(desc(n1, ss, h).remove(ss).insert(ss) =~= desc(n1, ss, h));
    }
    // The parent is well-formed again.
    assert forall|cs: u32| cs < 8 && nth_bit(n2[i].child_mask, cs) implies wf_node(
        n2,
        #[trigger] child_slot(n2, i, cs),
        h,
    ) by {
        assert(child_slot(n2, i, cs) == child_slot(n1, i, cs));
    }
    assert forall|cs: u32| cs < 8 && nth_bit(n2[i].child_mask, cs) implies !(#[trigger] desc(
        n2,
        child_slot(n2, i, cs),
        h,
    )).contains(i) by {
        assert(child_slot(n2, i, cs) == child_slot(n1, i, cs));
        if cs == c {
            if desc(n2, sl, h).contains(i) {
                assert(desc(n1, sl, h).contains(i) || free_set(f1).contains(i) || n1.len() <= i
                    < n2.len());
            }
        }
    }
    assert forall|c1: u32, c2: u32|
        c1 < 8 && c2 < 8 && c1 != c2 && nth_bit(n2[i].child_mask, c1) && nth_bit(
            n2[i].child_mask,
            c2,
        ) implies (#[trigger] desc(n2, child_slot(n2, i, c1), h)).disjoint(
        #[trigger] desc(n2, child_slot(n2, i, c2), h),
    ) by {
        assert(child_slot(n2, i, c1) == child_slot(n1, i, c1));
        assert(child_slot(n2, i, c2) == child_slot(n1, i, c2));
        assert forall|j: int|
            #[trigger] desc(n2, child_slot(n1, i, c1), h).contains(j) && desc(
                n2,
                child_slot(n1, i, c2),
                h,
            ).contains(j) implies false by {
            if c1 != c && c2 != c {
                assert(desc(n1, child_slot(n1, i, c1), h).contains(j));
                assert(desc(n1, child_slot(n1, i, c2), h).contains(j));
            } else {
                let co = if c1 == c { c2 } else { c1 };
                assert(desc(n1, child_slot(n1, i, co), h).contains(j));
                assert(desc(n1, i, s).contains(j));
                assert(0 <= j < n1.len());
                assert(desc(n1, sl, h).contains(j) || free_set(f1).contains(j) || n1.len() <= j
                    < n2.len());
                if free_set(f1).contains(j) {
                    let k = choose|k: int| 0 <= k < f1.len() && f1[k] == j;
                }
            }
        }
    }
    assert(wf_node(n2, i, s));
    // Outside the subtree nothing moved.
    assert forall|j: int|
        0 <= j < n1.len() && !desc(n1, i, s).contains(j) && !free_set(f1).contains(j) implies n2[j]
        == n1[j] by {
        assert(!desc(n1, sl, h).contains(j));
    }
    // Reachability grew only into freed or fresh slots.
    lemma_kids_member(n2, i, s, 8);
    assert forall|j: int| #[trigger] desc(n2, i, s).contains(j) implies desc(n1, i, s).contains(j)
        || free_set(f1).contains(j) || n1.len() <= j < n2.len() by {
        if j != i {
            assert(desc_kids(n2, i, s, 8).contains(j));
            let cs = choose|cs: u32|
                cs < 8 && nth_bit(n2[i].child_mask, cs) && desc(
                    n2,
                    child_slot(n2, i, cs),
                    h,
                ).contains(j);
            assert(child_slot(n2, i, cs) == child_slot(n1, i, cs));
            if cs == c {
            } else {
                assert(desc(n2, child_slot(n1, i, cs), h) =~= desc(n1, child_slot(n1, i, cs), h));
                assert(desc(n1, child_slot(n1, i, cs), h).contains(j));
                assert(desc(n1, i, s).contains(j));
            }
        }
    }
    // The free list stays clear of the subtree.
    assert forall|k: int| 0 <= k < f2.len() implies !desc(n2, i, s).contains(
        #[trigger] f2[k] as int,
    ) by {
        let g = f2[k] as int;
        assert(free_set(f2).contains(g));
        if desc(n2, i, s).contains(g) {
            if g != i {
                assert(desc_kids(n2, i, s, 8).contains(g));
                let cs = choose|cs: u32|
                    cs < 8 && nth_bit(n2[i].child_mask, cs) && desc(
                        n2,
                        child_slot(n2, i, cs),
                        h,
                    ).contains(g);
                assert(child_slot(n2, i, cs) == child_slot(n1, i, cs));
                if cs == c {
                } else {
                    assert(desc(n2, child_slot(n1, i, cs), h) =~= desc(n1, child_slot(n1, i, cs), h));
                    assert(desc(n1, child_slot(n1, i, cs), h).contains(g));
                    assert(desc(n1, i, s).contains(g));
                    if free_set(f1).contains(g) {
                        let k1 = choose|k1: int| 0 <= k1 < f1.len() && f1[k1] == g;
                    } else {
                        assert(desc(n1, sl, h).contains(g));
                    }
                }
            } else {
                if free_set(f1).contains(g) {
                    let k1 = choose|k1: int| 0 <= k1 < f1.len() && f1[k1] == g;
                } else {
                    assert(desc(n1, sl, h).contains(i));
                }
            }
        }
    }
    // Reads route through the updated child only for its octant.
    assert forall|x: int, y: int, z: int|
        #[trigger] lookup(n2, i, s, x, y, z) == if octant(x, y, z, s / 2) == c {
            lookup(n2, sl, h, reduce(x, h), reduce(y, h), reduce(z, h))
        } else {
            lookup(n1, i, s, x, y, z)
        } by {
        let cq = octant(x, y, z, h);
        assert(cq < 8) by {
            lemma_octant_eq(x, y, z, x, y, z, h);
        }
        if cq == c {
            assert(child_slot(n2, i, cq) == sl);
        } else {
            if nth_bit(n1[i].child_mask, cq) {
                assert(child_slot(n2, i, cq) == child_slot(n1, i, cq));
                assert(lookup(n2, child_slot(n1, i, cq), h, reduce(x, h), reduce(y, h), reduce(z, h))
                    == lookup(n1, child_slot(n1, i, cq), h, reduce(x, h), reduce(y, h), reduce(z, h)));
            }
        }
    }
}


/// Whether `j` is the pool slot of one of node `i`'s children for an
/// octant below `cm`.
pub(crate) open spec fn is_child_root(nodes: Seq<OctreeNode>, i: int, cm: u32, j: int) -> bool {
    exists|co: u32| co < cm && nth_bit(nodes[i].child_mask, co) && j == child_slot(nodes, i, co)
}

impl SparseVoxelOctree {
    /// Gives node `i` a fresh, empty child for octant `c`. A first child
    /// takes one slot, preferably from the free list; when children exist
    /// already they move to a freshly appended block with room for one
    /// more, keeping octant order, and their old slots are reclaimed.
    /// Stored voxels are untouched.
    fn add_child_slot(&mut self, i: usize, s: u32, c: u32) -> (j: usize)
        requires
            valid_size(s as int),
            s > 2,
            c < 8,
            wf_node(old(self).nodes@, i as int, s as int),
            !nth_bit(old(self).nodes@[i as int].child_mask, c),
            forall|k: int|
                0 <= k < old(self).free_indices@.len() ==> 0 < #[trigger] old(self).free_indices@[k] < old(self).nodes@.len() && !desc(
                    old(self).nodes@,
                    i as int,
                    s as int,
                ).contains(old(self).free_indices@[k] as int),
            forall|k1: int, k2: int|
                0 <= k1 < k2 < old(self).free_indices@.len() ==> #[trigger] old(self).free_indices@[k1] != #[trigger] old(self).free_indices@[k2],
            !desc(old(self).nodes@, i as int, s as int).contains(0) || i == 0,
        ensures
            wf_node(final(self).nodes@, i as int, s as int),
            final(self).nodes@.len() >= old(self).nodes@.len(),
            final(self).nodes@.len() <= old(self).nodes@.len() + 8,
            final(self).nodes@.len() - final(self).free_indices@.len() == old(self).nodes@.len()
                - old(self).free_indices@.len() + 1,
            final(self).root_size == old(self).root_size,
            nth_bit(final(self).nodes@[i as int].child_mask, c),
            j == child_slot(final(self).nodes@, i as int, c),
            0 <= j < final(self).nodes@.len(),
            final(self).nodes@[j as int] == OctreeNode::empty_spec(),
            forall|jj: int|
                0 <= jj < old(self).nodes@.len() && !desc(
                    old(self).nodes@,
                    i as int,
                    s as int,
                ).contains(jj) && !free_set(old(self).free_indices@).contains(jj) ==> final(self).nodes@[jj] == old(self).nodes@[jj],
            forall|jj: int|
                #[trigger] desc(final(self).nodes@, i as int, s as int).contains(jj) ==> desc(
                    old(self).nodes@,
                    i as int,
                    s as int,
                ).contains(jj) || free_set(old(self).free_indices@).contains(jj) || old(self).nodes@.len() <= jj < final(self).nodes@.len(),
            forall|k: int|
                0 <= k < final(self).free_indices@.len() ==> 0 < #[trigger] final(self).free_indices@[k] < final(self).nodes@.len() && !desc(
                    final(self).nodes@,
                    i as int,
                    s as int,
                ).contains(final(self).free_indices@[k] as int),
            forall|k1: int, k2: int|
                0 <= k1 < k2 < final(self).free_indices@.len() ==> #[trigger] final(self).free_indices@[k1] != #[trigger] final(self).free_indices@[k2],
            forall|g: int|
                #[trigger] free_set(final(self).free_indices@).contains(g) ==> free_set(
                    old(self).free_indices@,
                ).contains(g) || desc(old(self).nodes@, i as int, s as int).contains(g),
            forall|x: int, y: int, z: int|
                #[trigger] lookup(final(self).nodes@, i as int, s as int, x, y, z) == lookup(
                    old(self).nodes@,
                    i as int,
                    s as int,
                    x,
                    y,
                    z,
                ),
    {
        let ghost n1 = self.nodes@;
        let ghost f1 = self.free_indices@;
        let node = self.nodes[i];
        proof {
            lemma_desc_in_range(n1, i as int, s as int);
            lemma_kids_member(n1, i as int, s as int, 8);
        }
        if node.child_mask == 0 {
            // first child: take one slot
            let idx = self.allocate_node();
            let ghost na = self.nodes@;
            let mut nd = node;
            nd.child_ptr = idx;
            nd.set_child(c, false);
            self.nodes[i] = nd;
            proof {
                let n2 = self.nodes@;
                assert(idx != i) by {
                    if free_set(f1).contains(idx as int) {
                        let k = choose|k: int| 0 <= k < f1.len() && f1[k] == idx;
                        assert(desc(n1, i as int, s as int).contains(i as int));
                    }
                }
                assert(n2[idx as int] == OctreeNode::empty_spec());
                assert(n2[i as int] == nd);
                lemma_bit_zero(c);
                lemma_count_zero(c);
                lemma_count_below_or(0u32, c, c);
                assert(0u32 | (1u32 << c) == 1u32 << c) by (bit_vector);
                assert(nd.child_mask == 1u32 << c);
                assert(count_below(1u32 << c, c) == 0);
                assert(child_slot(n2, i as int, c) == idx as int);
                assert forall|b: u32| b < 8 implies nth_bit(nd.child_mask, b) == (b == c) by {
                    lemma_bit_or(0u32, c, b);
                    lemma_bit_zero(b);
                }
                lemma_empty_node_wf(n2, idx as int, s as int / 2);
                lemma_empty_node_desc(n2, idx as int, s as int / 2);
                assert(wf_node(n2, i as int, s as int)) by {
                    assert forall|cc: u32| cc < 8 && nth_bit(n2[i as int].child_mask, cc)
                        implies wf_node(n2, #[trigger] child_slot(n2, i as int, cc), s as int / 2)
                        && !desc(n2, child_slot(n2, i as int, cc), s as int / 2).contains(
                        i as int,
                    ) by {
                        assert(cc == c);
                        assert(desc(n2, idx as int, s as int / 2) =~= set!{idx as int});
                    }
                    assert(nd.leaf_mask == 0) by {
                        assert(n1[i as int].leaf_mask == 0);
                        assert((0u32 & !(1u32 << c)) == 0) by (bit_vector);
                    }
                }
                // lookup is unchanged: everything was and stays absent
                assert forall|x: int, y: int, z: int|
                    #[trigger] lookup(n2, i as int, s as int, x, y, z) == lookup(
                        n1,
                        i as int,
                        s as int,
                        x,
                        y,
                        z,
                    ) by {
                    let h = s as int / 2;
                    let cq = octant(x, y, z, h);
                    lemma_octant_eq(x, y, z, x, y, z, h);
                    lemma_bit_or(0u32, c, cq);
                    lemma_bit_zero(cq);
                    if cq == c {
                        lemma_empty_node_lookup(n2, idx as int, h, reduce(x, h), reduce(y, h),
                            reduce(z, h));
                    }
                }
                // reachability: the subtree is now the node and its one empty child
                assert(desc(n2, i as int, s as int) =~= set!{i as int, idx as int}) by {
                    lemma_kids_member(n2, i as int, s as int, 8);
                    assert forall|jj: int|
                        #[trigger] desc(n2, i as int, s as int).contains(jj) implies (jj == i
                        || jj == idx) by {
                        if jj != i as int {
                            assert(desc_kids(n2, i as int, s as int, 8).contains(jj));
                            let cc = choose|cc: u32|
                                cc < 8 && nth_bit(n2[i as int].child_mask, cc) && desc(
                                    n2,
                                    child_slot(n2, i as int, cc),
                                    s as int / 2,
                                ).contains(jj);
                            assert(cc == c);
                            assert(desc(n2, idx as int, s as int / 2) =~= set!{idx as int});
                        }
                    }
                    assert(desc(n2, i as int, s as int).contains(i as int));
                    assert(desc(n2, i as int, s as int).contains(idx as int)) by {
                        assert(desc(n2, idx as int, s as int / 2).contains(idx as int));
                        lemma_kids_member(n2, i as int, s as int, 8);
                    }
                }
                assert forall|k: int| 0 <= k < self.free_indices@.len() implies 0
                    < #[trigger] self.free_indices@[k] < n2.len() && !desc(
                    n2,
                    i as int,
                    s as int,
                ).contains(self.free_indices@[k] as int) by {
                    let g = self.free_indices@[k];
                    assert(g == f1[k]);
                    assert(free_set(f1).contains(g as int)) by {
                        assert(0 <= k < f1.len() && f1[k] == g);
                    }
                    assert(g != idx) by {
                        if f1.len() > 0 && idx == f1[f1.len() - 1] {
                            assert(k < f1.len() - 1);
                        } else {
                            assert(g < n1.len());
                        }
                    }
                    assert(g != i) by {
                        assert(desc(n1, i as int, s as int).contains(i as int));
                    }
                    assert(desc(n2, i as int, s as int) =~= set!{i as int, idx as int});
                }
                assert forall|g: int|
                    #[trigger] free_set(self.free_indices@).contains(g) implies free_set(
                    f1,
                ).contains(g) || desc(n1, i as int, s as int).contains(g) by {
                    let k = choose|k: int|
                        0 <= k < self.free_indices@.len() && self.free_indices@[k] == g;
                    assert(self.free_indices@[k] == f1[k]);
                    assert(0 <= k < f1.len() && f1[k] == g);
                }
            }
            idx
        } else {
            // the node has children: move them to a block with one more slot
            let new_mask = node.child_mask | (1u32 << c);
            let kc = count_below_exec(new_mask, 8);
            let base = self.nodes.len();
            proof {
                assert(i < base);
                assert forall|co: u32| co < 8 && nth_bit(node.child_mask, co) implies wf_node(
                    n1,
                    #[trigger] child_slot(n1, i as int, co),
                    s as int / 2,
                ) by {}
                assert forall|co: u32| co < 8 implies nth_bit(new_mask, co) == (co == c
                    || nth_bit(node.child_mask, co)) by {
                    lemma_bit_or(node.child_mask, c, co);
                }
            }
            let mut t: u32 = 0;
            while t < kc
                invariant
                    t <= kc,
                    self.nodes@.len() == n1.len() + t,
                    base == n1.len(),
                    forall|jj: int| 0 <= jj < base ==> self.nodes@[jj] == n1[jj],
                    forall|jj: int|
                        base <= jj < self.nodes@.len() ==> self.nodes@[jj]
                            == OctreeNode::empty_spec(),
                    self.free_indices@ == f1,
                    self.root_size == old(self).root_size,
                decreases kc - t,
            {
                self.nodes.push(OctreeNode::new_empty());
                t = t + 1;
            }
            let ghost np = self.nodes@;
            proof {
                assert forall|co: u32| co < 8 && nth_bit(new_mask, co) implies count_below(
                    new_mask,
                    co,
                ) < kc by {
                    lemma_count_strict(new_mask, co, 8);
                }
                assert(nth_bit(new_mask, c)) by {
                    lemma_bit_or(node.child_mask, c, c);
                }
            }
            // copy the existing children into their new slots, in octant order
            let mut o: u32 = 0;
            while o < 8
                invariant
                    o <= 8,
                    c < 8,
                    base == n1.len(),
                    i < base,
                    valid_size(s as int),
                    s > 2,
                    wf_node(n1, i as int, s as int),
                    node == n1[i as int],
                    !nth_bit(node.child_mask, c),
                    new_mask == node.child_mask | (1u32 << c),
                    kc == count_below(new_mask, 8),
                    self.nodes@.len() == base + kc,
                    forall|jj: int| 0 <= jj < base ==> self.nodes@[jj] == n1[jj],
                    forall|co: u32|
                        co < o && nth_bit(node.child_mask, co) ==> self.nodes@[base + count_below(
                            new_mask,
                            co,
                        )] == n1[child_slot(n1, i as int, co)],
                    forall|co: u32|
                        o <= co < 8 && nth_bit(new_mask, co) ==> self.nodes@[base + count_below(
                            new_mask,
                            co,
                        )] == OctreeNode::empty_spec(),
                    self.nodes@[base + count_below(new_mask, c)] == OctreeNode::empty_spec(),
                    self.free_indices@ == f1,
                    self.root_size == old(self).root_size,
                decreases 8 - o,
            {
                if node.child_mask & (1u32 << o) != 0 {
                    proof {
                        assert(wf_node(n1, child_slot(n1, i as int, o), s as int / 2));
                        assert(nth_bit(new_mask, o)) by {
                            lemma_bit_or(node.child_mask, c, o);
                        }
                        lemma_count_strict(new_mask, o, 8);
                        lemma_count_mono(node.child_mask, o, 8);
                    }
                    let src_off = count_below_exec(node.child_mask, o);
                    let dst_off = count_below_exec(new_mask, o);
                    let ln = self.nodes.len();
                    proof {
                        assert(count_below(new_mask, o) < kc) by {
                            lemma_count_strict(new_mask, o, 8);
                        }
                        assert(child_slot(n1, i as int, o) < n1.len());
                        assert forall|co: u32|
                            co < 8 && nth_bit(new_mask, co) && co != o implies count_below(
                            new_mask,
                            co,
                        ) != count_below(new_mask, o) by {
                            if co < o {
                                lemma_count_strict(new_mask, co, o);
                            } else {
                                lemma_count_strict(new_mask, o, co);
                            }
                        }
                        assert(nth_bit(new_mask, c)) by {
                            lemma_bit_or(node.child_mask, c, c);
                        }
                        assert(c != o);
                        assert(count_below(new_mask, c) != count_below(new_mask, o));
                    }
                    let srci = node.child_ptr + src_off as usize;
                    let dsti = base + dst_off as usize;
                    let tmp = self.nodes[srci];
                    self.nodes[dsti] = tmp;
                    proof {
                        assert forall|co: u32|
                            co < o + 1 && nth_bit(node.child_mask, co) implies self.nodes@[base
                            + count_below(new_mask, co)] == n1[child_slot(n1, i as int, co)] by {
                            assert(nth_bit(new_mask, co)) by {
                                lemma_bit_or(node.child_mask, c, co);
                            }
                            assert(count_below(new_mask, co) < kc) by {
                                lemma_count_strict(new_mask, co, 8);
                            }
                            if co != o {
                                assert(count_below(new_mask, co) != count_below(new_mask, o));
                            }
                        }
                        assert forall|co: u32|
                            o + 1 <= co < 8 && nth_bit(new_mask, co) implies self.nodes@[base
                            + count_below(new_mask, co)] == OctreeNode::empty_spec() by {
                            assert(count_below(new_mask, co) < kc) by {
                                lemma_count_strict(new_mask, co, 8);
                            }
                            assert(count_below(new_mask, co) != count_below(new_mask, o));
                        }
                        assert(self.nodes@[base + count_below(new_mask, c)]
                            == OctreeNode::empty_spec()) by {
                            assert(count_below(new_mask, c) < kc) by {
                                lemma_count_strict(new_mask, c, 8);
                            }
                            assert(count_below(new_mask, c) != count_below(new_mask, o));
                        }
                    }
                }
                o = o + 1;
            }
            let ghost nc = self.nodes@;
            // reclaim the old block
            let mut o2: u32 = 0;
            while o2 < 8
                invariant
                    o2 <= 8,
                    c < 8,
                    base == n1.len(),
                    i < base,
                    valid_size(s as int),
                    s > 2,
                    wf_node(n1, i as int, s as int),
                    node == n1[i as int],
                    !nth_bit(node.child_mask, c),
                    new_mask == node.child_mask | (1u32 << c),
                    kc == count_below(new_mask, 8),
                    self.nodes@.len() == base + kc,
                    forall|jj: int|
                        0 <= jj < base && !is_child_root(n1, i as int, o2, jj)
                            ==> self.nodes@[jj] == n1[jj],
                    forall|co: u32|
                        co < 8 && nth_bit(node.child_mask, co) ==> self.nodes@[base + count_below(
                            new_mask,
                            co,
                        )] == n1[child_slot(n1, i as int, co)],
                    self.nodes@[base + count_below(new_mask, c)] == OctreeNode::empty_spec(),
                    forall|k: int|
                        0 <= k < self.free_indices@.len() ==> 0 < #[trigger] self.free_indices@[k]
                            < self.nodes@.len(),
                    forall|k1: int, k2: int|
                        0 <= k1 < k2 < self.free_indices@.len()
                            ==> #[trigger] self.free_indices@[k1]
                            != #[trigger] self.free_indices@[k2],
                    self.free_indices@.len() == f1.len() + count_below(node.child_mask, o2),
                    forall|g: int|
                        #[trigger] free_set(self.free_indices@).contains(g) ==> free_set(
                            f1,
                        ).contains(g) || is_child_root(n1, i as int, o2, g),
                    forall|k: int|
                        0 <= k < old(self).free_indices@.len() ==> 0 < #[trigger] old(self).free_indices@[k] < n1.len() && !desc(n1, i as int, s as int).contains(
                            old(self).free_indices@[k] as int,
                        ),
                    f1 == old(self).free_indices@,
                    !desc(n1, i as int, s as int).contains(0) || i == 0,
                    self.root_size == old(self).root_size,
                decreases 8 - o2,
            {
                if node.child_mask & (1u32 << o2) != 0 {
                    proof {
                        assert(wf_node(n1, child_slot(n1, i as int, o2), s as int / 2));
                        lemma_count_mono(node.child_mask, o2, 8);
                    }
                    let off = count_below_exec(node.child_mask, o2);
                    let sl = node.child_ptr + off as usize;
                    proof {
                        let sli = child_slot(n1, i as int, o2);
                        assert(sl == sli);
                        assert(desc(n1, sli, s as int / 2).contains(sli));
                        assert(desc(n1, i as int, s as int).contains(sli)) by {
                            lemma_kids_member(n1, i as int, s as int, 8);
                        }
                        assert(sli != 0) by {
                            if i == 0 {
                                assert(!desc(n1, sli, s as int / 2).contains(0));
                            }
                        }
                        assert(sl < base);
                        assert(!free_set(self.free_indices@).contains(sl as int)) by {
                            if free_set(self.free_indices@).contains(sl as int) {
                                if free_set(f1).contains(sl as int) {
                                    let k = choose|k: int| 0 <= k < f1.len() && f1[k] == sl;
                                } else {
                                    let co = choose|co: u32|
                                        co < o2 && nth_bit(node.child_mask, co) && sl as int
                                            == child_slot(n1, i as int, co);
                                    lemma_count_strict(node.child_mask, co, o2);
                                }
                            }
                        }
                    }
                    let ghost npre = self.nodes@;
                    let ghost fpre = self.free_indices@;
                    self.deallocate_node(sl);
                    proof {
                        assert(self.nodes@ == npre.update(sl as int, OctreeNode::empty_spec()));
                        assert(self.free_indices@ == fpre.push(sl));
                        assert forall|jj: int|
                            0 <= jj < base && !is_child_root(n1, i as int, (o2 + 1) as u32, jj)
                                implies self.nodes@[jj] == n1[jj] by {
                            assert(!is_child_root(n1, i as int, o2, jj)) by {
                                if is_child_root(n1, i as int, o2, jj) {
                                    let co = choose|co: u32|
                                        co < o2 && nth_bit(n1[i as int].child_mask, co) && jj
                                            == child_slot(n1, i as int, co);
                                    assert(co < (o2 + 1) as u32 && nth_bit(
                                        n1[i as int].child_mask,
                                        co,
                                    ) && jj == child_slot(n1, i as int, co));
                                }
                            }
                            assert(jj != sl as int) by {
                                if jj == sl as int {
                                    assert(o2 < (o2 + 1) as u32 && nth_bit(
                                        n1[i as int].child_mask,
                                        o2,
                                    ) && jj == child_slot(n1, i as int, o2));
                                }
                            }
                            assert(npre[jj] == n1[jj]);
                        }
                        assert forall|co: u32|
                            co < 8 && nth_bit(node.child_mask, co) implies self.nodes@[base
                            + count_below(new_mask, co)] == n1[child_slot(n1, i as int, co)] by {
                            assert(nth_bit(new_mask, co)) by {
                                lemma_bit_or(node.child_mask, c, co);
                            }
                            assert(count_below(new_mask, co) < kc) by {
                                lemma_count_strict(new_mask, co, 8);
                            }
                            assert(base + count_below(new_mask, co) != sl as int);
                            assert(npre[base + count_below(new_mask, co)] == n1[child_slot(
                                n1,
                                i as int,
                                co,
                            )]);
                        }
                        assert(self.nodes@[base + count_below(new_mask, c)]
                            == OctreeNode::empty_spec()) by {
                            assert(nth_bit(new_mask, c)) by {
                                lemma_bit_or(node.child_mask, c, c);
                            }
                            assert(count_below(new_mask, c) < kc) by {
                                lemma_count_strict(new_mask, c, 8);
                            }
                        }
                        assert forall|g: int|
                            #[trigger] free_set(self.free_indices@).contains(g) implies free_set(
                            f1,
                        ).contains(g) || is_child_root(n1, i as int, (o2 + 1) as u32, g) by {
                            let fse = self.free_indices@;
                            let k = choose|k: int| 0 <= k < fse.len() && fse[k] == g;
                            if k == fse.len() - 1 {
                                assert(g == sl as int);
                                assert(o2 < (o2 + 1) as u32 && nth_bit(
                                    n1[i as int].child_mask,
                                    o2,
                                ) && g == child_slot(n1, i as int, o2));
                            } else {
                                assert(fpre.push(sl)[k] == fpre[k]);
                                assert(fpre[k] == g);
                                assert(free_set(fpre).contains(g));
                                if !free_set(f1).contains(g) {
                                    let co = choose|co: u32|
                                        co < o2 && nth_bit(n1[i as int].child_mask, co) && g
                                            == child_slot(n1, i as int, co);
                                    assert(co < (o2 + 1) as u32 && nth_bit(
                                        n1[i as int].child_mask,
                                        co,
                                    ) && g == child_slot(n1, i as int, co));
                                }
                            }
                        }
                    }
                }
                o2 = o2 + 1;
            }
            // point the node at the new block and mark the octant
            let ghost nf = self.nodes@;
            let ghost ff = self.free_indices@;
            let mut nd = node;
            nd.child_ptr = base;
            nd.set_child(c, false);
            proof {
                assert(!is_child_root(n1, i as int, 8, i as int)) by {
                    if is_child_root(n1, i as int, 8, i as int) {
                        let co = choose|co: u32|
                            co < 8 && nth_bit(node.child_mask, co) && i as int == child_slot(
                                n1,
                                i as int,
                                co,
                            );
                        assert(desc(n1, child_slot(n1, i as int, co), s as int / 2).contains(
                            i as int,
                        ));
                    }
                }
                assert(nf[i as int] == n1[i as int]);
            }
            self.nodes[i] = nd;
            let off_c = count_below_exec(new_mask, c);
            proof {
                assert(self.nodes@ == nf.update(i as int, nd));
                assert forall|co: u32|
                    co < 8 && nth_bit(node.child_mask, co) implies self.nodes@[base + count_below(
                    new_mask,
                    co,
                )] == n1[child_slot(n1, i as int, co)] by {
                    assert(nth_bit(new_mask, co)) by {
                        lemma_bit_or(node.child_mask, c, co);
                    }
                    assert(count_below(new_mask, co) < kc) by {
                        lemma_count_strict(new_mask, co, 8);
                    }
                    assert(nf[base + count_below(new_mask, co)] == n1[child_slot(
                        n1,
                        i as int,
                        co,
                    )]);
                }
                assert(self.nodes@[base + count_below(new_mask, c)] == OctreeNode::empty_spec())
                    by {
                    assert(nth_bit(new_mask, c)) by {
                        lemma_bit_or(node.child_mask, c, c);
                    }
                    assert(count_below(new_mask, c) < kc) by {
                        lemma_count_strict(new_mask, c, 8);
                    }
                    assert(nf[base + count_below(new_mask, c)] == OctreeNode::empty_spec());
                }
                assert forall|jj: int|
                    0 <= jj < base && !is_child_root(n1, i as int, 8, jj) && jj != i as int
                        implies self.nodes@[jj] == n1[jj] by {
                    assert(nf[jj] == n1[jj]);
                }
                assert(self.nodes@[i as int] == nd);
                lemma_relocate_assemble(n1, self.nodes@, f1, self.free_indices@, node, new_mask,
                    i as int, s as int, c, base as int, kc as nat);
            }
            let ln2 = self.nodes.len();
            proof {
                assert(count_below(new_mask, c) < kc) by {
                    lemma_count_strict(new_mask, c, 8);
                }
                assert(base + count_below(new_mask, c) < ln2);
                assert(kc == count_below(node.child_mask, 8) + 1) by {
                    lemma_count_below_or(node.child_mask, c, 8);
                }
            }
            let j = base + off_c as usize;
            j
        }
    }
}


/// After moving a node's children to a fresh block with one more, empty,
/// slot and repointing the node, the subtree is well-formed again, reads
/// are unchanged, old child roots are unreachable, and reachability grew
/// only into the fresh block.
proof fn lemma_relocate_assemble(
    n1: Seq<OctreeNode>,
    n2: Seq<OctreeNode>,
    f1: Seq<usize>,
    f2: Seq<usize>,
    node: OctreeNode,
    new_mask: u32,
    i: int,
    s: int,
    c: u32,
    base: int,
    kc: nat,
)
    requires
        valid_size(s),
        s > 2,
        c < 8,
        wf_node(n1, i, s),
        node == n1[i],
        !nth_bit(node.child_mask, c),
        new_mask == node.child_mask | (1u32 << c),
        kc == count_below(new_mask, 8),
        base == n1.len(),
        0 <= i < base,
        n2.len() == base + kc,
        n2[i].child_mask == new_mask,
        n2[i].child_ptr == base,
        n2[i].leaf_mask == (node.leaf_mask & !(1u32 << c)),
        n2[i].voxel_id == node.voxel_id,
        forall|jj: int|
            0 <= jj < base && !is_child_root(n1, i, 8, jj) && jj != i ==> n2[jj] == n1[jj],
        forall|co: u32|
            co < 8 && nth_bit(node.child_mask, co) ==> n2[base + count_below(new_mask, co)]
                == n1[child_slot(n1, i, co)],
        n2[base + count_below(new_mask, c)] == OctreeNode::empty_spec(),
        forall|k: int| 0 <= k < f2.len() ==> 0 < #[trigger] f2[k] < n2.len(),
        forall|k1: int, k2: int|
            0 <= k1 < k2 < f2.len() ==> #[trigger] f2[k1] != #[trigger] f2[k2],
        forall|g: int|
            #[trigger] free_set(f2).contains(g) ==> free_set(f1).contains(g) || is_child_root(
                n1,
                i,
                8,
                g,
            ),
        forall|k: int|
            0 <= k < f1.len() ==> 0 < #[trigger] f1[k] < n1.len() && !desc(n1, i, s).contains(
                f1[k] as int,
            ),
    ensures
        wf_node(n2, i, s),
        nth_bit(n2[i].child_mask, c),
        child_slot(n2, i, c) == base + count_below(new_mask, c),
        n2[child_slot(n2, i, c)] == OctreeNode::empty_spec(),
        forall|jj: int|
            0 <= jj < base && !desc(n1, i, s).contains(jj) && !free_set(f1).contains(jj) ==> n2[jj]
                == n1[jj],
        forall|jj: int|
            #[trigger] desc(n2, i, s).contains(jj) ==> desc(n1, i, s).contains(jj) || free_set(
                f1,
            ).contains(jj) || base <= jj < n2.len(),
        forall|k: int|
            0 <= k < f2.len() ==> !desc(n2, i, s).contains(#[trigger] f2[k] as int),
        forall|g: int|
            #[trigger] free_set(f2).contains(g) ==> free_set(f1).contains(g) || desc(
                n1,
                i,
                s,
            ).contains(g),
        forall|x: int, y: int, z: int|
            #[trigger] lookup(n2, i, s, x, y, z) == lookup(n1, i, s, x, y, z),
{
    let h = s / 2;
    lemma_desc_in_range(n1, i, s);
    lemma_kids_member(n1, i, s, 8);
    assert(n2[i].leaf_mask == 0) by {
        assert(n1[i].leaf_mask == 0);
        assert((0u32 & !(1u32 << c)) == 0) by (bit_vector);
    }
    assert forall|co: u32| co < 8 implies nth_bit(new_mask, co) == (co == c || nth_bit(
        node.child_mask,
        co,
    )) by {
        lemma_bit_or(node.child_mask, c, co);
    }
    assert forall|co: u32| co < 8 && nth_bit(new_mask, co) implies count_below(new_mask, co)
        < kc by {
        lemma_count_strict(new_mask, co, 8);
    }
    assert forall|co1: u32, co2: u32|
        co1 < 8 && co2 < 8 && co1 != co2 && nth_bit(new_mask, co1) && nth_bit(new_mask, co2)
            implies count_below(new_mask, co1) != count_below(new_mask, co2) by {
        if co1 < co2 {
            lemma_count_strict(new_mask, co1, co2);
        } else {
            lemma_count_strict(new_mask, co2, co1);
        }
    }
    assert(child_slot(n2, i, c) == base + count_below(new_mask, c));
    // each moved child transfers to its new slot
    assert forall|co: u32| co < 8 && nth_bit(node.child_mask, co) implies {
        let sl = child_slot(n1, i, co);
        let nsl = base + count_below(new_mask, co);
        &&& wf_node(n2, nsl, h)
        &&& desc(n2, nsl, h) =~= desc(n1, sl, h).remove(sl).insert(nsl)
        &&& forall|x: int, y: int, z: int|
            #[trigger] lookup(n2, nsl, h, x, y, z) == lookup(n1, sl, h, x, y, z)
    } by {
        let sl = child_slot(n1, i, co);
        let nsl = base + count_below(new_mask, co);
        assert(wf_node(n1, sl, h));
        assert(nth_bit(new_mask, co));
        assert(count_below(new_mask, co) < kc) by {
            lemma_count_strict(new_mask, co, 8);
        }
        assert(0 <= nsl < n2.len());
        assert(desc(n1, sl, h).contains(sl));
        assert(desc(n1, i, s).contains(sl));
        lemma_desc_in_range(n1, sl, h);
        assert forall|m: int| #[trigger] desc(n1, sl, h).contains(m) && m != sl implies n2[m]
            == n1[m] by {
            assert(desc(n1, i, s).contains(m));
            assert(m != i) by {
                assert(!desc(n1, sl, h).contains(i));
            }
            assert(0 <= m < base);
            assert(!is_child_root(n1, i, 8, m)) by {
                if is_child_root(n1, i, 8, m) {
                    let co2 = choose|co2: u32|
                        co2 < 8 && nth_bit(n1[i].child_mask, co2) && m == child_slot(n1, i, co2);
                    assert(co2 != co);
                    assert(desc(n1, child_slot(n1, i, co2), h).contains(m));
                    assert(desc(n1, child_slot(n1, i, co), h).disjoint(
                        desc(n1, child_slot(n1, i, co2), h),
                    ));
                }
            }
        }
        assert(!desc(n1, sl, h).contains(nsl)) by {
            lemma_desc_in_range(n1, sl, h);
        }
        lemma_subtree_transfer(n1, n2, sl, nsl, h);
    }
    let slc = base + count_below(new_mask, c);
    assert(nth_bit(new_mask, c));
    assert(count_below(new_mask, c) < kc) by {
        lemma_count_strict(new_mask, c, 8);
    }
    assert(0 <= slc < n2.len());
    lemma_empty_node_wf(n2, slc, h);
    lemma_empty_node_desc(n2, slc, h);
    // the parent is well-formed
    assert forall|co: u32| co < 8 && nth_bit(n2[i].child_mask, co) implies wf_node(
        n2,
        #[trigger] child_slot(n2, i, co),
        h,
    ) by {
        assert(child_slot(n2, i, co) == base + count_below(new_mask, co));
    }
    assert forall|co: u32| co < 8 && nth_bit(n2[i].child_mask, co) implies !(#[trigger] desc(
        n2,
        child_slot(n2, i, co),
        h,
    )).contains(i) by {
        let nsl = base + count_below(new_mask, co);
        assert(child_slot(n2, i, co) == nsl);
        if co == c {
            assert(desc(n2, slc, h) =~= set!{slc as int});
        } else {
            assert(desc(n2, nsl, h) =~= desc(n1, child_slot(n1, i, co), h).remove(
                child_slot(n1, i, co),
            ).insert(nsl));
            assert(!desc(n1, child_slot(n1, i, co), h).contains(i));
        }
    }
    assert forall|c1: u32, c2: u32|
        c1 < 8 && c2 < 8 && c1 != c2 && nth_bit(n2[i].child_mask, c1) && nth_bit(
            n2[i].child_mask,
            c2,
        ) implies (#[trigger] desc(n2, child_slot(n2, i, c1), h)).disjoint(
        #[trigger] desc(n2, child_slot(n2, i, c2), h),
    ) by {
        let ns1 = base + count_below(new_mask, c1);
        let ns2 = base + count_below(new_mask, c2);
        assert(child_slot(n2, i, c1) == ns1 && child_slot(n2, i, c2) == ns2);
        assert forall|m: int|
            #[trigger] desc(n2, ns1, h).contains(m) && desc(n2, ns2, h).contains(m) implies
            false by {
            if c1 == c {
                assert(desc(n2, slc, h) =~= set!{slc as int});
                assert(m == slc);
                assert(desc(n2, ns2, h) =~= desc(n1, child_slot(n1, i, c2), h).remove(
                    child_slot(n1, i, c2),
                ).insert(ns2));
                lemma_desc_in_range(n1, child_slot(n1, i, c2), h);
            } else if c2 == c {
                assert(desc(n2, slc, h) =~= set!{slc as int});
                assert(m == slc);
                assert(desc(n2, ns1, h) =~= desc(n1, child_slot(n1, i, c1), h).remove(
                    child_slot(n1, i, c1),
                ).insert(ns1));
                lemma_desc_in_range(n1, child_slot(n1, i, c1), h);
            } else {
                let sl1 = child_slot(n1, i, c1);
                let sl2 = child_slot(n1, i, c2);
                assert(desc(n2, ns1, h) =~= desc(n1, sl1, h).remove(sl1).insert(ns1));
                assert(desc(n2, ns2, h) =~= desc(n1, sl2, h).remove(sl2).insert(ns2));
                assert(desc(n1, sl1, h).disjoint(desc(n1, sl2, h)));
                lemma_desc_in_range(n1, sl1, h);
                lemma_desc_in_range(n1, sl2, h);
            }
        }
    }
    assert(wf_node(n2, i, s));
    // frame
    assert forall|jj: int|
        0 <= jj < base && !desc(n1, i, s).contains(jj) && !free_set(f1).contains(jj) implies n2[jj]
        == n1[jj] by {
        assert(jj != i);
        assert(!is_child_root(n1, i, 8, jj)) by {
            if is_child_root(n1, i, 8, jj) {
                let co = choose|co: u32|
                    co < 8 && nth_bit(n1[i].child_mask, co) && jj == child_slot(n1, i, co);
                assert(desc(n1, child_slot(n1, i, co), h).contains(jj));
            }
        }
    }
    // reachability growth
    lemma_kids_member(n2, i, s, 8);
    assert forall|jj: int| #[trigger] desc(n2, i, s).contains(jj) implies desc(n1, i, s).contains(
        jj,
    ) || free_set(f1).contains(jj) || base <= jj < n2.len() by {
        if jj != i {
            assert(desc_kids(n2, i, s, 8).contains(jj));
            let co = choose|co: u32|
                co < 8 && nth_bit(n2[i].child_mask, co) && desc(
                    n2,
                    child_slot(n2, i, co),
                    h,
                ).contains(jj);
            let nsl = base + count_below(new_mask, co);
            assert(child_slot(n2, i, co) == nsl);
            if co == c {
                assert(desc(n2, slc, h) =~= set!{slc as int});
            } else {
                let sl = child_slot(n1, i, co);
                assert(desc(n2, nsl, h) =~= desc(n1, sl, h).remove(sl).insert(nsl));
                if jj != nsl {
                    assert(desc(n1, sl, h).contains(jj));
                    assert(desc(n1, i, s).contains(jj));
                }
            }
        }
    }
    // freed slots are outside the subtree
    assert forall|k: int| 0 <= k < f2.len() implies !desc(n2, i, s).contains(
        #[trigger] f2[k] as int,
    ) by {
        let g = f2[k] as int;
        assert(free_set(f2).contains(g));
        if desc(n2, i, s).contains(g) {
            assert(g != i) by {
                if free_set(f1).contains(g) {
                    let k1 = choose|k1: int| 0 <= k1 < f1.len() && f1[k1] == g;
                } else {
                    let co = choose|co: u32|
                        co < 8 && nth_bit(n1[i].child_mask, co) && g == child_slot(n1, i, co);
                    assert(desc(n1, child_slot(n1, i, co), h).contains(g));
                    assert(!desc(n1, child_slot(n1, i, co), h).contains(i));
                }
            }
            assert(desc_kids(n2, i, s, 8).contains(g));
            let co2 = choose|co2: u32|
                co2 < 8 && nth_bit(n2[i].child_mask, co2) && desc(
                    n2,
                    child_slot(n2, i, co2),
                    h,
                ).contains(g);
            let nsl = base + count_below(new_mask, co2);
            assert(child_slot(n2, i, co2) == nsl);
            assert(g < base) by {
                if free_set(f1).contains(g) {
                    let k1 = choose|k1: int| 0 <= k1 < f1.len() && f1[k1] == g;
                } else {
                    let co = choose|co: u32|
                        co < 8 && nth_bit(n1[i].child_mask, co) && g == child_slot(n1, i, co);
                    assert(desc(n1, child_slot(n1, i, co), h).contains(g));
                    assert(desc(n1, i, s).contains(g));
                }
            }
            if co2 == c {
                assert(desc(n2, slc, h) =~= set!{slc as int});
            } else {
                let sl = child_slot(n1, i, co2);
                assert(desc(n2, nsl, h) =~= desc(n1, sl, h).remove(sl).insert(nsl));
                assert(g != nsl);
                assert(desc(n1, sl, h).contains(g) && g != sl);
                if free_set(f1).contains(g) {
                    let k1 = choose|k1: int| 0 <= k1 < f1.len() && f1[k1] == g;
                    assert(desc(n1, i, s).contains(g));
                } else {
                    let co = choose|co: u32|
                        co < 8 && nth_bit(n1[i].child_mask, co) && g == child_slot(n1, i, co);
                    assert(co != co2) by {
                        if co == co2 {
                            assert(g == sl);
                        }
                    }
                    assert(desc(n1, child_slot(n1, i, co), h).contains(g));
                    assert(desc(n1, child_slot(n1, i, co), h).disjoint(desc(n1, sl, h)));
                }
            }
        }
    }
    // the free list grew only into the subtree
    assert forall|g: int| #[trigger] free_set(f2).contains(g) implies free_set(f1).contains(g)
        || desc(n1, i, s).contains(g) by {
        if !free_set(f1).contains(g) {
            let co = choose|co: u32|
                co < 8 && nth_bit(n1[i].child_mask, co) && g == child_slot(n1, i, co);
            assert(desc(n1, child_slot(n1, i, co), h).contains(g));
            assert(desc(n1, i, s).contains(g));
        }
    }
    // reads are unchanged
    assert forall|x: int, y: int, z: int|
        #[trigger] lookup(n2, i, s, x, y, z) == lookup(n1, i, s, x, y, z) by {
        let cq = octant(x, y, z, h);
        lemma_octant_eq(x, y, z, x, y, z, h);
        if cq == c {
            assert(!nth_bit(node.child_mask, cq));
            lemma_empty_node_lookup(n2, slc, h, reduce(x, h), reduce(y, h), reduce(z, h));
            assert(child_slot(n2, i, cq) == slc);
        } else if nth_bit(node.child_mask, cq) {
            let nsl = base + count_below(new_mask, cq);
            assert(child_slot(n2, i, cq) == nsl);
            assert(lookup(n2, nsl, h, reduce(x, h), reduce(y, h), reduce(z, h)) == lookup(
                n1,
                child_slot(n1, i, cq),
                h,
                reduce(x, h),
                reduce(y, h),
                reduce(z, h),
            ));
        }
    }
}


impl SparseVoxelOctree {
    /// Writes `v` at coordinates relative to node `i` of size `s`,
    /// descending and allocating as needed. Writing air where nothing is
    /// recorded changes nothing at all.
    #[verifier::rlimit(100)]
    fn set_rec(&mut self, i: usize, s: u32, x: u32, y: u32, z: u32, v: u32)
        requires
            valid_size(s as int),
            wf_node(old(self).nodes@, i as int, s as int),
            x < s,
            y < s,
            z < s,
            forall|k: int|
                0 <= k < old(self).free_indices@.len() ==> 0 < #[trigger] old(self).free_indices@[k]
                    < old(self).nodes@.len() && !desc(old(self).nodes@, i as int, s as int).contains(
                    old(self).free_indices@[k] as int,
                ),
            forall|k1: int, k2: int|
                0 <= k1 < k2 < old(self).free_indices@.len() ==> #[trigger] old(self).free_indices@[k1]
                    != #[trigger] old(self).free_indices@[k2],
            !desc(old(self).nodes@, i as int, s as int).contains(0) || i == 0,
        ensures
            wf_node(final(self).nodes@, i as int, s as int),
            final(self).nodes@.len() >= old(self).nodes@.len(),
            final(self).nodes@.len() <= old(self).nodes@.len() + pool_growth_bound(s as int),
            final(self).nodes@.len() - final(self).free_indices@.len() <= old(self).nodes@.len()
                - old(self).free_indices@.len() + live_growth_bound(s as int),
            final(self).root_size == old(self).root_size,
            forall|j: int|
                0 <= j < old(self).nodes@.len() && !desc(old(self).nodes@, i as int, s as int).contains(
                    j,
                ) && !free_set(old(self).free_indices@).contains(j) ==> final(self).nodes@[j] == old(self).nodes@[j],
            forall|j: int|
                #[trigger] desc(final(self).nodes@, i as int, s as int).contains(j) ==> desc(
                    old(self).nodes@,
                    i as int,
                    s as int,
                ).contains(j) || free_set(old(self).free_indices@).contains(j) || old(self).nodes@.len() <= j < final(self).nodes@.len(),
            forall|k: int|
                0 <= k < final(self).free_indices@.len() ==> 0 < #[trigger] final(self).free_indices@[k]
                    < final(self).nodes@.len() && !desc(
                    final(self).nodes@,
                    i as int,
                    s as int,
                ).contains(final(self).free_indices@[k] as int),
            forall|k1: int, k2: int|
                0 <= k1 < k2 < final(self).free_indices@.len() ==> #[trigger] final(self).free_indices@[k1]
                    != #[trigger] final(self).free_indices@[k2],
            forall|g: int|
                #[trigger] free_set(final(self).free_indices@).contains(g) ==> free_set(
                    old(self).free_indices@,
                ).contains(g) || desc(old(self).nodes@, i as int, s as int).contains(g),
            (v == 0 && lookup(old(self).nodes@, i as int, s as int, x as int, y as int, z as int)
                is None) ==> *final(self) == *old(self),
            !(v == 0 && lookup(old(self).nodes@, i as int, s as int, x as int, y as int, z as int)
                is None) ==> forall|qx: int, qy: int, qz: int|
                0 <= qx < s && 0 <= qy < s && 0 <= qz < s ==> #[trigger] lookup(
                    final(self).nodes@,
                    i as int,
                    s as int,
                    qx,
                    qy,
                    qz,
                ) == set_result(
                    lookup(old(self).nodes@, i as int, s as int, qx, qy, qz),
                    qx,
                    qy,
                    qz,
                    x as int,
                    y as int,
                    z as int,
                    v,
                ),
            v == 0 ==> final(self).nodes@.len() == old(self).nodes@.len() && final(self).free_indices@ == old(self).free_indices@,
        decreases s,
    {
        let ghost n1 = self.nodes@;
        let ghost f1 = self.free_indices@;
        let h: u32 = s / 2;
        let c = octant_exec(x, y, z, h);
        let node = self.nodes[i];
        if s == 2 {
            let present = node.child_mask & (1u32 << c) != 0;
            if !present && v == 0 {
                proof {
                    lemma_growth_bounds_nonneg(s as int);
                }
                return;
            }
            let mut nd = node;
            nd.set_child(c, true);
            nd.voxel_id = v;
            self.nodes[i] = nd;
            proof {
                let n2 = self.nodes@;
                assert(n2[i as int] == nd);
                assert(wf_node(n2, i as int, 2));
                assert forall|k: int| 0 <= k < self.free_indices@.len() implies 0
                    < #[trigger] self.free_indices@[k] < n2.len() && !desc(
                    n2,
                    i as int,
                    2,
                ).contains(self.free_indices@[k] as int) by {
                    assert(f1[k] != i) by {
                        assert(desc(n1, i as int, 2).contains(i as int));
                    }
                    assert(desc(n2, i as int, 2) =~= set!{i as int});
                }
                assert forall|g: int|
                    #[trigger] free_set(self.free_indices@).contains(g) implies free_set(
                    f1,
                ).contains(g) by {}
                assert forall|j: int|
                    #[trigger] desc(n2, i as int, 2).contains(j) implies desc(
                    n1,
                    i as int,
                    2,
                ).contains(j) by {
                    assert(desc(n2, i as int, 2) =~= set!{i as int});
                    assert(desc(n1, i as int, 2) =~= set!{i as int});
                }
                assert forall|qx: int, qy: int, qz: int|
                    0 <= qx < 2 && 0 <= qy < 2 && 0 <= qz < 2 implies #[trigger] lookup(
                    n2,
                    i as int,
                    2,
                    qx,
                    qy,
                    qz,
                ) == set_result(
                    lookup(n1, i as int, 2, qx, qy, qz),
                    qx,
                    qy,
                    qz,
                    x as int,
                    y as int,
                    z as int,
                    v,
                ) by {
                    let cq = octant(qx, qy, qz, 1);
                    lemma_octant_eq(qx, qy, qz, x as int, y as int, z as int, 1);
                    lemma_bit_or(node.child_mask, c, cq);
                    assert(qx / 2 == 0 && qy / 2 == 0 && qz / 2 == 0);
                    assert((x as int) / 2 == 0 && (y as int) / 2 == 0 && (z as int) / 2 == 0);
                    assert(same_cell(qx, qy, qz, x as int, y as int, z as int));
                    if cq == c {
                        assert((qx >= 1) == (x >= 1) && (qy >= 1) == (y >= 1) && (qz >= 1) == (z
                            >= 1));
                        assert(qx == x && qy == y && qz == z);
                    }
                }
            }
        } else {
            let present = node.child_mask & (1u32 << c) != 0;
            if !present && v == 0 {
                proof {
                    lemma_growth_bounds_nonneg(s as int);
                }
                return;
            }
            let j: usize;
            if present {
                let off = count_below_exec(node.child_mask, c);
                let n = self.nodes.len();
                proof {
                    assert(wf_node(n1, child_slot(n1, i as int, c), s as int / 2));
                    assert(child_slot(n1, i as int, c) < n);
                }
                j = node.child_ptr + off as usize;
            } else {
                j = self.add_child_slot(i, s, c);
            }
            let ghost nm = self.nodes@;
            let ghost fm = self.free_indices@;
            proof {
                // the octant's child now exists, holds what it held before
                // the reshape, and everything else reads as before
                assert(nth_bit(nm[i as int].child_mask, c));
                assert(wf_node(nm, i as int, s as int));
                assert(j as int == child_slot(nm, i as int, c));
                assert(wf_node(nm, j as int, s as int / 2));
                lemma_kids_member(nm, i as int, s as int, 8);
                assert(desc(nm, j as int, s as int / 2).contains(j as int));
                assert(desc(nm, i as int, s as int).contains(j as int));
                assert forall|k: int| 0 <= k < fm.len() implies 0 < #[trigger] fm[k] < nm.len()
                    && !desc(nm, j as int, s as int / 2).contains(fm[k] as int) by {
                    assert(!desc(nm, i as int, s as int).contains(fm[k] as int));
                }
                assert(!desc(nm, j as int, s as int / 2).contains(0)) by {
                    if desc(nm, j as int, s as int / 2).contains(0) {
                        assert(desc(nm, i as int, s as int).contains(0));
                        if i == 0 {
                            assert(!desc(nm, child_slot(nm, i as int, c), s as int / 2).contains(
                                i as int,
                            ));
                        } else {
                            assert(desc(n1, i as int, s as int).contains(0) || free_set(
                                f1,
                            ).contains(0) || n1.len() <= 0);
                            if free_set(f1).contains(0) {
                                let k = choose|k: int| 0 <= k < f1.len() && f1[k] == 0;
                            }
                        }
                    }
                }
            }
            let xr = if x >= h { x - h } else { x };
            let yr = if y >= h { y - h } else { y };
            let zr = if z >= h { z - h } else { z };
            self.set_rec(j, h, xr, yr, zr, v);
            proof {
                lemma_growth_bounds_nonneg(s as int / 2);
                let n2 = self.nodes@;
                let f2 = self.free_indices@;
                lemma_reassemble(nm, n2, fm, f2, i as int, s as int, c);
                lemma_kids_member(nm, i as int, s as int, 8);
                // chain the frame back to the state before this call
                assert forall|jj: int|
                    0 <= jj < n1.len() && !desc(n1, i as int, s as int).contains(jj) && !free_set(
                    f1,
                ).contains(jj) implies n2[jj] == n1[jj] by {
                    assert(!desc(nm, i as int, s as int).contains(jj));
                    assert(!free_set(fm).contains(jj));
                    assert(nm[jj] == n1[jj]);
                }
                assert forall|jj: int|
                    #[trigger] desc(n2, i as int, s as int).contains(jj) implies desc(
                    n1,
                    i as int,
                    s as int,
                ).contains(jj) || free_set(f1).contains(jj) || n1.len() <= jj < n2.len() by {}
                assert forall|g: int|
                    #[trigger] free_set(f2).contains(g) implies free_set(f1).contains(g) || desc(
                    n1,
                    i as int,
                    s as int,
                ).contains(g) by {
                    if !free_set(fm).contains(g) {
                        assert(desc(nm, j as int, s as int / 2).contains(g));
                        if present {
                            assert(desc(n1, i as int, s as int).contains(g));
                        } else {
                            assert(desc(nm, j as int, s as int / 2) =~= set!{j as int}) by {
                                lemma_empty_node_desc(nm, j as int, s as int / 2);
                            }
                            assert(desc(n2, j as int, s as int / 2).contains(j as int));
                            assert(false);
                        }
                    }
                }
                // reads: route through the child for its octant
                assert(octant(x as int, y as int, z as int, s as int / 2) == c);
                if present {
                    assert(nm == n1 && fm == f1);
                }
                if !(v == 0 && lookup(n1, i as int, s as int, x as int, y as int, z as int)
                    is None) {
                assert forall|qx: int, qy: int, qz: int|
                    0 <= qx < s && 0 <= qy < s && 0 <= qz < s implies #[trigger] lookup(
                    n2,
                    i as int,
                    s as int,
                    qx,
                    qy,
                    qz,
                ) == set_result(
                    lookup(n1, i as int, s as int, qx, qy, qz),
                    qx,
                    qy,
                    qz,
                    x as int,
                    y as int,
                    z as int,
                    v,
                ) by {
                    let hh = s as int / 2;
                    let cq = octant(qx, qy, qz, hh);
                    lemma_set_lift(s as int, qx, qy, qz, x as int, y as int, z as int,
                        lookup(n1, i as int, s as int, qx, qy, qz), v);
                    if cq == c {
                        assert(lookup(n2, i as int, s as int, qx, qy, qz) == lookup(
                            n2,
                            j as int,
                            hh,
                            reduce(qx, hh),
                            reduce(qy, hh),
                            reduce(qz, hh),
                        ));
                        assert(0 <= reduce(qx, hh) < h && 0 <= reduce(qy, hh) < h && 0 <= reduce(
                            qz,
                            hh,
                        ) < h);
                        assert(!(v == 0 && lookup(nm, j as int, hh, x as int - if x >= h {
                            h as int
                        } else {
                            0int
                        }, y as int - if y >= h { h as int } else { 0int }, z as int - if z >= h {
                            h as int
                        } else {
                            0int
                        }) is None) ==> lookup(n2, j as int, hh, reduce(qx, hh), reduce(qy, hh),
                            reduce(qz, hh)) == set_result(
                            lookup(nm, j as int, hh, reduce(qx, hh), reduce(qy, hh), reduce(qz, hh)),
                            reduce(qx, hh),
                            reduce(qy, hh),
                            reduce(qz, hh),
                            reduce(x as int, hh),
                            reduce(y as int, hh),
                            reduce(z as int, hh),
                            v,
                        ));
                        assert(lookup(nm, j as int, hh, reduce(qx, hh), reduce(qy, hh), reduce(
                            qz,
                            hh,
                        )) == lookup(nm, i as int, s as int, qx, qy, qz));
                        assert(lookup(nm, i as int, s as int, qx, qy, qz) == lookup(
                            n1,
                            i as int,
                            s as int,
                            qx,
                            qy,
                            qz,
                        ));
                        assert(!(v == 0 && lookup(nm, j as int, hh, reduce(x as int, hh), reduce(
                            y as int,
                            hh,
                        ), reduce(z as int, hh)) is None)) by {
                            if v == 0 {
                                assert(present);
                                assert(lookup(nm, j as int, hh, reduce(x as int, hh), reduce(
                                    y as int,
                                    hh,
                                ), reduce(z as int, hh)) == lookup(n1, i as int, s as int,
                                    x as int, y as int, z as int));
                            }
                        }
                    } else {
                        assert(lookup(n2, i as int, s as int, qx, qy, qz) == lookup(
                            nm,
                            i as int,
                            s as int,
                            qx,
                            qy,
                            qz,
                        ));
                        assert(lookup(nm, i as int, s as int, qx, qy, qz) == lookup(
                            n1,
                            i as int,
                            s as int,
                            qx,
                            qy,
                            qz,
                        ));
                    }
                }
                }
            }
        }
    }

    /// Writes a voxel id at a local position. Writing air where nothing is
    /// recorded is a complete no-op; writing into an occupied pair-cell
    /// updates the id its recorded voxels share; nothing else changes.
    pub fn set_voxel(&mut self, pos: LocalVoxelPos, voxel_id: VoxelId)
        requires
            old(self).wf(),
            pos.wf(),
        ensures
            final(self).wf(),
            (voxel_id.0 == 0 && old(self).voxel_at(pos.x as int, pos.y as int, pos.z as int)
                is None) ==> *final(self) == *old(self),
            !(voxel_id.0 == 0 && old(self).voxel_at(pos.x as int, pos.y as int, pos.z as int)
                is None) ==> forall|qx: int, qy: int, qz: int|
                0 <= qx < CHUNK_SIZE && 0 <= qy < CHUNK_SIZE && 0 <= qz < CHUNK_SIZE
                    ==> #[trigger] final(self).voxel_at(qx, qy, qz) == set_result(
                    old(self).voxel_at(qx, qy, qz),
                    qx,
                    qy,
                    qz,
                    pos.x as int,
                    pos.y as int,
                    pos.z as int,
                    voxel_id.0,
                ),
            final(self).value_at(pos.x as int, pos.y as int, pos.z as int) == voxel_id.0,
            voxel_id.0 == 0 ==> final(self).nodes_spec().len() == old(self).nodes_spec().len(),
            final(self).nodes_spec().len() >= old(self).nodes_spec().len(),
            final(self).nodes_spec().len() <= old(self).nodes_spec().len() + 32,
            final(self).nodes_spec().len() - final(self).free_spec().len() <= old(
                self,
            ).nodes_spec().len() - old(self).free_spec().len() + 4,
    {
        proof {
            assert forall|k: int| 0 <= k < self.free_indices@.len() implies 0
                < #[trigger] self.free_indices@[k] < self.nodes@.len() && !desc(
                self.nodes@,
                0,
                CHUNK_SIZE as int,
            ).contains(self.free_indices@[k] as int) by {
                assert(self.free_spec()[k] == self.free_indices@[k]);
            }
            assert forall|k1: int, k2: int|
                0 <= k1 < k2 < self.free_indices@.len() implies #[trigger] self.free_indices@[k1]
                != #[trigger] self.free_indices@[k2] by {
                assert(self.free_spec()[k1] == self.free_indices@[k1]);
                assert(self.free_spec()[k2] == self.free_indices@[k2]);
            }
        }
        self.set_rec(0, CHUNK_SIZE, pos.x, pos.y, pos.z, voxel_id.0);
        proof {
            assert(pool_growth_bound(2) == 0 && live_growth_bound(2) == 0);
            assert(pool_growth_bound(4) == 8 && live_growth_bound(4) == 1);
            assert(pool_growth_bound(8) == 16 && live_growth_bound(8) == 2);
            assert(pool_growth_bound(16) == 24 && live_growth_bound(16) == 3);
            assert(pool_growth_bound(32) == 32 && live_growth_bound(32) == 4);
            if !(voxel_id.0 == 0 && old(self).voxel_at(pos.x as int, pos.y as int, pos.z as int)
                is None) {
                assert(self.voxel_at(pos.x as int, pos.y as int, pos.z as int) == set_result(
                    old(self).voxel_at(pos.x as int, pos.y as int, pos.z as int),
                    pos.x as int,
                    pos.y as int,
                    pos.z as int,
                    pos.x as int,
                    pos.y as int,
                    pos.z as int,
                    voxel_id.0,
                ));
                assert(same_cell(pos.x as int, pos.y as int, pos.z as int, pos.x as int,
                    pos.y as int, pos.z as int));
            }
        }
    }
}


impl Default for SparseVoxelOctree {
    /// The empty octree, as `new` builds it.
    fn default() -> (r: SparseVoxelOctree)
        ensures
            r.wf(),
            r.nodes_spec().len() == 1,
            forall|x: int, y: int, z: int| #[trigger] r.voxel_at(x, y, z) is None,
    {
        SparseVoxelOctree::new()
    }
}

} // verus!
