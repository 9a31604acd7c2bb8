//! The two ray traversals: stepping cell by cell through a chunk's flat
//! grid (DDA), and descending the chunk's octree with box pruning.
//!
//! Both report the entry parameter of the first solid voxel they accept,
//! the cell, its material, and an axis-aligned unit normal. The grid walk
//! derives the normal from the axis stepped last, which is face-exact; the
//! octree walk approximates it from the offset of the hit point to the
//! voxel centre, a lower-fidelity estimate kept deliberately.

use vstd::prelude::*;
use crate::chunk::VoxelChunk;
use crate::ray::{Ray, RayHit, Rat, rat_wf, rat_le, ray_aabb_intersect, axis_in_slab,
    axis_strictly_in_slab, point_in_box, point_strictly_in_box, origin_strictly_inside,
    axis_unit_normal, rat_le_exec, SCALE, NUM_MAX, DEN_MAX};
use crate::svo::{SparseVoxelOctree, OctreeNode, wf_node, lookup, valid_size, child_slot,
    count_below_exec, nth_bit, octant, reduce, lemma_octant_eq, stores_solid};
use crate::voxel::{VoxelId, LocalVoxelPos, CHUNK_SIZE};

verus! {

/// Cap on grid steps per trace: a defensive guarantee of termination,
/// counted as a miss when exhausted.
pub const MAX_RAY_STEPS: u32 = 1000;

/// State of one axis of the grid walk.
struct AxisWalk {
    /// Current cell coordinate on this axis.
    cell: i64,
    /// +1 or -1: the direction the walk moves on this axis; 0 when the
    /// ray never leaves its lane.
    step: i64,
    /// Parameter at which the ray crosses into the next cell of this
    /// axis; meaningless when `step == 0`.
    tnext: Rat,
}

/// The walk's per-axis invariant: the crossing parameter names exactly
/// the boundary ahead, and the current parameter has not passed it.
spec fn axis_wf(o: int, d: int, w: AxisWalk, tcur: Rat, cmin: int) -> bool {
    &&& cmin - 1 <= w.cell <= cmin + 32
    &&& (w.cell == cmin + 32 ==> d >= 0)
    &&& (w.cell == cmin - 1 ==> d <= 0)
    &&& axis_in_slab(o, d, w.cell as int, 1, tcur.num as int, tcur.den as int)
    &&& d != 0 ==> {
        &&& w.step == (if d > 0 { 1int } else { -1int })
        &&& w.tnext.den == SCALE * (if d > 0 { d } else { -d })
        &&& w.tnext.num == ((w.cell + (if d > 0 { 1int } else { 0int })) * SCALE - o) * (if d > 0 {
            1int
        } else {
            -1int
        })
        &&& rat_wf(w.tnext)
        &&& rat_le(tcur, w.tnext)
    }
    &&& d == 0 ==> w.step == 0
}

/// Entering a cell: the floor of the ray's position at the entry
/// parameter, stepping back one cell when the position sits exactly on a
/// boundary that the ray is about to leave.
fn enter_axis(o: i64, d: i64, t: Rat, cmin: i64) -> (w: AxisWalk)
    requires
        -0x10000000000 <= o <= 0x10000000000,
        -0x100000 <= d <= 0x100000,
        rat_wf(t),
        t.num >= 0,
        -0x2000000000 <= cmin <= 0x2000000000,
        axis_in_slab(o as int, d as int, cmin as int, 32, t.num as int, t.den as int),
    ensures
        axis_wf(o as int, d as int, w, t, cmin as int),
{
    proof {
        lemma_pos_bounds(o as int, d as int, t);
    }
    let xnum: i128 = (o as i128) * t.den + t.num * (d as i128) * (SCALE as i128);
    let xden: i128 = (SCALE as i128) * t.den;
    proof {
        assert(xden > 0) by (nonlinear_arith)
            requires t.den > 0 && xden == 1024 * t.den;
        assert(cmin * xden <= xnum <= (cmin + 32) * xden) by (nonlinear_arith)
            requires
                (cmin as int) * 1024 * t.den <= (o as int) * t.den + (t.num as int) * (d as int)
                    * 1024,
                (o as int) * t.den + (t.num as int) * (d as int) * 1024 <= ((cmin as int) + 32)
                    * 1024 * t.den,
                xnum == (o as int) * t.den + (t.num as int) * (d as int) * 1024,
                xden == 1024 * t.den,
                SCALE == 1024,
                t.den > 0,
                -0x2000000000 <= (cmin as int) <= 0x2000000000;
    }
    let q = floor_div_i128(xnum, xden);
    proof {
        assert(cmin as i128 <= q <= (cmin as i128) + 32) by (nonlinear_arith)
            requires
                q * xden <= xnum < (q + 1) * xden,
                (cmin as i128) * xden <= xnum <= ((cmin as i128) + 32) * xden,
                xden > 0;
        assert(xden <= 0x10000000000) by (nonlinear_arith)
            requires xden == 1024 * t.den && 0 < t.den <= 0x40000000;
        assert(-0x1000000000000000000000 <= q * xden <= 0x1000000000000000000000)
            by (nonlinear_arith)
            requires
                (cmin as i128) <= q <= (cmin as i128) + 32,
                -0x2000000000 <= cmin <= 0x2000000000,
                0 < xden <= 0x10000000000;
    }
    let exact = xnum == q * xden;
    let cell: i64 = if d < 0 && exact && q > cmin as i128 - 1 {
        (q as i64) - 1
    } else {
        q as i64
    };
    let step: i64 = if d > 0 {
        1
    } else if d < 0 {
        -1
    } else {
        0
    };
    let bnd: i64 = cell + (if d > 0 { 1 } else { 0 });
    let sgn: i128 = if d >= 0 { 1 } else { -1 };
    let tnext = Rat {
        num: ((bnd as i128) * (SCALE as i128) - (o as i128)) * sgn,
        den: (SCALE as i128) * (if d >= 0 { d as i128 } else { -(d as i128) }),
    };
    let w = AxisWalk { cell, step, tnext };
    proof {
        lemma_enter_ok(o as int, d as int, t, cmin as int, q as int, cell as int, w);
    }
    w
}

/// Floor division with a positive divisor.
fn floor_div_i128(a: i128, b: i128) -> (q: i128)
    requires
        0 < b <= 0x80000000000000000000000000,
        -0x80000000000000000000000000 <= a <= 0x80000000000000000000000000,
    ensures
        q * b <= a < (q + 1) * b,
{
    if a >= 0 {
        let t = a / b;
        proof {
            assert(t * b <= a < (t + 1) * b) by (nonlinear_arith)
                requires
                    b > 0,
                    a >= 0,
                    t == a / b;
        }
        t
    } else {
        let na: i128 = -a;
        let u: i128 = (na + b - 1) / b;
        let t: i128 = -u;
        proof {
            let ai: int = a as int;
            let bi: int = b as int;
            let ui: int = u as int;
            assert((t as int) * bi <= ai < ((t as int) + 1) * bi) by (nonlinear_arith)
                requires
                    bi > 0,
                    ai < 0,
                    (na as int) == -ai,
                    ui == ((na as int) + bi - 1) / bi,
                    (t as int) == -ui;
        }
        t
    }
}

/// The ray's position numerator stays far inside 128 bits.
proof fn lemma_pos_bounds(o: int, d: int, t: Rat)
    requires
        -0x10000000000 <= o <= 0x10000000000,
        -0x100000 <= d <= 0x100000,
        rat_wf(t),
    ensures
        -0x80000000000000000000000000 <= o * t.den + t.num * d * 1024
            <= 0x80000000000000000000000000,
        -0x80000000000000000000000000 <= o * t.den <= 0x80000000000000000000000000,
        -0x80000000000000000000000000 <= t.num * d * 1024 <= 0x80000000000000000000000000,
{
    assert(-0x80000000000000000000000000 <= o * t.den + t.num * d * 1024
        <= 0x80000000000000000000000000 && -0x80000000000000000000000000 <= o * t.den
        <= 0x80000000000000000000000000 && -0x80000000000000000000000000 <= t.num * d * 1024
        <= 0x80000000000000000000000000) by (nonlinear_arith)
        requires
            -0x10000000000 <= o <= 0x10000000000,
            -0x100000 <= d <= 0x100000,
            0 < t.den <= 0x40000000,
            -0x1000000000000000 <= t.num <= 0x1000000000000000;
}

/// The chosen entry cell satisfies the per-axis invariant.
proof fn lemma_enter_ok(o: int, d: int, t: Rat, cmin: int, q: int, cell: int, w: AxisWalk)
    requires
        -0x10000000000 <= o <= 0x10000000000,
        -0x100000 <= d <= 0x100000,
        rat_wf(t),
        t.num >= 0,
        -0x2000000000 <= cmin <= 0x2000000000,
        q * (1024 * t.den) <= o * t.den + t.num * d * 1024 < (q + 1) * (1024 * t.den),
        cmin * 1024 * t.den <= o * t.den + t.num * d * 1024 <= (cmin + 32) * 1024 * t.den,
        cmin <= q <= cmin + 32,
        cell == (if d < 0 && o * t.den + t.num * d * 1024 == q * (1024 * t.den) && q > cmin - 1 {
            q - 1
        } else {
            q
        }),
        w.cell == cell,
        w.step == (if d > 0 { 1int } else if d < 0 { -1int } else { 0int }),
        d != 0 ==> w.tnext.num == ((cell + (if d > 0 { 1int } else { 0int })) * 1024 - o) * (if d
            >= 0 { 1int } else { -1int }) && w.tnext.den == 1024 * (if d >= 0 { d } else { -d }),
    ensures
        axis_wf(o, d, w, t, cmin),
{
    assert(w.cell == cmin + 32 ==> d >= 0) by {
        if d < 0 && cell == cmin + 32 {
            assert(cell == q - 1 || (cell == q && q == cmin + 32));
            if cell == q {
                assert(o * t.den + t.num * d * 1024 == q * (1024 * t.den)) by (nonlinear_arith)
                    requires
                        q * (1024 * t.den) <= o * t.den + t.num * d * 1024,
                        o * t.den + t.num * d * 1024 <= (cmin + 32) * 1024 * t.den,
                        q == cmin + 32,
                        t.den > 0;
            }
        }
    }
    assert(w.cell == cmin - 1 ==> d <= 0) by {
        if cell == cmin - 1 {
            assert(cell == q - 1);
        }
    }
    assert(axis_in_slab(o, d, cell, 1, t.num as int, t.den as int)) by (nonlinear_arith)
        requires
            q * (1024 * t.den) <= o * t.den + t.num * d * 1024 < (q + 1) * (1024 * t.den),
            cell == q || (cell == q - 1 && o * t.den + t.num * d * 1024 == q * (1024 * t.den)),
            t.den > 0,
            SCALE == 1024,
            axis_in_slab(o, d, cell, 1, t.num as int, t.den as int) == (cell * 1024 * t.den <= o
                * t.den + t.num * d * 1024 <= (cell + 1) * 1024 * t.den);
    if d != 0 {
        assert(rat_wf(w.tnext)) by (nonlinear_arith)
            requires
                w.tnext.den == 1024 * (if d >= 0 { d } else { -d }),
                w.tnext.num == ((cell + (if d > 0 { 1int } else { 0int })) * 1024 - o) * (if d >= 0
                    { 1int } else { -1int }),
                d != 0,
                -0x100000 <= d <= 0x100000,
                -0x2000000000 - 1 <= cell <= 0x2000000000 + 32,
                -0x10000000000 <= o <= 0x10000000000,
                DEN_MAX == 0x40000000,
                NUM_MAX == 0x1000000000000000,
                rat_wf(w.tnext) == (0 < w.tnext.den <= DEN_MAX && -NUM_MAX <= w.tnext.num
                    <= NUM_MAX);
        assert(rat_le(t, w.tnext)) by (nonlinear_arith)
            requires
                axis_in_slab(o, d, cell, 1, t.num as int, t.den as int) == (cell * 1024 * t.den
                    <= o * t.den + t.num * d * 1024 <= (cell + 1) * 1024 * t.den),
                axis_in_slab(o, d, cell, 1, t.num as int, t.den as int),
                w.tnext.den == 1024 * (if d >= 0 { d } else { -d }),
                w.tnext.num == ((cell + (if d > 0 { 1int } else { 0int })) * 1024 - o) * (if d >= 0
                    { 1int } else { -1int }),
                d != 0,
                t.den > 0,
                rat_le(t, w.tnext) == (t.num * w.tnext.den <= w.tnext.num * t.den);
    }
}

/// Advancing past the chosen axis's boundary keeps every other axis
/// within its cell: the parameter has not reached their next crossings.
proof fn lemma_axis_carry(o: int, d: int, w: AxisWalk, t1: Rat, t2: Rat, cmin: int)
    requires
        rat_wf(t1),
        rat_wf(t2),
        rat_le(t1, t2),
        axis_wf(o, d, w, t1, cmin),
        d != 0 ==> rat_le(t2, w.tnext),
    ensures
        axis_wf(o, d, w, t2, cmin),
{
    if d == 0 {
        assert(axis_in_slab(o, d, w.cell as int, 1, t2.num as int, t2.den as int))
            by (nonlinear_arith)
            requires
                axis_in_slab(o, d, w.cell as int, 1, t1.num as int, t1.den as int) == ((
                w.cell as int) * 1024 * t1.den <= o * t1.den + t1.num * d * 1024 <= ((
                w.cell as int) + 1) * 1024 * t1.den),
                axis_in_slab(o, d, w.cell as int, 1, t1.num as int, t1.den as int),
                axis_in_slab(o, d, w.cell as int, 1, t2.num as int, t2.den as int) == ((
                w.cell as int) * 1024 * t2.den <= o * t2.den + t2.num * d * 1024 <= ((
                w.cell as int) + 1) * 1024 * t2.den),
                d == 0,
                t1.den > 0,
                t2.den > 0;
    } else {
        let c = w.cell as int;
        let bnd: int = c + (if d > 0 { 1int } else { 0int });
        let sg: int = if d > 0 { 1int } else { -1int };
        assert((d > 0 ==> o * t2.den + t2.num * d * 1024 <= (c + 1) * 1024 * t2.den) && (d < 0
            ==> c * 1024 * t2.den <= o * t2.den + t2.num * d * 1024)) by (nonlinear_arith)
            requires
                t2.num * w.tnext.den <= w.tnext.num * t2.den,
                w.tnext.den == 1024 * (if d > 0 { d } else { -d }),
                w.tnext.num == (bnd * 1024 - o) * sg,
                bnd == c + (if d > 0 { 1int } else { 0int }),
                sg == (if d > 0 { 1int } else { -1int }),
                d != 0,
                t2.den > 0;
        assert((d > 0 ==> c * 1024 * t2.den <= o * t2.den + t2.num * d * 1024) && (d < 0 ==> o
            * t2.den + t2.num * d * 1024 <= (c + 1) * 1024 * t2.den)) by (nonlinear_arith)
            requires
                c * 1024 * t1.den <= o * t1.den + t1.num * d * 1024 <= (c + 1) * 1024 * t1.den,
                t1.num * t2.den <= t2.num * t1.den,
                t1.den > 0,
                t2.den > 0;
    }
}

/// How many cells the walk can still step on one axis before leaving the
/// chunk's cell band.
spec fn remaining_steps(d: int, cell: int, cmin: int) -> int {
    if d > 0 {
        cmin + 32 - cell
    } else if d < 0 {
        cell - (cmin - 1)
    } else {
        0
    }
}

/// No solid voxel of the chunk is strictly pierced by the ray at a
/// nonnegative parameter below the bound (below any parameter, when no
/// bound is given).
pub open spec fn chunk_clear_below(
    ray: Ray,
    chunk: VoxelChunk,
    cmx: int,
    cmy: int,
    cmz: int,
    bound: Option<Rat>,
) -> bool {
    forall|cx: int, cy: int, cz: int, p: int, q: int|
        cmx <= cx < cmx + 32 && cmy <= cy < cmy + 32 && cmz <= cz < cmz + 32 && q > 0 && p >= 0
            && #[trigger] point_strictly_in_box(ray, p, q, cx, cy, cz, 1) && (match bound {
            Some(t) => p * t.den < t.num * q,
            None => true,
        }) ==> chunk.octree.value_at(cx - cmx, cy - cmy, cz - cmz) == 0
}

/// Between the current parameter and the axis's next crossing the ray
/// stays within the current cell's closed slab.
proof fn lemma_axis_carry_frac(o: int, d: int, w: AxisWalk, t1: Rat, p: int, q: int, cmin: int)
    requires
        rat_wf(t1),
        q > 0,
        axis_wf(o, d, w, t1, cmin),
        t1.num * q <= p * t1.den,
        d != 0 ==> p * w.tnext.den <= w.tnext.num * q,
    ensures
        axis_in_slab(o, d, w.cell as int, 1, p, q),
{
    if d == 0 {
        assert(axis_in_slab(o, d, w.cell as int, 1, p, q)) by (nonlinear_arith)
            requires
                axis_in_slab(o, d, w.cell as int, 1, t1.num as int, t1.den as int) == ((
                w.cell as int) * 1024 * t1.den <= o * t1.den + t1.num * d * 1024 <= ((
                w.cell as int) + 1) * 1024 * t1.den),
                axis_in_slab(o, d, w.cell as int, 1, t1.num as int, t1.den as int),
                axis_in_slab(o, d, w.cell as int, 1, p, q) == ((w.cell as int) * 1024 * q <= o * q
                    + p * d * 1024 <= ((w.cell as int) + 1) * 1024 * q),
                d == 0,
                t1.den > 0,
                q > 0;
    } else {
        let c = w.cell as int;
        let bnd: int = c + (if d > 0 { 1int } else { 0int });
        let sg: int = if d > 0 { 1int } else { -1int };
        assert((d > 0 ==> o * q + p * d * 1024 <= (c + 1) * 1024 * q) && (d < 0 ==> c * 1024 * q
            <= o * q + p * d * 1024)) by (nonlinear_arith)
            requires
                p * w.tnext.den <= w.tnext.num * q,
                w.tnext.den == 1024 * (if d > 0 { d } else { -d }),
                w.tnext.num == (bnd * 1024 - o) * sg,
                bnd == c + (if d > 0 { 1int } else { 0int }),
                sg == (if d > 0 { 1int } else { -1int }),
                d != 0,
                q > 0;
        assert((d > 0 ==> c * 1024 * q <= o * q + p * d * 1024) && (d < 0 ==> o * q + p * d * 1024
            <= (c + 1) * 1024 * q)) by (nonlinear_arith)
            requires
                c * 1024 * t1.den <= o * t1.den + t1.num * d * 1024 <= (c + 1) * 1024 * t1.den,
                t1.num * q <= p * t1.den,
                t1.den > 0,
                q > 0;
    }
}

/// A point strictly inside a unit cell shares that cell with any point
/// whose closed slab is known: the cells coincide on every axis.
proof fn lemma_strict_pins_cell(o: int, d: int, cc: int, dd: int, p: int, q: int)
    requires
        q > 0,
        axis_in_slab(o, d, cc, 1, p, q),
        axis_strictly_in_slab(o, d, dd, 1, p, q),
    ensures
        dd == cc,
{
    assert(dd == cc) by (nonlinear_arith)
        requires
            cc * 1024 * q <= o * q + p * d * 1024 <= (cc + 1) * 1024 * q,
            dd * 1024 * q < o * q + p * d * 1024 < (dd + 1) * 1024 * q,
            q > 0;
}

/// Once the walk has reached the chunk's outer face moving outward, no
/// later parameter pierces any cell of the chunk strictly.
proof fn lemma_no_reentry(
    o: int,
    d: int,
    low: bool,
    edge: int,
    t: Rat,
    p: int,
    q: int,
    dd: int,
)
    requires
        rat_wf(t),
        q > 0,
        t.num * q <= p * t.den,
        low ==> d <= 0 && o * t.den + t.num * d * 1024 <= edge * 1024 * t.den,
        !low ==> d >= 0 && o * t.den + t.num * d * 1024 >= edge * 1024 * t.den,
        low ==> dd >= edge,
        !low ==> dd + 1 <= edge,
    ensures
        !axis_strictly_in_slab(o, d, dd, 1, p, q),
{
    if low {
        assert(o * q + p * d * 1024 <= edge * 1024 * q) by (nonlinear_arith)
            requires
                d <= 0,
                o * t.den + t.num * d * 1024 <= edge * 1024 * t.den,
                t.num * q <= p * t.den,
                t.den > 0,
                q > 0;
        assert(!(dd * 1024 * q < o * q + p * d * 1024)) by (nonlinear_arith)
            requires
                o * q + p * d * 1024 <= edge * 1024 * q,
                dd >= edge,
                q > 0;
    } else {
        assert(o * q + p * d * 1024 >= edge * 1024 * q) by (nonlinear_arith)
            requires
                d >= 0,
                o * t.den + t.num * d * 1024 >= edge * 1024 * t.den,
                t.num * q <= p * t.den,
                t.den > 0,
                q > 0;
        assert(!(o * q + p * d * 1024 < (dd + 1) * 1024 * q)) by (nonlinear_arith)
            requires
                o * q + p * d * 1024 >= edge * 1024 * q,
                dd + 1 <= edge,
                q > 0;
    }
}

/// A point strictly inside a unit cell lies in any enclosing box, and
/// with parameter zero the ray's origin is strictly inside that box.
proof fn lemma_strict_widen(
    ray: Ray,
    p: int,
    q: int,
    cx: int,
    cy: int,
    cz: int,
    bx: int,
    by: int,
    bz: int,
    size: int,
)
    requires
        q > 0,
        point_strictly_in_box(ray, p, q, cx, cy, cz, 1),
        bx <= cx && cx + 1 <= bx + size,
        by <= cy && cy + 1 <= by + size,
        bz <= cz && cz + 1 <= bz + size,
    ensures
        point_in_box(ray, p, q, bx, by, bz, size),
        p == 0 ==> origin_strictly_inside(ray, bx, by, bz, size),
{
    lemma_strict_widen_axis(ray.ox as int, ray.dx as int, p, q, cx, bx, size);
    lemma_strict_widen_axis(ray.oy as int, ray.dy as int, p, q, cy, by, size);
    lemma_strict_widen_axis(ray.oz as int, ray.dz as int, p, q, cz, bz, size);
}

proof fn lemma_strict_widen_axis(o: int, d: int, p: int, q: int, cc: int, m: int, size: int)
    requires
        q > 0,
        axis_strictly_in_slab(o, d, cc, 1, p, q),
        m <= cc && cc + 1 <= m + size,
    ensures
        m * 1024 * q <= o * q + p * d * 1024 <= (m + size) * 1024 * q,
        p == 0 ==> m * 1024 < o && o < (m + size) * 1024,
{
    assert(m * 1024 * q <= o * q + p * d * 1024 <= (m + size) * 1024 * q && (p == 0 ==> m * 1024
        < o && o < (m + size) * 1024)) by (nonlinear_arith)
        requires
            cc * 1024 * q < o * q + p * d * 1024 < (cc + 1) * 1024 * q,
            m <= cc,
            cc + 1 <= m + size,
            q > 0;
}

/// The grid tracer: walks the ray through a chunk's flat voxel grid.
pub struct ChunkRaytracer;

impl ChunkRaytracer {
    /// Traces a ray against one chunk by grid stepping. On a hit the
    /// reported cell lies in the chunk, the reported material is exactly
    /// what the chunk stores there and it is solid, and the ray's point at
    /// the reported parameter lies within that cell. A chunk storing no
    /// solid voxel is never hit.
    pub fn trace_chunk(ray: &Ray, chunk: &VoxelChunk) -> (r: RayHit)
        requires
            ray.wf(),
            chunk.wf(),
        ensures
            r.hit ==> ({
                let cmx = chunk.position.x as int * 32;
                let cmy = chunk.position.y as int * 32;
                let cmz = chunk.position.z as int * 32;
                &&& cmx <= r.cx < cmx + 32
                &&& cmy <= r.cy < cmy + 32
                &&& cmz <= r.cz < cmz + 32
                &&& r.material_id.0 == chunk.octree.value_at(r.cx - cmx, r.cy - cmy, r.cz - cmz)
                &&& r.material_id.0 != 0
                &&& rat_wf(r.t)
                &&& r.t.num >= 0
                &&& point_in_box(*ray, r.t.num as int, r.t.den as int, r.cx as int, r.cy as int,
                    r.cz as int, 1)
                &&& axis_unit_normal(r.nx as int, r.ny as int, r.nz as int)
                &&& (r.nx != 0 ==> ray.dx != 0 && ((ray.dx > 0) == (r.nx == -1)))
                &&& (r.ny != 0 ==> ray.dy != 0 && ((ray.dy > 0) == (r.ny == -1)))
                &&& (r.nz != 0 ==> ray.dz != 0 && ((ray.dz > 0) == (r.nz == -1)))
            }),
            !r.hit ==> r.material_id.0 == 0,
            // completeness: a miss means the ray strictly pierces no solid
            // voxel of the chunk at any nonnegative parameter
            !r.hit ==> chunk_clear_below(
                *ray,
                *chunk,
                chunk.position.x as int * 32,
                chunk.position.y as int * 32,
                chunk.position.z as int * 32,
                None,
            ),
            // first hit: nothing solid is strictly pierced before the
            // reported entry parameter
            r.hit ==> chunk_clear_below(
                *ray,
                *chunk,
                chunk.position.x as int * 32,
                chunk.position.y as int * 32,
                chunk.position.z as int * 32,
                Some(r.t),
            ),
            // a hit certifies the ray meets the chunk's box at a strictly
            // positive parameter, so a slab rejection entails a miss
            r.hit ==> (exists|p: int, q: int|
                q > 0 && p > 0 && #[trigger] point_in_box(*ray, p, q, chunk.position.x as int
                    * 32, chunk.position.y as int * 32, chunk.position.z as int * 32, 32)),
    {
        let cmx: i64 = (chunk.position.x as i64) * 32;
        let cmy: i64 = (chunk.position.y as i64) * 32;
        let cmz: i64 = (chunk.position.z as i64) * 32;
        let (tn, tf) = match ray_aabb_intersect(ray, cmx, cmy, cmz, 32) {
            Some(v) => v,
            None => {
                proof {
                    lemma_clear_outside_box(*ray, *chunk, cmx as int, cmy as int, cmz as int);
                }
                return RayHit::new_miss();
            },
        };
        let mut wx = enter_axis(ray.ox, ray.dx, tn, cmx);
        let mut wy = enter_axis(ray.oy, ray.dy, tn, cmy);
        let mut wz = enter_axis(ray.oz, ray.dz, tn, cmz);
        let mut tcur = tn;
        let mut last_axis: u8 = if ray.dx != 0 {
            0
        } else if ray.dy != 0 {
            1
        } else {
            2
        };
        let mut steps: u32 = 0;
        proof {
            // nothing is strictly pierced before the chunk is entered
            assert forall|cx: int, cy: int, cz: int, p: int, q: int|
                cmx <= cx < cmx + 32 && cmy <= cy < cmy + 32 && cmz <= cz < cmz + 32 && q > 0 && p
                    >= 0 && #[trigger] point_strictly_in_box(*ray, p, q, cx, cy, cz, 1) && p
                    * tcur.den < tcur.num * q implies chunk.octree.value_at(
                cx - cmx,
                cy - cmy,
                cz - cmz,
            ) == 0 by {
                lemma_strict_widen(*ray, p, q, cx, cy, cz, cmx as int, cmy as int, cmz as int, 32);
                assert(p * 1 >= 0 * q) by (nonlinear_arith)
                    requires p >= 0 && q > 0;
                assert(false) by (nonlinear_arith)
                    requires
                        tn.num * q <= p * tn.den,
                        p * tn.den < tn.num * q;
            }
        }
        while steps < MAX_RAY_STEPS
            invariant
                ray.wf(),
                chunk.wf(),
                cmx == (chunk.position.x as int) * 32,
                cmy == (chunk.position.y as int) * 32,
                cmz == (chunk.position.z as int) * 32,
                rat_wf(tcur),
                tcur.num >= 0,
                axis_wf(ray.ox as int, ray.dx as int, wx, tcur, cmx as int),
                axis_wf(ray.oy as int, ray.dy as int, wy, tcur, cmy as int),
                axis_wf(ray.oz as int, ray.dz as int, wz, tcur, cmz as int),
                last_axis < 3,
                last_axis == 0 ==> ray.dx != 0,
                last_axis == 1 ==> ray.dy != 0,
                last_axis == 2 ==> ray.dz != 0,
                steps <= MAX_RAY_STEPS,
                rat_wf(tf),
                tf.num > 0,
                point_in_box(*ray, tf.num as int, tf.den as int, cmx as int, cmy as int,
                    cmz as int, 32),
                steps + remaining_steps(ray.dx as int, wx.cell as int, cmx as int)
                    + remaining_steps(ray.dy as int, wy.cell as int, cmy as int)
                    + remaining_steps(ray.dz as int, wz.cell as int, cmz as int) <= 99,
                chunk_clear_below(*ray, *chunk, cmx as int, cmy as int, cmz as int, Some(tcur)),
            decreases MAX_RAY_STEPS - steps,
        {
            // leave when the walk has exited the chunk
            if wx.cell < cmx || wx.cell >= cmx + 32 || wy.cell < cmy || wy.cell >= cmy + 32
                || wz.cell < cmz || wz.cell >= cmz + 32 {
                proof {
                    lemma_exit_clears(*ray, *chunk, wx, wy, wz, tcur, cmx as int, cmy as int,
                        cmz as int);
                }
                return RayHit::new_miss();
            }
            let local = LocalVoxelPos::new(
                (wx.cell - cmx) as u32,
                (wy.cell - cmy) as u32,
                (wz.cell - cmz) as u32,
            );
            let id = chunk.get_voxel(local);
            if id.is_solid() {
                let (nx, ny, nz): (i32, i32, i32) = if last_axis == 0 {
                    (if wx.step > 0 { -1 } else { 1 }, 0, 0)
                } else if last_axis == 1 {
                    (0, if wy.step > 0 { -1 } else { 1 }, 0)
                } else {
                    (0, 0, if wz.step > 0 { -1 } else { 1 })
                };
                proof {
                    assert(point_in_box(*ray, tcur.num as int, tcur.den as int, wx.cell as int,
                        wy.cell as int, wz.cell as int, 1));
                    assert(local.x == wx.cell - cmx && local.y == wy.cell - cmy && local.z
                        == wz.cell - cmz);
                    assert(tf.den > 0 && tf.num > 0 && point_in_box(*ray, tf.num as int,
                        tf.den as int, cmx as int, cmy as int, cmz as int, 32));
                }
                return RayHit::new_hit(wx.cell, wy.cell, wz.cell, tcur, nx, ny, nz, id);
            }
            // advance the axis whose boundary comes first
            let cx_ok = ray.dx != 0;
            let cy_ok = ray.dy != 0;
            let cz_ok = ray.dz != 0;
            let pick_x = cx_ok && (!cy_ok || rat_le_exec(wx.tnext, wy.tnext)) && (!cz_ok
                || rat_le_exec(wx.tnext, wz.tnext));
            let pick_y = !pick_x && cy_ok && (!cz_ok || rat_le_exec(wy.tnext, wz.tnext));
            proof {
                if !pick_x && !pick_y {
                    assert(cz_ok) by {
                        if !cz_ok {
                            if cy_ok {
                                assert(pick_y);
                            } else {
                                assert(cx_ok);
                                assert(pick_x);
                            }
                        }
                    }
                }
            }
            let t2: Rat = if pick_x {
                wx.tnext
            } else if pick_y {
                wy.tnext
            } else {
                wz.tnext
            };
            proof {
                lemma_pick_min(*ray, wx, wy, wz, t2, pick_x, pick_y);
                assert(rat_le(tcur, t2));
                assert(t2.num >= 0) by (nonlinear_arith)
                    requires
                        tcur.num * t2.den <= t2.num * tcur.den,
                        tcur.num >= 0,
                        tcur.den > 0,
                        t2.den > 0;
            }
            let ghost t1 = tcur;
            let ghost owx = wx;
            let ghost owy = wy;
            let ghost owz = wz;
            tcur = t2;
            if pick_x {
                proof {
                    lemma_step_axis(ray.ox as int, ray.dx as int, wx, t1, cmx as int);
                    lemma_axis_carry(ray.oy as int, ray.dy as int, wy, t1, t2, cmy as int);
                    lemma_axis_carry(ray.oz as int, ray.dz as int, wz, t1, t2, cmz as int);
                }
                wx = AxisWalk {
                    cell: wx.cell + wx.step,
                    step: wx.step,
                    tnext: Rat { num: wx.tnext.num + (SCALE as i128), den: wx.tnext.den },
                };
                last_axis = 0;
            } else if pick_y {
                proof {
                    lemma_step_axis(ray.oy as int, ray.dy as int, wy, t1, cmy as int);
                    lemma_axis_carry(ray.ox as int, ray.dx as int, wx, t1, t2, cmx as int);
                    lemma_axis_carry(ray.oz as int, ray.dz as int, wz, t1, t2, cmz as int);
                }
                wy = AxisWalk {
                    cell: wy.cell + wy.step,
                    step: wy.step,
                    tnext: Rat { num: wy.tnext.num + (SCALE as i128), den: wy.tnext.den },
                };
                last_axis = 1;
            } else {
                proof {
                    lemma_step_axis(ray.oz as int, ray.dz as int, wz, t1, cmz as int);
                    lemma_axis_carry(ray.ox as int, ray.dx as int, wx, t1, t2, cmx as int);
                    lemma_axis_carry(ray.oy as int, ray.dy as int, wy, t1, t2, cmy as int);
                }
                wz = AxisWalk {
                    cell: wz.cell + wz.step,
                    step: wz.step,
                    tnext: Rat { num: wz.tnext.num + (SCALE as i128), den: wz.tnext.den },
                };
                last_axis = 2;
            }
            proof {
                // parameters between the old and new front lie in the cell
                // just found empty
                assert forall|cx: int, cy: int, cz: int, p: int, q: int|
                    cmx <= cx < cmx + 32 && cmy <= cy < cmy + 32 && cmz <= cz < cmz + 32 && q > 0
                        && p >= 0 && #[trigger] point_strictly_in_box(*ray, p, q, cx, cy, cz, 1)
                        && p * tcur.den < tcur.num * q implies chunk.octree.value_at(
                    cx - cmx,
                    cy - cmy,
                    cz - cmz,
                ) == 0 by {
                    if p * t1.den < t1.num * q {
                    } else {
                        assert(t1.num * q <= p * t1.den);
                        assert(p * t2.den < t2.num * q);
                        if ray.dx != 0 {
                            assert(rat_le(t2, owx.tnext));
                            assert(p * owx.tnext.den <= owx.tnext.num * q) by (nonlinear_arith)
                                requires
                                    p * t2.den < t2.num * q,
                                    t2.num * owx.tnext.den <= owx.tnext.num * t2.den,
                                    t2.den > 0,
                                    owx.tnext.den > 0,
                                    q > 0;
                        }
                        if ray.dy != 0 {
                            assert(rat_le(t2, owy.tnext));
                            assert(p * owy.tnext.den <= owy.tnext.num * q) by (nonlinear_arith)
                                requires
                                    p * t2.den < t2.num * q,
                                    t2.num * owy.tnext.den <= owy.tnext.num * t2.den,
                                    t2.den > 0,
                                    owy.tnext.den > 0,
                                    q > 0;
                        }
                        if ray.dz != 0 {
                            assert(rat_le(t2, owz.tnext));
                            assert(p * owz.tnext.den <= owz.tnext.num * q) by (nonlinear_arith)
                                requires
                                    p * t2.den < t2.num * q,
                                    t2.num * owz.tnext.den <= owz.tnext.num * t2.den,
                                    t2.den > 0,
                                    owz.tnext.den > 0,
                                    q > 0;
                        }
                        lemma_axis_carry_frac(ray.ox as int, ray.dx as int, owx, t1, p, q,
                            cmx as int);
                        lemma_axis_carry_frac(ray.oy as int, ray.dy as int, owy, t1, p, q,
                            cmy as int);
                        lemma_axis_carry_frac(ray.oz as int, ray.dz as int, owz, t1, p, q,
                            cmz as int);
                        lemma_strict_pins_cell(ray.ox as int, ray.dx as int, owx.cell as int, cx,
                            p, q);
                        lemma_strict_pins_cell(ray.oy as int, ray.dy as int, owy.cell as int, cy,
                            p, q);
                        lemma_strict_pins_cell(ray.oz as int, ray.dz as int, owz.cell as int, cz,
                            p, q);
                    }
                }
            }
            steps = steps + 1;
        }
        proof {
            // the walk leaves the chunk in at most 99 boundary crossings,
            // so the step cap is never the reason a trace ends
            assert(remaining_steps(ray.dx as int, wx.cell as int, cmx as int) >= 0);
            assert(remaining_steps(ray.dy as int, wy.cell as int, cmy as int) >= 0);
            assert(remaining_steps(ray.dz as int, wz.cell as int, cmz as int) >= 0);
            assert(false);
        }
        RayHit::new_miss()
    }
}

/// A ray whose slab test rejects the chunk strictly pierces none of its
/// voxels at a nonnegative parameter.
proof fn lemma_clear_outside_box(ray: Ray, chunk: VoxelChunk, cmx: int, cmy: int, cmz: int)
    requires
        forall|p: int, q: int|
            q > 0 && p > 0 ==> !(#[trigger] point_in_box(ray, p, q, cmx, cmy, cmz, 32)),
        !origin_strictly_inside(ray, cmx, cmy, cmz, 32),
    ensures
        chunk_clear_below(ray, chunk, cmx, cmy, cmz, None),
{
    assert forall|cx: int, cy: int, cz: int, p: int, q: int|
        cmx <= cx < cmx + 32 && cmy <= cy < cmy + 32 && cmz <= cz < cmz + 32 && q > 0 && p >= 0
            && #[trigger] point_strictly_in_box(ray, p, q, cx, cy, cz, 1) implies
        chunk.octree.value_at(cx - cmx, cy - cmy, cz - cmz) == 0 by {
        lemma_strict_widen(ray, p, q, cx, cy, cz, cmx, cmy, cmz, 32);
        if p > 0 {
            assert(point_in_box(ray, p, q, cmx, cmy, cmz, 32));
        } else {
            assert(p == 0);
            assert(origin_strictly_inside(ray, cmx, cmy, cmz, 32));
        }
    }
}

/// When the walk has stepped off the chunk, every remaining parameter is
/// outside the chunk's interior, so the whole chunk is clear.
proof fn lemma_exit_clears(
    ray: Ray,
    chunk: VoxelChunk,
    wx: AxisWalk,
    wy: AxisWalk,
    wz: AxisWalk,
    tcur: Rat,
    cmx: int,
    cmy: int,
    cmz: int,
)
    requires
        rat_wf(tcur),
        tcur.num >= 0,
        axis_wf(ray.ox as int, ray.dx as int, wx, tcur, cmx),
        axis_wf(ray.oy as int, ray.dy as int, wy, tcur, cmy),
        axis_wf(ray.oz as int, ray.dz as int, wz, tcur, cmz),
        wx.cell < cmx || wx.cell >= cmx + 32 || wy.cell < cmy || wy.cell >= cmy + 32 || wz.cell
            < cmz || wz.cell >= cmz + 32,
        chunk_clear_below(ray, chunk, cmx, cmy, cmz, Some(tcur)),
    ensures
        chunk_clear_below(ray, chunk, cmx, cmy, cmz, None),
{
    assert forall|cx: int, cy: int, cz: int, p: int, q: int|
        cmx <= cx < cmx + 32 && cmy <= cy < cmy + 32 && cmz <= cz < cmz + 32 && q > 0 && p >= 0
            && #[trigger] point_strictly_in_box(ray, p, q, cx, cy, cz, 1) implies
        chunk.octree.value_at(cx - cmx, cy - cmy, cz - cmz) == 0 by {
        if p * tcur.den < tcur.num * q {
        } else {
            assert(tcur.num * q <= p * tcur.den);
            if wx.cell < cmx {
                assert(wx.cell == cmx - 1 && ray.dx <= 0);
                lemma_no_reentry(ray.ox as int, ray.dx as int, true, cmx, tcur, p, q, cx);
            } else if wx.cell >= cmx + 32 {
                assert(wx.cell == cmx + 32 && ray.dx >= 0);
                lemma_no_reentry(ray.ox as int, ray.dx as int, false, cmx + 32, tcur, p, q, cx);
            } else if wy.cell < cmy {
                assert(wy.cell == cmy - 1 && ray.dy <= 0);
                lemma_no_reentry(ray.oy as int, ray.dy as int, true, cmy, tcur, p, q, cy);
            } else if wy.cell >= cmy + 32 {
                assert(wy.cell == cmy + 32 && ray.dy >= 0);
                lemma_no_reentry(ray.oy as int, ray.dy as int, false, cmy + 32, tcur, p, q, cy);
            } else if wz.cell < cmz {
                assert(wz.cell == cmz - 1 && ray.dz <= 0);
                lemma_no_reentry(ray.oz as int, ray.dz as int, true, cmz, tcur, p, q, cz);
            } else {
                assert(wz.cell == cmz + 32 && ray.dz >= 0);
                lemma_no_reentry(ray.oz as int, ray.dz as int, false, cmz + 32, tcur, p, q, cz);
            }
        }
    }
}

/// The chosen axis's crossing is no later than any other live axis's.
proof fn lemma_pick_min(ray: Ray, wx: AxisWalk, wy: AxisWalk, wz: AxisWalk, t2: Rat, pick_x: bool,
    pick_y: bool)
    requires
        ray.wf(),
        ray.dx != 0 ==> rat_wf(wx.tnext),
        ray.dy != 0 ==> rat_wf(wy.tnext),
        ray.dz != 0 ==> rat_wf(wz.tnext),
        pick_x == (ray.dx != 0 && (ray.dy == 0 || rat_le(wx.tnext, wy.tnext)) && (ray.dz == 0
            || rat_le(wx.tnext, wz.tnext))),
        pick_y == (!pick_x && ray.dy != 0 && (ray.dz == 0 || rat_le(wy.tnext, wz.tnext))),
        t2 == (if pick_x {
            wx.tnext
        } else if pick_y {
            wy.tnext
        } else {
            wz.tnext
        }),
        !pick_x && !pick_y ==> ray.dz != 0,
    ensures
        rat_wf(t2),
        ray.dx != 0 ==> rat_le(t2, wx.tnext),
        ray.dy != 0 ==> rat_le(t2, wy.tnext),
        ray.dz != 0 ==> rat_le(t2, wz.tnext),
{
    lemma_rat_total(wx.tnext, wy.tnext);
    lemma_rat_total(wx.tnext, wz.tnext);
    lemma_rat_total(wy.tnext, wz.tnext);
    if pick_x {
        lemma_rat_refl(wx.tnext);
    } else if pick_y {
        lemma_rat_refl(wy.tnext);
        if ray.dx != 0 {
            if ray.dy != 0 && !rat_le(wx.tnext, wy.tnext) {
                assert(rat_le(wy.tnext, wx.tnext));
            } else {
                assert(ray.dz != 0 && !rat_le(wx.tnext, wz.tnext));
                assert(rat_le(wz.tnext, wx.tnext));
                assert(rat_le(wy.tnext, wz.tnext));
                lemma_rat_trans(wy.tnext, wz.tnext, wx.tnext);
            }
        }
    } else {
        lemma_rat_refl(wz.tnext);
        if ray.dy != 0 {
            assert(ray.dz != 0 && !rat_le(wy.tnext, wz.tnext));
            assert(rat_le(wz.tnext, wy.tnext));
        }
        if ray.dx != 0 {
            if ray.dy != 0 && !rat_le(wx.tnext, wy.tnext) {
                assert(rat_le(wy.tnext, wx.tnext));
                assert(rat_le(wz.tnext, wy.tnext));
                lemma_rat_trans(wz.tnext, wy.tnext, wx.tnext);
            } else {
                assert(ray.dz != 0 && !rat_le(wx.tnext, wz.tnext));
                assert(rat_le(wz.tnext, wx.tnext));
            }
        }
    }
}

/// Comparison of well-formed fractions is total.
proof fn lemma_rat_total(a: Rat, b: Rat)
    ensures
        (0 < a.den && 0 < b.den) ==> (rat_le(a, b) || rat_le(b, a)),
{
    if 0 < a.den && 0 < b.den {
        assert(a.num * b.den <= b.num * a.den || b.num * a.den <= a.num * b.den)
            by (nonlinear_arith);
    }
}

proof fn lemma_rat_refl(a: Rat)
    ensures
        rat_le(a, a),
{
}

/// Ordering of well-formed fractions is transitive.
proof fn lemma_rat_trans(a: Rat, b: Rat, c: Rat)
    requires
        0 < a.den,
        0 < b.den,
        0 < c.den,
        rat_le(a, b),
        rat_le(b, c),
    ensures
        rat_le(a, c),
{
    assert(a.num * c.den <= c.num * a.den) by (nonlinear_arith)
        requires
            a.num * b.den <= b.num * a.den,
            b.num * c.den <= c.num * b.den,
            a.den > 0,
            b.den > 0,
            c.den > 0;
}

/// Crossing the chosen axis's boundary: the new cell contains the ray's
/// point at the crossing parameter, and the advanced crossing is one cell
/// further.
proof fn lemma_step_axis(o: int, d: int, w: AxisWalk, t1: Rat, cmin: int)
    requires
        d != 0,
        -0x100000 <= d <= 0x100000,
        -0x10000000000 <= o <= 0x10000000000,
        -0x2000000000 <= cmin <= 0x2000000000,
        rat_wf(t1),
        axis_wf(o, d, w, t1, cmin),
        cmin <= w.cell <= cmin + 31,
    ensures
        ({
            let w2 = AxisWalk {
                cell: (w.cell + w.step) as i64,
                step: w.step,
                tnext: Rat { num: (w.tnext.num + 1024) as i128, den: w.tnext.den },
            };
            axis_wf(o, d, w2, w.tnext, cmin)
        }),
{
    assert((w.cell + w.step) as int == w.cell + (if d > 0 { 1int } else { -1int }));
    let c = w.cell as int;
    let bnd: int = c + (if d > 0 { 1int } else { 0int });
    let sg: int = if d > 0 { 1int } else { -1int };
    let tb = w.tnext;
    // at the crossing the position sits exactly on the shared boundary
    assert(o * tb.den + tb.num * d * 1024 == bnd * 1024 * tb.den) by (nonlinear_arith)
        requires
            tb.den == 1024 * (if d > 0 { d } else { -d }),
            tb.num == (bnd * 1024 - o) * sg,
            sg == (if d > 0 { 1int } else { -1int }),
            d != 0;
    let c2 = c + (if d > 0 { 1int } else { -1int });
    assert(axis_in_slab(o, d, c2, 1, tb.num as int, tb.den as int)) by (nonlinear_arith)
        requires
            o * tb.den + tb.num * d * 1024 == bnd * 1024 * tb.den,
            bnd == c + (if d > 0 { 1int } else { 0int }),
            c2 == c + (if d > 0 { 1int } else { -1int }),
            tb.den > 0,
            axis_in_slab(o, d, c2, 1, tb.num as int, tb.den as int) == (c2 * 1024 * tb.den <= o
                * tb.den + tb.num * d * 1024 <= (c2 + 1) * 1024 * tb.den);
    let bnd2: int = c2 + (if d > 0 { 1int } else { 0int });
    assert((tb.num + 1024) as int == (bnd2 * 1024 - o) * sg) by (nonlinear_arith)
        requires
            tb.num == (bnd * 1024 - o) * sg,
            bnd2 == bnd + (if d > 0 { 1int } else { -1int }),
            sg == (if d > 0 { 1int } else { -1int });
    assert(rat_wf(Rat { num: (tb.num + 1024) as i128, den: tb.den })) by (nonlinear_arith)
        requires
            (tb.num + 1024) as int == (bnd2 * 1024 - o) * sg,
            bnd2 == c2 + (if d > 0 { 1int } else { 0int }),
            cmin - 1 <= c2 <= cmin + 32,
            -0x2000000000 <= cmin <= 0x2000000000,
            -0x10000000000 <= o <= 0x10000000000,
            sg == (if d > 0 { 1int } else { -1int }),
            0 < tb.den <= 0x40000000,
            NUM_MAX == 0x1000000000000000,
            DEN_MAX == 0x40000000,
            rat_wf(Rat { num: (tb.num + 1024) as i128, den: tb.den }) == (0 < tb.den <= DEN_MAX
                && -NUM_MAX <= (tb.num + 1024) as int <= NUM_MAX);
    assert(tb.num * tb.den <= (tb.num + 1024) * tb.den) by (nonlinear_arith)
        requires tb.den > 0;
    assert(rat_le(tb, Rat { num: (tb.num + 1024) as i128, den: tb.den }));
}


/// Strict comparison by cross-multiplication.
fn rat_lt_exec(a: Rat, b: Rat) -> (r: bool)
    requires
        rat_wf(a),
        rat_wf(b),
    ensures
        r == (a.num * b.den < b.num * a.den),
{
    proof {
        assert(-0x40000000000000000000000 <= a.num * b.den <= 0x40000000000000000000000
            && -0x40000000000000000000000 <= b.num * a.den <= 0x40000000000000000000000)
            by (nonlinear_arith)
            requires
                -0x1000000000000000 <= a.num <= 0x1000000000000000,
                -0x1000000000000000 <= b.num <= 0x1000000000000000,
                0 < a.den <= 0x40000000,
                0 < b.den <= 0x40000000;
    }
    a.num * b.den < b.num * a.den
}

/// The approximate surface normal of a voxel hit: the axis on which the
/// hit point is farthest from the voxel's centre, signed away from it.
/// An estimate at voxel resolution, not the exact face.
fn normal_from_center(ray: &Ray, t: Rat, vx: i64, vy: i64, vz: i64) -> (r: (i32, i32, i32))
    requires
        ray.wf(),
        rat_wf(t),
        -0x2000000000 <= vx <= 0x2000000000,
        -0x2000000000 <= vy <= 0x2000000000,
        -0x2000000000 <= vz <= 0x2000000000,
    ensures
        axis_unit_normal(r.0 as int, r.1 as int, r.2 as int),
{
    proof {
        lemma_center_bounds(ray.ox as int, ray.dx as int, vx as int, t);
        lemma_center_bounds(ray.oy as int, ray.dy as int, vy as int, t);
        lemma_center_bounds(ray.oz as int, ray.dz as int, vz as int, t);
    }
    let fx: i128 = 2 * ((ray.ox as i128) * t.den + t.num * (ray.dx as i128) * (SCALE as i128)) - (
    2 * (vx as i128) + 1) * (SCALE as i128) * t.den;
    let fy: i128 = 2 * ((ray.oy as i128) * t.den + t.num * (ray.dy as i128) * (SCALE as i128)) - (
    2 * (vy as i128) + 1) * (SCALE as i128) * t.den;
    let fz: i128 = 2 * ((ray.oz as i128) * t.den + t.num * (ray.dz as i128) * (SCALE as i128)) - (
    2 * (vz as i128) + 1) * (SCALE as i128) * t.den;
    let ax: i128 = if fx >= 0 { fx } else { -fx };
    let ay: i128 = if fy >= 0 { fy } else { -fy };
    let az: i128 = if fz >= 0 { fz } else { -fz };
    if ax > ay && ax > az {
        (if fx >= 0 { 1 } else { -1 }, 0, 0)
    } else if ay > az {
        (0, if fy >= 0 { 1 } else { -1 }, 0)
    } else {
        (0, 0, if fz >= 0 { 1 } else { -1 })
    }
}

/// The offset-to-centre numerator stays far inside 128 bits.
proof fn lemma_center_bounds(o: int, d: int, v: int, t: Rat)
    requires
        -0x10000000000 <= o <= 0x10000000000,
        -0x100000 <= d <= 0x100000,
        -0x2000000000 <= v <= 0x2000000000,
        rat_wf(t),
    ensures
        -0x40000000000000000000000000 <= 2 * (o * t.den + t.num * d * 1024) - (2 * v + 1) * 1024
            * t.den <= 0x40000000000000000000000000,
        -0x20000000000000000000000000 <= o * t.den + t.num * d * 1024
            <= 0x20000000000000000000000000,
        -0x20000000000000000000000000 <= (2 * v + 1) * 1024 * t.den
            <= 0x20000000000000000000000000,
        -0x20000000000000000000000000 <= o * t.den <= 0x20000000000000000000000000,
        -0x20000000000000000000000000 <= t.num * d * 1024 <= 0x20000000000000000000000000,
{
    assert(-0x20000000000000000000000000 <= o * t.den + t.num * d * 1024
        <= 0x20000000000000000000000000 && -0x20000000000000000000000000 <= (2 * v + 1) * 1024
        * t.den <= 0x20000000000000000000000000 && -0x20000000000000000000000000 <= o * t.den
        <= 0x20000000000000000000000000 && -0x20000000000000000000000000 <= t.num * d * 1024
        <= 0x20000000000000000000000000 && -0x40000000000000000000000000 <= 2 * (o * t.den + t.num
        * d * 1024) - (2 * v + 1) * 1024 * t.den <= 0x40000000000000000000000000)
        by (nonlinear_arith)
        requires
            -0x10000000000 <= o <= 0x10000000000,
            -0x100000 <= d <= 0x100000,
            -0x2000000000 <= v <= 0x2000000000,
            0 < t.den <= 0x40000000,
            -0x1000000000000000 <= t.num <= 0x1000000000000000;
}

/// No solid voxel recorded under node `i` is strictly pierced by the ray
/// at a nonnegative parameter below the bound (below any parameter when
/// no bound is given), among cells whose octant index is below `climit`.
pub open spec fn subtree_clear_below(
    ray: Ray,
    nodes: Seq<OctreeNode>,
    i: int,
    s: int,
    bx: int,
    by: int,
    bz: int,
    climit: u32,
    bound: Option<Rat>,
) -> bool {
    forall|cx: int, cy: int, cz: int, p: int, q: int|
        bx <= cx < bx + s && by <= cy < by + s && bz <= cz < bz + s && q > 0 && p >= 0 && octant(
            cx - bx,
            cy - by,
            cz - bz,
            s / 2,
        ) < climit && #[trigger] point_strictly_in_box(ray, p, q, cx, cy, cz, 1) && (match bound {
            Some(t) => p * t.den < t.num * q,
            None => true,
        }) ==> !stores_solid(nodes, i, s, cx - bx, cy - by, cz - bz)
}

/// No solid voxel of the octree is strictly pierced by the ray at a
/// nonnegative parameter below the bound.
pub open spec fn octree_clear_below(
    ray: Ray,
    octree: SparseVoxelOctree,
    cmx: int,
    cmy: int,
    cmz: int,
    bound: Option<Rat>,
) -> bool {
    forall|cx: int, cy: int, cz: int, p: int, q: int|
        cmx <= cx < cmx + 32 && cmy <= cy < cmy + 32 && cmz <= cz < cmz + 32 && q > 0 && p >= 0
            && #[trigger] point_strictly_in_box(ray, p, q, cx, cy, cz, 1) && (match bound {
            Some(t) => p * t.den < t.num * q,
            None => true,
        }) ==> octree.value_at(cx - cmx, cy - cmy, cz - cmz) == 0
}

/// A cell's octant places it in that octant's sub-box, and reads through
/// that octant's child when one is occupied.
proof fn lemma_octant_cell(
    nodes: Seq<OctreeNode>,
    i: int,
    s: int,
    c: u32,
    bx: int,
    by: int,
    bz: int,
    cx: int,
    cy: int,
    cz: int,
)
    requires
        valid_size(s),
        c < 8,
        bx <= cx < bx + s,
        by <= cy < by + s,
        bz <= cz < bz + s,
        octant(cx - bx, cy - by, cz - bz, s / 2) == c,
    ensures
        ({
            let h = s / 2;
            let obx = bx + (if c & 1 != 0 { h } else { 0 });
            let oby = by + (if c & 2 != 0 { h } else { 0 });
            let obz = bz + (if c & 4 != 0 { h } else { 0 });
            &&& obx <= cx < obx + h
            &&& oby <= cy < oby + h
            &&& obz <= cz < obz + h
            &&& (s > 2 && nth_bit(nodes[i].child_mask, c) ==> lookup(nodes, i, s, cx - bx,
                cy - by, cz - bz) == lookup(nodes, child_slot(nodes, i, c), h, cx - obx, cy - oby,
                cz - obz))
            &&& (s == 2 && !nth_bit(nodes[i].child_mask, c) ==> lookup(nodes, i, s, cx - bx,
                cy - by, cz - bz) is None)
        }),
{
    let h = s / 2;
    let b0: u32 = if c & 1 != 0 { 1 } else { 0 };
    let b1: u32 = if c & 2 != 0 { 2 } else { 0 };
    let b2: u32 = if c & 4 != 0 { 4 } else { 0 };
    assert(c == b0 + b1 + b2) by (bit_vector)
        requires
            c < 8,
            b0 == (if c & 1 != 0 { 1u32 } else { 0u32 }),
            b1 == (if c & 2 != 0 { 2u32 } else { 0u32 }),
            b2 == (if c & 4 != 0 { 4u32 } else { 0u32 });
    let px: int = if c & 1 != 0 { h } else { 0 };
    let py: int = if c & 2 != 0 { h } else { 0 };
    let pz: int = if c & 4 != 0 { h } else { 0 };
    assert(octant(px, py, pz, h) == c);
    lemma_octant_eq(cx - bx, cy - by, cz - bz, px, py, pz, h);
    assert(((cx - bx) >= h) == (c & 1 != 0) && ((cy - by) >= h) == (c & 2 != 0) && ((cz - bz)
        >= h) == (c & 4 != 0));
    if s > 2 && nth_bit(nodes[i].child_mask, c) {
        assert(reduce(cx - bx, h) == cx - (bx + px) && reduce(cy - by, h) == cy - (by + py)
            && reduce(cz - bz, h) == cz - (bz + pz));
    }
}

/// The octree tracer: descends the chunk's octree, pruning subtrees whose
/// bounding box the ray misses or that lie beyond the best hit found.
pub struct OctreeRaytracer;

impl OctreeRaytracer {
    /// Traces a ray against an octree whose root cube starts at the given
    /// minimum corner, in voxel units. On a hit the reported cell lies in
    /// the cube, the reported material is exactly the id the octree
    /// stores there and it is solid, the ray's point at the reported
    /// parameter lies within that cell, and no solid voxel is strictly
    /// pierced earlier. On a miss no solid voxel of the cube is strictly
    /// pierced at any nonnegative parameter.
    pub fn trace_octree(
        ray: &Ray,
        octree: &SparseVoxelOctree,
        cmx: i64,
        cmy: i64,
        cmz: i64,
    ) -> (r: RayHit)
        requires
            ray.wf(),
            octree.wf(),
            -0x1000000000 <= cmx <= 0x1000000000,
            -0x1000000000 <= cmy <= 0x1000000000,
            -0x1000000000 <= cmz <= 0x1000000000,
        ensures
            r.hit ==> ({
                &&& cmx <= r.cx < cmx + 32
                &&& cmy <= r.cy < cmy + 32
                &&& cmz <= r.cz < cmz + 32
                &&& r.material_id.0 != 0
                &&& octree.voxel_at(r.cx - cmx, r.cy - cmy, r.cz - cmz) == Some(r.material_id.0)
                &&& rat_wf(r.t)
                &&& r.t.num >= 0
                &&& point_in_box(*ray, r.t.num as int, r.t.den as int, r.cx as int, r.cy as int,
                    r.cz as int, 1)
                &&& axis_unit_normal(r.nx as int, r.ny as int, r.nz as int)
            }),
            !r.hit ==> r.material_id.0 == 0,
            octree.nodes_spec()[0].child_mask == 0 ==> !r.hit,
            // completeness: a miss means the ray strictly pierces no
            // recorded solid voxel at any nonnegative parameter
            !r.hit ==> octree_clear_below(*ray, *octree, cmx as int, cmy as int, cmz as int, None),
            // nearest recorded hit: nothing solid is strictly pierced
            // before the reported entry parameter
            r.hit ==> octree_clear_below(
                *ray,
                *octree,
                cmx as int,
                cmy as int,
                cmz as int,
                Some(r.t),
            ),
            // a hit certifies the ray meets the cube at a strictly
            // positive parameter, so a slab rejection entails a miss
            r.hit ==> (exists|p: int, q: int|
                q > 0 && p > 0 && #[trigger] point_in_box(*ray, p, q, cmx as int, cmy as int,
                    cmz as int, 32)),
    {
        let r = match ray_aabb_intersect(ray, cmx, cmy, cmz, 32) {
            Some((_tn, tf)) => {
                let rr = Self::traverse_node(ray, octree, 0, cmx, cmy, cmz, 32);
                proof {
                    assert(tf.den > 0 && tf.num > 0 && point_in_box(*ray, tf.num as int,
                        tf.den as int, cmx as int, cmy as int, cmz as int, 32));
                }
                rr
            },
            None => RayHit::new_miss(),
        };
        proof {
            let nodes = octree.nodes_spec();
            let bound: Option<Rat> = if r.hit { Some(r.t) } else { None };
            assert forall|cx: int, cy: int, cz: int, p: int, q: int|
                cmx <= cx < cmx + 32 && cmy <= cy < cmy + 32 && cmz <= cz < cmz + 32 && q > 0 && p
                    >= 0 && #[trigger] point_strictly_in_box(*ray, p, q, cx, cy, cz, 1) && (
            match bound {
                Some(t) => p * t.den < t.num * q,
                None => true,
            }) implies octree.value_at(cx - cmx, cy - cmy, cz - cmz) == 0 by {
                lemma_octant_eq(cx - cmx, cy - cmy, cz - cmz, cx - cmx, cy - cmy, cz - cmz, 16);
                lemma_strict_widen(*ray, p, q, cx, cy, cz, cmx as int, cmy as int, cmz as int, 32);
                assert(p * 1 >= 0 * q) by (nonlinear_arith)
                    requires p >= 0 && q > 0;
                if p == 0 {
                    assert(origin_strictly_inside(*ray, cmx as int, cmy as int, cmz as int, 32));
                }
                assert(!stores_solid(nodes, 0, 32, cx - cmx, cy - cmy, cz - cmz));
            }
        }
        r
    }

    /// Descends one subtree, returning the closest accepted hit among the
    /// occupied octants the ray's box tests let through. The result is the
    /// subtree's nearest strictly pierced solid voxel: octants the ray's
    /// box misses hold no strictly pierced cell, and octants entered no
    /// nearer than the best hit hold none nearer.
    fn traverse_node(
        ray: &Ray,
        octree: &SparseVoxelOctree,
        i: usize,
        bx: i64,
        by: i64,
        bz: i64,
        s: i64,
    ) -> (r: RayHit)
        requires
            ray.wf(),
            valid_size(s as int),
            wf_node(octree.nodes_spec(), i as int, s as int),
            -0x2000000000 <= bx,
            bx + s <= 0x2000000000,
            -0x2000000000 <= by,
            by + s <= 0x2000000000,
            -0x2000000000 <= bz,
            bz + s <= 0x2000000000,
        ensures
            r.hit ==> ({
                &&& bx <= r.cx < bx + s
                &&& by <= r.cy < by + s
                &&& bz <= r.cz < bz + s
                &&& r.material_id.0 != 0
                &&& lookup(octree.nodes_spec(), i as int, s as int, r.cx - bx, r.cy - by,
                    r.cz - bz) == Some(r.material_id.0)
                &&& rat_wf(r.t)
                &&& r.t.num >= 0
                &&& point_in_box(*ray, r.t.num as int, r.t.den as int, r.cx as int, r.cy as int,
                    r.cz as int, 1)
                &&& axis_unit_normal(r.nx as int, r.ny as int, r.nz as int)
            }),
            !r.hit ==> r.material_id.0 == 0,
            octree.nodes_spec()[i as int].child_mask == 0 ==> !r.hit,
            subtree_clear_below(
                *ray,
                octree.nodes_spec(),
                i as int,
                s as int,
                bx as int,
                by as int,
                bz as int,
                8,
                if r.hit {
                    Some(r.t)
                } else {
                    None
                },
            ),
        decreases s,
    {
        let nodes = octree.get_nodes();
        let node = nodes[i];
        let half = s / 2;
        let mut best = RayHit::new_miss();
        let mut c: u32 = 0;
        while c < 8
            invariant
                c <= 8,
                ray.wf(),
                valid_size(s as int),
                wf_node(octree.nodes_spec(), i as int, s as int),
                -0x2000000000 <= bx,
                bx + s <= 0x2000000000,
                -0x2000000000 <= by,
                by + s <= 0x2000000000,
                -0x2000000000 <= bz,
                bz + s <= 0x2000000000,
                half == s / 2,
                node == octree.nodes_spec()[i as int],
                best.hit ==> ({
                    &&& bx <= best.cx < bx + s
                    &&& by <= best.cy < by + s
                    &&& bz <= best.cz < bz + s
                    &&& best.material_id.0 != 0
                    &&& lookup(octree.nodes_spec(), i as int, s as int, best.cx - bx,
                        best.cy - by, best.cz - bz) == Some(best.material_id.0)
                    &&& rat_wf(best.t)
                    &&& best.t.num >= 0
                    &&& point_in_box(*ray, best.t.num as int, best.t.den as int, best.cx as int,
                        best.cy as int, best.cz as int, 1)
                    &&& axis_unit_normal(best.nx as int, best.ny as int, best.nz as int)
                }),
                !best.hit ==> best.material_id.0 == 0,
                node.child_mask == 0 ==> !best.hit,
                subtree_clear_below(
                    *ray,
                    octree.nodes_spec(),
                    i as int,
                    s as int,
                    bx as int,
                    by as int,
                    bz as int,
                    c,
                    if best.hit {
                        Some(best.t)
                    } else {
                        None
                    },
                ),
            decreases 8 - c,
        {
            let ghost ob = best;
            let obx = bx + (if c & 1 != 0 { half } else { 0 });
            let oby = by + (if c & 2 != 0 { half } else { 0 });
            let obz = bz + (if c & 4 != 0 { half } else { 0 });
            if node.child_mask & (1u32 << c) != 0 {
                proof {
                    let m: u32 = node.child_mask;
                    assert(m != 0) by (bit_vector)
                        requires m & (1u32 << c) != 0;
                }
                match ray_aabb_intersect(ray, obx, oby, obz, half) {
                    Some((tn, _tf)) => {
                        let closer = !best.hit || rat_lt_exec(tn, best.t);
                        if closer {
                            if s == 2 {
                                // the occupied octant is a single voxel,
                                // its id stored in this node
                                if node.voxel_id != 0 {
                                    let (nx, ny, nz) = normal_from_center(ray, tn, obx, oby, obz);
                                    proof {
                                        lemma_leaf_lookup(octree.nodes_spec(), i as int, c,
                                            obx as int - bx as int, oby as int - by as int,
                                            obz as int - bz as int);
                                    }
                                    best = RayHit::new_hit(obx, oby, obz, tn, nx, ny, nz,
                                        VoxelId(node.voxel_id));
                                    proof {
                                        lemma_prefix_carry(*ray, octree.nodes_spec(), i as int,
                                            s as int, bx as int, by as int, bz as int, c, ob,
                                            best);
                                        // inside this octant nothing sits
                                        // strictly before its own entry
                                        assert forall|cx: int, cy: int, cz: int, p: int, q: int|
                                            bx <= cx < bx + s && by <= cy < by + s && bz <= cz
                                                < bz + s && q > 0 && p >= 0 && octant(cx - bx,
                                                cy - by, cz - bz, s as int / 2) == c
                                                && #[trigger] point_strictly_in_box(*ray, p, q,
                                                cx, cy, cz, 1) && p * best.t.den < best.t.num * q
                                                implies !stores_solid(
                                            octree.nodes_spec(),
                                            i as int,
                                            s as int,
                                            cx - bx,
                                            cy - by,
                                            cz - bz,
                                        ) by {
                                            lemma_octant_cell(octree.nodes_spec(), i as int,
                                                s as int, c, bx as int, by as int, bz as int, cx,
                                                cy, cz);
                                            lemma_strict_widen(*ray, p, q, cx, cy, cz,
                                                obx as int, oby as int, obz as int, half as int);
                                            assert(p * 1 >= 0 * q) by (nonlinear_arith)
                                                requires p >= 0 && q > 0;
                                            assert(point_in_box(*ray, p, q, obx as int,
                                                oby as int, obz as int, half as int));
                                            assert(tn.num * q <= p * tn.den);
                                            assert(false);
                                        }
                                        lemma_octant_extend(*ray, octree.nodes_spec(), i as int,
                                            s as int, bx as int, by as int, bz as int, c,
                                            Some(best.t));
                                    }
                                } else {
                                    proof {
                                        lemma_leaf_air_clear(*ray, octree.nodes_spec(), i as int,
                                            c, bx as int, by as int, bz as int);
                                        lemma_octant_extend(*ray, octree.nodes_spec(), i as int,
                                            s as int, bx as int, by as int, bz as int, c,
                                            if best.hit {
                                            Some(best.t)
                                        } else {
                                            None
                                        });
                                    }
                                }
                            } else {
                                let off = count_below_exec(node.child_mask, c);
                                let n = octree.node_count();
                                proof {
                                    assert(wf_node(
                                        octree.nodes_spec(),
                                        child_slot(octree.nodes_spec(), i as int, c),
                                        s as int / 2,
                                    ));
                                    assert(child_slot(octree.nodes_spec(), i as int, c) < n);
                                }
                                let j = node.child_ptr + off as usize;
                                let sub = Self::traverse_node(ray, octree, j, obx, oby, obz, half);
                                let accepted = sub.hit && (!best.hit || rat_lt_exec(sub.t, best.t));
                                if accepted {
                                    proof {
                                        lemma_child_lookup(octree.nodes_spec(), i as int,
                                            s as int, c, bx as int, by as int, bz as int,
                                            obx as int, oby as int, obz as int, sub.cx as int,
                                            sub.cy as int, sub.cz as int, sub.material_id.0);
                                    }
                                    best = sub;
                                }
                                proof {
                                    lemma_prefix_carry(*ray, octree.nodes_spec(), i as int,
                                        s as int, bx as int, by as int, bz as int, c, ob, best);
                                    // this octant is cleared by the child's
                                    // own guarantee
                                    assert forall|cx: int, cy: int, cz: int, p: int, q: int|
                                        bx <= cx < bx + s && by <= cy < by + s && bz <= cz < bz
                                            + s && q > 0 && p >= 0 && octant(cx - bx, cy - by,
                                            cz - bz, s as int / 2) == c
                                            && #[trigger] point_strictly_in_box(*ray, p, q, cx,
                                            cy, cz, 1) && (match (if best.hit {
                                            Some(best.t)
                                        } else {
                                            None
                                        }) {
                                            Some(t) => p * t.den < t.num * q,
                                            None => true,
                                        }) implies !stores_solid(
                                        octree.nodes_spec(),
                                        i as int,
                                        s as int,
                                        cx - bx,
                                        cy - by,
                                        cz - bz,
                                    ) by {
                                        lemma_octant_cell(octree.nodes_spec(), i as int, s as int,
                                            c, bx as int, by as int, bz as int, cx, cy, cz);
                                        lemma_octant_eq(cx - obx as int, cy - oby as int,
                                            cz - obz as int, cx - obx as int, cy - oby as int,
                                            cz - obz as int, half as int / 2);
                                        if sub.hit {
                                            assert(p * sub.t.den < sub.t.num * q) by {
                                                if accepted {
                                                } else {
                                                    assert(best == ob && ob.hit);
                                                    assert(ob.t.num * sub.t.den <= sub.t.num
                                                        * ob.t.den);
                                                    assert(p * sub.t.den < sub.t.num * q)
                                                        by (nonlinear_arith)
                                                        requires
                                                            p * ob.t.den < ob.t.num * q,
                                                            ob.t.num * sub.t.den <= sub.t.num
                                                                * ob.t.den,
                                                            ob.t.den > 0,
                                                            sub.t.den > 0,
                                                            q > 0;
                                                }
                                            }
                                        }
                                        assert(!stores_solid(octree.nodes_spec(), j as int,
                                            half as int, cx - obx as int, cy - oby as int,
                                            cz - obz as int));
                                    }
                                    lemma_octant_extend(*ray, octree.nodes_spec(), i as int,
                                        s as int, bx as int, by as int, bz as int, c,
                                        if best.hit {
                                        Some(best.t)
                                    } else {
                                        None
                                    });
                                }
                            }
                        } else {
                            proof {
                                // the child's box is entered no nearer than
                                // the best hit: nothing in it lies before it
                                assert(best.hit && best == ob);
                                assert forall|cx: int, cy: int, cz: int, p: int, q: int|
                                    bx <= cx < bx + s && by <= cy < by + s && bz <= cz < bz + s
                                        && q > 0 && p >= 0 && octant(cx - bx, cy - by, cz - bz,
                                        s as int / 2) == c && #[trigger] point_strictly_in_box(
                                    *ray, p, q, cx, cy, cz, 1) && p * best.t.den < best.t.num * q
                                        implies !stores_solid(
                                    octree.nodes_spec(),
                                    i as int,
                                    s as int,
                                    cx - bx,
                                    cy - by,
                                    cz - bz,
                                ) by {
                                    lemma_octant_cell(octree.nodes_spec(), i as int, s as int, c,
                                        bx as int, by as int, bz as int, cx, cy, cz);
                                    lemma_strict_widen(*ray, p, q, cx, cy, cz, obx as int,
                                        oby as int, obz as int, half as int);
                                    assert(p * 1 >= 0 * q) by (nonlinear_arith)
                                        requires p >= 0 && q > 0;
                                    assert(point_in_box(*ray, p, q, obx as int, oby as int,
                                        obz as int, half as int));
                                    assert(tn.num * q <= p * tn.den);
                                    assert(best.t.num * tn.den <= tn.num * best.t.den);
                                    assert(false) by (nonlinear_arith)
                                        requires
                                            p * best.t.den < best.t.num * q,
                                            best.t.num * tn.den <= tn.num * best.t.den,
                                            tn.num * q <= p * tn.den,
                                            best.t.den > 0,
                                            tn.den > 0,
                                            q > 0;
                                }
                                lemma_octant_extend(*ray, octree.nodes_spec(), i as int, s as int,
                                    bx as int, by as int, bz as int, c, Some(best.t));
                            }
                        }
                    },
                    None => {
                        proof {
                            assert forall|cx: int, cy: int, cz: int, p: int, q: int|
                                bx <= cx < bx + s && by <= cy < by + s && bz <= cz < bz + s && q
                                    > 0 && p >= 0 && octant(cx - bx, cy - by, cz - bz, s as int
                                    / 2) == c && #[trigger] point_strictly_in_box(*ray, p, q, cx,
                                cy, cz, 1) implies !stores_solid(
                                octree.nodes_spec(),
                                i as int,
                                s as int,
                                cx - bx,
                                cy - by,
                                cz - bz,
                            ) by {
                                lemma_octant_cell(octree.nodes_spec(), i as int, s as int, c,
                                    bx as int, by as int, bz as int, cx, cy, cz);
                                lemma_strict_widen(*ray, p, q, cx, cy, cz, obx as int, oby as int,
                                    obz as int, half as int);
                                if p > 0 {
                                    assert(point_in_box(*ray, p, q, obx as int, oby as int,
                                        obz as int, half as int));
                                    assert(false);
                                } else {
                                    assert(p == 0);
                                    assert(origin_strictly_inside(*ray, obx as int, oby as int,
                                        obz as int, half as int));
                                    assert(false);
                                }
                            }
                            lemma_octant_extend(*ray, octree.nodes_spec(), i as int, s as int,
                                bx as int, by as int, bz as int, c, if best.hit {
                                Some(best.t)
                            } else {
                                None
                            });
                        }
                    },
                }
            } else {
                proof {
                    assert forall|cx: int, cy: int, cz: int, p: int, q: int|
                        bx <= cx < bx + s && by <= cy < by + s && bz <= cz < bz + s && q > 0 && p
                            >= 0 && octant(cx - bx, cy - by, cz - bz, s as int / 2) == c
                            && #[trigger] point_strictly_in_box(*ray, p, q, cx, cy, cz, 1)
                            implies !stores_solid(
                        octree.nodes_spec(),
                        i as int,
                        s as int,
                        cx - bx,
                        cy - by,
                        cz - bz,
                    ) by {
                        lemma_octant_cell(octree.nodes_spec(), i as int, s as int, c, bx as int,
                            by as int, bz as int, cx, cy, cz);
                    }
                    lemma_octant_extend(*ray, octree.nodes_spec(), i as int, s as int, bx as int,
                        by as int, bz as int, c, if best.hit {
                        Some(best.t)
                    } else {
                        None
                    });
                }
            }
            c = c + 1;
        }
        best
    }
}

/// At a size-2 node an occupied octant whose stored id is air records
/// nothing solid.
proof fn lemma_leaf_air_clear(
    ray: Ray,
    nodes: Seq<OctreeNode>,
    i: int,
    c: u32,
    bx: int,
    by: int,
    bz: int,
)
    requires
        c < 8,
        nth_bit(nodes[i].child_mask, c),
        nodes[i].voxel_id == 0,
    ensures
        forall|cx: int, cy: int, cz: int|
            bx <= cx < bx + 2 && by <= cy < by + 2 && bz <= cz < bz + 2 && #[trigger] octant(
                cx - bx,
                cy - by,
                cz - bz,
                1,
            ) == c ==> !stores_solid(nodes, i, 2, cx - bx, cy - by, cz - bz),
{
}

/// Tightening the bound of a cleared prefix keeps it cleared: the new
/// bound admits no parameter the old one did not.
proof fn lemma_prefix_carry(
    ray: Ray,
    nodes: Seq<OctreeNode>,
    i: int,
    s: int,
    bx: int,
    by: int,
    bz: int,
    c: u32,
    ob: RayHit,
    nb: RayHit,
)
    requires
        subtree_clear_below(ray, nodes, i, s, bx, by, bz, c, if ob.hit {
            Some(ob.t)
        } else {
            None
        }),
        ob.hit ==> nb.hit && rat_wf(ob.t) && rat_wf(nb.t) && rat_le(nb.t, ob.t),
    ensures
        subtree_clear_below(ray, nodes, i, s, bx, by, bz, c, if nb.hit {
            Some(nb.t)
        } else {
            None
        }),
{
    assert forall|cx: int, cy: int, cz: int, p: int, q: int|
        bx <= cx < bx + s && by <= cy < by + s && bz <= cz < bz + s && q > 0 && p >= 0 && octant(
            cx - bx,
            cy - by,
            cz - bz,
            s / 2,
        ) < c && #[trigger] point_strictly_in_box(ray, p, q, cx, cy, cz, 1) && (match (if nb.hit {
            Some(nb.t)
        } else {
            None
        }) {
            Some(t) => p * t.den < t.num * q,
            None => true,
        }) implies !stores_solid(nodes, i, s, cx - bx, cy - by, cz - bz) by {
        if ob.hit {
            assert(p * ob.t.den < ob.t.num * q) by (nonlinear_arith)
                requires
                    p * nb.t.den < nb.t.num * q,
                    nb.t.num * ob.t.den <= ob.t.num * nb.t.den,
                    nb.t.den > 0,
                    ob.t.den > 0,
                    q > 0;
        }
    }
}

/// A cleared prefix together with a cleared octant extends the prefix by
/// one octant.
proof fn lemma_octant_extend(
    ray: Ray,
    nodes: Seq<OctreeNode>,
    i: int,
    s: int,
    bx: int,
    by: int,
    bz: int,
    c: u32,
    bound: Option<Rat>,
)
    requires
        c < 8,
        subtree_clear_below(ray, nodes, i, s, bx, by, bz, c, bound),
        forall|cx: int, cy: int, cz: int, p: int, q: int|
            bx <= cx < bx + s && by <= cy < by + s && bz <= cz < bz + s && q > 0 && p >= 0
                && octant(cx - bx, cy - by, cz - bz, s / 2) == c && #[trigger] point_strictly_in_box(
                ray,
                p,
                q,
                cx,
                cy,
                cz,
                1,
            ) && (match bound {
                Some(t) => p * t.den < t.num * q,
                None => true,
            }) ==> !stores_solid(nodes, i, s, cx - bx, cy - by, cz - bz),
    ensures
        subtree_clear_below(ray, nodes, i, s, bx, by, bz, (c + 1) as u32, bound),
{
    assert forall|cx: int, cy: int, cz: int, p: int, q: int|
        bx <= cx < bx + s && by <= cy < by + s && bz <= cz < bz + s && q > 0 && p >= 0 && octant(
            cx - bx,
            cy - by,
            cz - bz,
            s / 2,
        ) < (c + 1) as u32 && #[trigger] point_strictly_in_box(ray, p, q, cx, cy, cz, 1) && (
    match bound {
        Some(t) => p * t.den < t.num * q,
        None => true,
    }) implies !stores_solid(nodes, i, s, cx - bx, cy - by, cz - bz) by {
        let co = octant(cx - bx, cy - by, cz - bz, s / 2);
        if co < c {
        } else {
            assert(co == c);
        }
    }
}

/// At a size-2 node an occupied octant reads as the node's stored id.
proof fn lemma_leaf_lookup(nodes: Seq<OctreeNode>, i: int, c: u32, lx: int, ly: int, lz: int)
    requires
        c < 8,
        nth_bit(nodes[i].child_mask, c),
        lx == (if c & 1 != 0 { 1int } else { 0int }),
        ly == (if c & 2 != 0 { 1int } else { 0int }),
        lz == (if c & 4 != 0 { 1int } else { 0int }),
    ensures
        lookup(nodes, i, 2, lx, ly, lz) == Some(nodes[i].voxel_id),
{
    let b0: u32 = if c & 1 != 0 { 1 } else { 0 };
    let b1: u32 = if c & 2 != 0 { 2 } else { 0 };
    let b2: u32 = if c & 4 != 0 { 4 } else { 0 };
    assert(c == b0 + b1 + b2) by (bit_vector)
        requires
            c < 8,
            b0 == (if c & 1 != 0 { 1u32 } else { 0u32 }),
            b1 == (if c & 2 != 0 { 2u32 } else { 0u32 }),
            b2 == (if c & 4 != 0 { 4u32 } else { 0u32 });
    assert(octant(lx, ly, lz, 1) == c);
}

/// A hit inside one octant's child lifts to the parent: the cell's octant
/// is the child's and the stored id is read through it.
proof fn lemma_child_lookup(
    nodes: Seq<OctreeNode>,
    i: int,
    s: int,
    c: u32,
    bx: int,
    by: int,
    bz: int,
    obx: int,
    oby: int,
    obz: int,
    cx: int,
    cy: int,
    cz: int,
    m: u32,
)
    requires
        valid_size(s),
        s > 2,
        c < 8,
        nth_bit(nodes[i].child_mask, c),
        obx == bx + (if c & 1 != 0 { s / 2 } else { 0 }),
        oby == by + (if c & 2 != 0 { s / 2 } else { 0 }),
        obz == bz + (if c & 4 != 0 { s / 2 } else { 0 }),
        obx <= cx < obx + s / 2,
        oby <= cy < oby + s / 2,
        obz <= cz < obz + s / 2,
        lookup(nodes, child_slot(nodes, i, c), s / 2, cx - obx, cy - oby,
            cz - obz) == Some(m),
    ensures
        bx <= cx < bx + s,
        by <= cy < by + s,
        bz <= cz < bz + s,
        lookup(nodes, i, s, cx - bx, cy - by, cz - bz) == Some(m),
{
    let h = s / 2;
    let lx = cx - bx;
    let ly = cy - by;
    let lz = cz - bz;
    let b0: u32 = if c & 1 != 0 { 1 } else { 0 };
    let b1: u32 = if c & 2 != 0 { 2 } else { 0 };
    let b2: u32 = if c & 4 != 0 { 4 } else { 0 };
    assert(c == b0 + b1 + b2) by (bit_vector)
        requires
            c < 8,
            b0 == (if c & 1 != 0 { 1u32 } else { 0u32 }),
            b1 == (if c & 2 != 0 { 2u32 } else { 0u32 }),
            b2 == (if c & 4 != 0 { 4u32 } else { 0u32 });
    assert((lx >= h) == (c & 1 != 0) && (ly >= h) == (c & 2 != 0) && (lz >= h) == (c & 4 != 0));
    assert(octant(lx, ly, lz, h) == c);
    assert(reduce(lx, h) == cx - obx && reduce(ly, h) == cy - oby
        && reduce(lz, h) == cz - obz);
}


/// The octant of a point relative to a node centre: bit 0, 1, 2 say
/// whether x, y, z lie at or above the centre.
pub fn get_child_index(px: i64, py: i64, pz: i64, cx: i64, cy: i64, cz: i64) -> (index: u8)
    ensures
        index == (if px >= cx { 1int } else { 0int }) + (if py >= cy { 2int } else { 0int }) + (
        if pz >= cz { 4int } else { 0int }),
        index < 8,
{
    let mut index: u8 = 0;
    if px >= cx {
        index = index + 1;
    }
    if py >= cy {
        index = index + 2;
    }
    if pz >= cz {
        index = index + 4;
    }
    index
}


/// The two traversals agree on hitting: whenever some voxel of the chunk
/// is strictly pierced by the ray at a nonnegative parameter, neither the
/// grid walk nor the octree descent may report a miss, since each miss
/// guarantee excludes every strictly pierced solid voxel. Their reported
/// entry parameters each bound the first strictly pierced voxel from
/// below; exact numeric agreement is compared by tests, as rays grazing a
/// face or corner may legitimately differ there.
pub proof fn lemma_tracers_agree_on_hit(
    ray: Ray,
    chunk: VoxelChunk,
    a: RayHit,
    b: RayHit,
    cx: int,
    cy: int,
    cz: int,
    p: int,
    q: int,
)
    requires
        chunk.position.x * 32 <= cx < chunk.position.x * 32 + 32,
        chunk.position.y * 32 <= cy < chunk.position.y * 32 + 32,
        chunk.position.z * 32 <= cz < chunk.position.z * 32 + 32,
        q > 0,
        p >= 0,
        point_strictly_in_box(ray, p, q, cx, cy, cz, 1),
        chunk.octree.value_at(
            cx - chunk.position.x * 32,
            cy - chunk.position.y * 32,
            cz - chunk.position.z * 32,
        ) != 0,
        !a.hit ==> chunk_clear_below(ray, chunk, chunk.position.x * 32, chunk.position.y * 32,
            chunk.position.z * 32, None),
        !b.hit ==> octree_clear_below(ray, chunk.octree, chunk.position.x * 32, chunk.position.y
            * 32, chunk.position.z * 32, None),
    ensures
        a.hit,
        b.hit,
{
}

} // verus!
