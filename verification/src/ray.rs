//! Rays in exact arithmetic and the slab test against axis-aligned boxes.
//!
//! A ray's origin is a fixed-point position in voxel units, scaled by
//! `SCALE`; its direction is an integer vector, not normalised. A point of
//! the ray is addressed by a parameter `t`, an exact integer fraction:
//! the point at `t` is `origin / SCALE + t * direction`. All comparisons
//! are cross-multiplied, so no precision is ever lost.

use vstd::prelude::*;
use crate::voxel::VoxelId;

verus! {

/// Fixed-point scale of ray origins: origin coordinates count in units of
/// `1 / SCALE` of a voxel.
pub const SCALE: i64 = 1024;

/// Largest magnitude of a ray origin coordinate, in scaled units.
pub const ORIGIN_MAX: i64 = 0x10000000000;

/// Largest magnitude of a ray direction component.
pub const DIR_MAX: i64 = 0x100000;

/// Largest magnitude of a box coordinate, in voxel units.
pub const BOX_MAX: i64 = 0x2000000000;

/// Largest box edge accepted by the slab test, in voxel units.
pub const BOX_SIZE_MAX: i64 = 0x10000;

/// Largest numerator magnitude of a well-formed ray parameter.
pub const NUM_MAX: i128 = 0x1000000000000000;

/// Largest denominator of a well-formed ray parameter.
pub const DEN_MAX: i128 = 0x40000000;

/// An exact nonnegative-denominator fraction: a ray parameter.
#[derive(Clone, Copy, PartialEq, Eq, Structural, Debug)]
pub struct Rat {
    pub num: i128,
    pub den: i128,
}

/// Bounded and positive-denominator: comparisons of two such fractions
/// never overflow a 128-bit cross product.
pub open spec fn rat_wf(r: Rat) -> bool {
    0 < r.den <= DEN_MAX && -NUM_MAX <= r.num <= NUM_MAX
}

/// `a <= b` as fractions with positive denominators.
pub open spec fn rat_le(a: Rat, b: Rat) -> bool {
    a.num * b.den <= b.num * a.den
}

/// `a <= p / q` for a positive `q`.
pub open spec fn rat_le_frac(a: Rat, p: int, q: int) -> bool {
    a.num * q <= p * a.den
}

/// `p / q <= a` for a positive `q`.
pub open spec fn frac_le_rat(p: int, q: int, a: Rat) -> bool {
    p * a.den <= a.num * q
}

impl Rat {
    /// The parameter zero.
    pub fn zero() -> (r: Rat)
        ensures
            r == (Rat { num: 0, den: 1 }),
    {
        Rat { num: 0, den: 1 }
    }
}

/// Comparison by cross-multiplication.
pub fn rat_le_exec(a: Rat, b: Rat) -> (r: bool)
    requires
        rat_wf(a),
        rat_wf(b),
    ensures
        r == rat_le(a, b),
{
    proof {
        lemma_rat_mul_bounds(a.num as int, b.den as int);
        lemma_rat_mul_bounds(b.num as int, a.den as int);
    }
    a.num * b.den <= b.num * a.den
}

/// A cross product of a bounded numerator and denominator stays far from
/// the 128-bit limits.
proof fn lemma_rat_mul_bounds(n: int, d: int)
    requires
        -NUM_MAX <= n <= NUM_MAX,
        0 < d <= DEN_MAX,
    ensures
        -0x40000000000000000000000 <= n * d <= 0x40000000000000000000000,
{
    assert(-0x40000000000000000000000 <= n * d <= 0x40000000000000000000000)
        by (nonlinear_arith)
        requires -0x1000000000000000 <= n <= 0x1000000000000000 && 0 < d <= 0x40000000;
}

/// Ordering of fractions is transitive across an intermediate fraction.
proof fn lemma_le_trans_frac(a: Rat, b: Rat, p: int, q: int)
    requires
        rat_wf(a),
        rat_wf(b),
        q > 0,
        rat_le(a, b),
        rat_le_frac(b, p, q),
    ensures
        rat_le_frac(a, p, q),
{
    assert(a.num * q * b.den <= p * a.den * b.den) by (nonlinear_arith)
        requires
            a.num * b.den <= b.num * a.den,
            b.num * q <= p * b.den,
            q > 0,
            a.den > 0,
            b.den > 0;
    assert(a.num * q <= p * a.den) by (nonlinear_arith)
        requires
            a.num * q * b.den <= p * a.den * b.den,
            b.den > 0;
}

/// The mirrored transitivity, toward an upper bound.
proof fn lemma_ge_trans_frac(a: Rat, b: Rat, p: int, q: int)
    requires
        rat_wf(a),
        rat_wf(b),
        q > 0,
        rat_le(b, a),
        frac_le_rat(p, q, b),
    ensures
        frac_le_rat(p, q, a),
{
    assert(p * a.den * b.den <= a.num * q * b.den) by (nonlinear_arith)
        requires
            b.num * a.den <= a.num * b.den,
            p * b.den <= b.num * q,
            q > 0,
            a.den > 0,
            b.den > 0;
    assert(p * a.den <= a.num * q) by (nonlinear_arith)
        requires
            p * a.den * b.den <= a.num * q * b.den,
            b.den > 0;
}

/// A ray: a scaled fixed-point origin and an integer direction, both in
/// voxel units. The direction is never the zero vector.
#[derive(Clone, Copy, PartialEq, Eq, Structural, Debug)]
pub struct Ray {
    pub ox: i64,
    pub oy: i64,
    pub oz: i64,
    pub dx: i64,
    pub dy: i64,
    pub dz: i64,
}

impl Ray {
    /// Bounded components and a nonzero direction.
    pub open spec fn wf(self) -> bool {
        &&& -ORIGIN_MAX <= self.ox <= ORIGIN_MAX
        &&& -ORIGIN_MAX <= self.oy <= ORIGIN_MAX
        &&& -ORIGIN_MAX <= self.oz <= ORIGIN_MAX
        &&& -DIR_MAX <= self.dx <= DIR_MAX
        &&& -DIR_MAX <= self.dy <= DIR_MAX
        &&& -DIR_MAX <= self.dz <= DIR_MAX
        &&& !(self.dx == 0 && self.dy == 0 && self.dz == 0)
    }

    /// A ray from a scaled origin and an integer direction; a zero
    /// direction is rejected by the contract, not at run time.
    pub fn new(ox: i64, oy: i64, oz: i64, dx: i64, dy: i64, dz: i64) -> (r: Ray)
        requires
            -ORIGIN_MAX <= ox <= ORIGIN_MAX,
            -ORIGIN_MAX <= oy <= ORIGIN_MAX,
            -ORIGIN_MAX <= oz <= ORIGIN_MAX,
            -DIR_MAX <= dx <= DIR_MAX,
            -DIR_MAX <= dy <= DIR_MAX,
            -DIR_MAX <= dz <= DIR_MAX,
            !(dx == 0 && dy == 0 && dz == 0),
        ensures
            r == (Ray { ox, oy, oz, dx, dy, dz }),
            r.wf(),
    {
        Ray { ox, oy, oz, dx, dy, dz }
    }
}

/// Whether the ray's point at parameter `p / q` lies within the slab
/// `[m, m + size]` of one axis with origin `o` and direction `d`: the
/// inequality `m <= o / SCALE + (p / q) d <= m + size`, cross-multiplied
/// by the positive `SCALE * q`.
pub open spec fn axis_in_slab(o: int, d: int, m: int, size: int, p: int, q: int) -> bool {
    m * SCALE * q <= o * q + p * d * SCALE && o * q + p * d * SCALE <= (m + size) * SCALE * q
}

/// Whether the ray's point at parameter `p / q` (with `q > 0`) lies in the
/// closed cube of edge `size` at `(bx, by, bz)`, all in voxel units.
pub open spec fn point_in_box(
    ray: Ray,
    p: int,
    q: int,
    bx: int,
    by: int,
    bz: int,
    size: int,
) -> bool {
    &&& axis_in_slab(ray.ox as int, ray.dx as int, bx, size, p, q)
    &&& axis_in_slab(ray.oy as int, ray.dy as int, by, size, p, q)
    &&& axis_in_slab(ray.oz as int, ray.dz as int, bz, size, p, q)
}

/// As `axis_in_slab`, with the boundary excluded: the point sits strictly
/// between the slab's faces.
pub open spec fn axis_strictly_in_slab(o: int, d: int, m: int, size: int, p: int, q: int) -> bool {
    m * SCALE * q < o * q + p * d * SCALE && o * q + p * d * SCALE < (m + size) * SCALE * q
}

/// Whether the ray's point at parameter `p / q` (with `q > 0`) lies
/// strictly inside the cube of edge `size` at `(bx, by, bz)`: off every
/// face, so the point belongs to this cube alone.
pub open spec fn point_strictly_in_box(
    ray: Ray,
    p: int,
    q: int,
    bx: int,
    by: int,
    bz: int,
    size: int,
) -> bool {
    &&& axis_strictly_in_slab(ray.ox as int, ray.dx as int, bx, size, p, q)
    &&& axis_strictly_in_slab(ray.oy as int, ray.dy as int, by, size, p, q)
    &&& axis_strictly_in_slab(ray.oz as int, ray.dz as int, bz, size, p, q)
}

/// Whether the ray's origin lies strictly inside the cube.
pub open spec fn origin_strictly_inside(
    ray: Ray,
    bx: int,
    by: int,
    bz: int,
    size: int,
) -> bool {
    &&& bx * SCALE < ray.ox < (bx + size) * SCALE
    &&& by * SCALE < ray.oy < (by + size) * SCALE
    &&& bz * SCALE < ray.oz < (bz + size) * SCALE
}

/// Whether a parameter range `[tn, tf]` (`tf` absent meaning unbounded)
/// admits the fraction `p / q`.
pub(crate) open spec fn sat_range(tn: Rat, tf: Option<Rat>, p: int, q: int) -> bool {
    rat_le_frac(tn, p, q) && match tf {
        Some(f) => frac_le_rat(p, q, f),
        None => true,
    }
}


/// Narrows a parameter range by one axis slab. `None` means the axis
/// admits no parameter at all; otherwise the returned range admits
/// exactly the parameters the old range admitted that also lie in the
/// slab.
fn clip_axis(o: i64, d: i64, m: i64, size: i64, tn: Rat, tf: Option<Rat>) -> (r: Option<
    (Rat, Option<Rat>),
>)
    requires
        -ORIGIN_MAX <= o <= ORIGIN_MAX,
        -DIR_MAX <= d <= DIR_MAX,
        -BOX_MAX <= m <= BOX_MAX,
        0 < size <= BOX_SIZE_MAX,
        rat_wf(tn),
        tn.num >= 0,
        tn.den <= DEN_MAX,
        match tf {
            Some(f) => rat_wf(f),
            None => true,
        },
    ensures
        match r {
            Some((tn2, tf2)) => {
                &&& rat_wf(tn2)
                &&& tn2.num >= 0
                &&& (match tf2 {
                    Some(f) => rat_wf(f),
                    None => d == 0 && tf is None,
                })
                &&& (tf is None && d != 0 ==> tf2 is Some)
                &&& (forall|p: int, q: int|
                    q > 0 ==> #[trigger] sat_range(tn2, tf2, p, q) == (sat_range(tn, tf, p, q)
                        && axis_in_slab(o as int, d as int, m as int, size as int, p, q)))
                &&& ((m * SCALE < o < (m + size) * SCALE) ==> tn2 == tn)
                &&& ((m * SCALE < o < (m + size) * SCALE && (tf is None || tf.unwrap().num > 0))
                    ==> (tf2 is None || tf2.unwrap().num > 0))
            },
            None => forall|p: int, q: int|
                q > 0 ==> !axis_in_slab(o as int, d as int, m as int, size as int, p, q),
        },
        (m * SCALE < o < (m + size) * SCALE) ==> r is Some,
{
    if d == 0 {
        if o < m * SCALE || o > (m + size) * SCALE {
            proof {
                assert forall|p: int, q: int| q > 0 implies !axis_in_slab(
                    o as int,
                    d as int,
                    m as int,
                    size as int,
                    p,
                    q,
                ) by {
                    if o < m * SCALE {
                        assert(!(m * SCALE * q <= o * q)) by (nonlinear_arith)
                            requires o < m * (1024int) && q > 0 && SCALE == 1024;
                    } else {
                        assert(!(o * q <= (m + size) * SCALE * q)) by (nonlinear_arith)
                            requires o > (m + size) * (1024int) && q > 0 && SCALE == 1024;
                    }
                }
            }
            None
        } else {
            proof {
                assert forall|p: int, q: int| q > 0 implies axis_in_slab(
                    o as int,
                    d as int,
                    m as int,
                    size as int,
                    p,
                    q,
                ) by {
                    assert(m * SCALE * q <= o * q && o * q <= (m + size) * SCALE * q)
                        by (nonlinear_arith)
                        requires
                            m * (1024int) <= o <= (m + size) * 1024,
                            q > 0,
                            SCALE == 1024;
                }
            }
            Some((tn, tf))
        }
    } else {
        let den: i128 = if d > 0 {
            (SCALE as i128) * (d as i128)
        } else {
            -((SCALE as i128) * (d as i128))
        };
        let lo_num: i128 = if d > 0 {
            (m as i128) * (SCALE as i128) - (o as i128)
        } else {
            (o as i128) - ((m as i128) + (size as i128)) * (SCALE as i128)
        };
        let hi_num: i128 = if d > 0 {
            ((m as i128) + (size as i128)) * (SCALE as i128) - (o as i128)
        } else {
            (o as i128) - (m as i128) * (SCALE as i128)
        };
        proof {
            assert((m as i128) * (SCALE as i128) == (m as int) * (SCALE as int)
                && ((m as i128) + (size as i128)) * (SCALE as i128) == ((m as int) + (
            size as int)) * (SCALE as int) && (SCALE as i128) * (d as i128) == (SCALE as int) * (
            d as int)) by (nonlinear_arith)
                requires
                    -0x2000000000 <= (m as int) <= 0x2000000000,
                    0 < (size as int) <= 0x10000,
                    -0x100000 <= (d as int) <= 0x100000,
                    SCALE == 1024;
        }
        let lo = Rat { num: lo_num, den };
        let hi = Rat { num: hi_num, den };
        proof {
            lemma_slab_bounds(o as int, d as int, m as int, size as int, lo, hi);
        }
        let tn2 = if rat_le_exec(tn, lo) {
            proof {
                assert(lo.num >= 0) by (nonlinear_arith)
                    requires
                        tn.num * lo.den <= lo.num * tn.den,
                        tn.num >= 0,
                        tn.den > 0,
                        lo.den > 0;
            }
            lo
        } else {
            tn
        };
        let tf2 = match tf {
            Some(f) => if rat_le_exec(hi, f) {
                hi
            } else {
                f
            },
            None => hi,
        };
        proof {
            let oi = o as int;
            let di = d as int;
            let mi = m as int;
            let szi = size as int;
            assert forall|p: int, q: int| q > 0 implies #[trigger] sat_range(tn2, Some(tf2), p, q)
                == (sat_range(tn, tf, p, q) && axis_in_slab(oi, di, mi, szi, p, q)) by {
                lemma_slab_iff(oi, di, mi, szi, lo, hi, p, q);
                if sat_range(tn2, Some(tf2), p, q) {
                    assert(rat_le_frac(tn, p, q)) by {
                        if rat_le(tn, lo) {
                            lemma_le_trans_frac(tn, tn2, p, q);
                        }
                    }
                    assert(rat_le_frac(lo, p, q)) by {
                        if !rat_le(tn, lo) {
                            assert(rat_le(lo, tn)) by (nonlinear_arith)
                                requires
                                    !(tn.num * lo.den <= lo.num * tn.den),
                                    rat_le(lo, tn) == (lo.num * tn.den <= tn.num * lo.den);
                            lemma_le_trans_frac(lo, tn2, p, q);
                        }
                    }
                    assert(frac_le_rat(p, q, hi)) by {
                        match tf {
                            Some(f) => {
                                if !rat_le(hi, f) {
                                    assert(rat_le(f, hi)) by (nonlinear_arith)
                                        requires
                                            !(hi.num * f.den <= f.num * hi.den),
                                            rat_le(f, hi) == (f.num * hi.den <= hi.num * f.den);
                                    lemma_ge_trans_frac(hi, tf2, p, q);
                                }
                            },
                            None => {},
                        }
                    }
                    match tf {
                        Some(f) => {
                            assert(frac_le_rat(p, q, f)) by {
                                if rat_le(hi, f) {
                                    lemma_ge_trans_frac(f, tf2, p, q);
                                }
                            }
                        },
                        None => {},
                    }
                }
                if sat_range(tn, tf, p, q) && axis_in_slab(oi, di, mi, szi, p, q) {
                    assert(rat_le_frac(tn2, p, q));
                    assert(frac_le_rat(p, q, tf2));
                }
            }
            if m * SCALE < o < (m + size) * SCALE {
                assert(lo.num < 0 && hi.num > 0) by (nonlinear_arith)
                    requires
                        (m as int) * 1024 < (o as int) < ((m as int) + (size as int)) * 1024,
                        SCALE == 1024,
                        lo.num == (if (d as int) > 0 {
                            (m as int) * 1024 - (o as int)
                        } else {
                            (o as int) - ((m as int) + (size as int)) * 1024
                        }),
                        hi.num == (if (d as int) > 0 {
                            ((m as int) + (size as int)) * 1024 - (o as int)
                        } else {
                            (o as int) - (m as int) * 1024
                        }),
                        d != 0;
                assert(!rat_le(tn, lo)) by (nonlinear_arith)
                    requires
                        tn.num >= 0,
                        tn.den > 0,
                        lo.num < 0,
                        lo.den > 0,
                        rat_le(tn, lo) == (tn.num * lo.den <= lo.num * tn.den);
                assert(tn2 == tn);
                match tf {
                    Some(f) => {
                        if f.num > 0 {
                            assert(tf2.num > 0);
                        }
                    },
                    None => {
                        assert(tf2 == hi);
                    },
                }
            }
        }
        Some((tn2, Some(tf2)))
    }
}

/// The interval endpoints of one slab are well-formed parameters.
proof fn lemma_slab_bounds(o: int, d: int, m: int, size: int, lo: Rat, hi: Rat)
    requires
        -ORIGIN_MAX <= o <= ORIGIN_MAX,
        -DIR_MAX <= d <= DIR_MAX,
        d != 0,
        -BOX_MAX <= m <= BOX_MAX,
        0 < size <= BOX_SIZE_MAX,
        lo.den == (if d > 0 {
            SCALE * d
        } else {
            -(SCALE * d)
        }),
        hi.den == lo.den,
        lo.num == (if d > 0 {
            m * SCALE - o
        } else {
            o - (m + size) * SCALE
        }),
        hi.num == (if d > 0 {
            (m + size) * SCALE - o
        } else {
            o - m * SCALE
        }),
    ensures
        rat_wf(lo),
        rat_wf(hi),
{
    assert(0 < lo.den <= DEN_MAX && -NUM_MAX <= lo.num <= NUM_MAX && -NUM_MAX <= hi.num
        <= NUM_MAX) by (nonlinear_arith)
        requires
            -0x10000000000 <= o <= 0x10000000000,
            -0x100000 <= d <= 0x100000,
            d != 0,
            -0x2000000000 <= m <= 0x2000000000,
            0 < size <= 0x10000,
            SCALE == 1024,
            DEN_MAX == 0x40000000,
            NUM_MAX == 0x1000000000000000,
            lo.den == (if d > 0 {
                SCALE * d
            } else {
                -(SCALE * d)
            }),
            hi.den == lo.den,
            lo.num == (if d > 0 {
                m * SCALE - o
            } else {
                o - (m + size) * SCALE
            }),
            hi.num == (if d > 0 {
                (m + size) * SCALE - o
            } else {
                o - m * SCALE
            });
}

/// Membership in one slab is exactly containment between the slab's entry
/// and exit parameters.
proof fn lemma_slab_iff(o: int, d: int, m: int, size: int, lo: Rat, hi: Rat, p: int, q: int)
    requires
        d != 0,
        q > 0,
        lo.den == (if d > 0 {
            SCALE * d
        } else {
            -(SCALE * d)
        }),
        hi.den == lo.den,
        lo.num == (if d > 0 {
            m * SCALE - o
        } else {
            o - (m + size) * SCALE
        }),
        hi.num == (if d > 0 {
            (m + size) * SCALE - o
        } else {
            o - m * SCALE
        }),
    ensures
        axis_in_slab(o, d, m, size, p, q) == (rat_le_frac(lo, p, q) && frac_le_rat(p, q, hi)),
{
    if d > 0 {
        assert(((m * SCALE - o) * q <= p * (SCALE * d)) == (m * SCALE * q <= o * q + p * d
            * SCALE)) by (nonlinear_arith);
        assert((p * (SCALE * d) <= ((m + size) * SCALE - o) * q) == (o * q + p * d * SCALE <= (m
            + size) * SCALE * q)) by (nonlinear_arith);
    } else {
        assert(((o - (m + size) * SCALE) * q <= p * (-(SCALE * d))) == (o * q + p * d * SCALE <= (
        m + size) * SCALE * q)) by (nonlinear_arith);
        assert((p * (-(SCALE * d)) <= (o - m * SCALE) * q) == (m * SCALE * q <= o * q + p * d
            * SCALE)) by (nonlinear_arith);
    }
}

/// The slab test: the parameter interval in which the ray meets the
/// closed cube of edge `size` at `(bx, by, bz)`. `Some((t_near, t_far))`
/// brackets every meeting parameter, with `t_near` clamped to zero;
/// `None` means no strictly positive parameter meets the cube.
pub fn ray_aabb_intersect(ray: &Ray, bx: i64, by: i64, bz: i64, size: i64) -> (r: Option<
    (Rat, Rat),
>)
    requires
        ray.wf(),
        -BOX_MAX <= bx <= BOX_MAX,
        -BOX_MAX <= by <= BOX_MAX,
        -BOX_MAX <= bz <= BOX_MAX,
        0 < size <= BOX_SIZE_MAX,
    ensures
        match r {
            Some((tn, tf)) => {
                &&& rat_wf(tn)
                &&& rat_wf(tf)
                &&& tn.num >= 0
                &&& tf.num > 0
                &&& rat_le(tn, tf)
                &&& point_in_box(*ray, tn.num as int, tn.den as int, bx as int, by as int,
                    bz as int, size as int)
                &&& point_in_box(*ray, tf.num as int, tf.den as int, bx as int, by as int,
                    bz as int, size as int)
                &&& (forall|p: int, q: int|
                    q > 0 && #[trigger] point_in_box(*ray, p, q, bx as int, by as int, bz as int,
                        size as int) && p >= 0 ==> rat_le_frac(tn, p, q) && frac_le_rat(p, q, tf))
                &&& (origin_strictly_inside(*ray, bx as int, by as int, bz as int, size as int)
                    ==> tn.num == 0)
            },
            None => forall|p: int, q: int|
                q > 0 && p > 0 ==> !(#[trigger] point_in_box(*ray, p, q, bx as int, by as int,
                    bz as int, size as int)),
        },
        origin_strictly_inside(*ray, bx as int, by as int, bz as int, size as int) ==> r is Some,
{
    let t0 = Rat::zero();
    let r1 = clip_axis(ray.ox, ray.dx, bx, size, t0, None);
    let (tn1, tf1) = match r1 {
        Some(v) => v,
        None => {
            proof {
                lemma_none_propagates_x(*ray, bx as int, by as int, bz as int, size as int);
            }
            return None;
        },
    };
    let r2 = clip_axis(ray.oy, ray.dy, by, size, tn1, tf1);
    let (tn2, tf2) = match r2 {
        Some(v) => v,
        None => {
            proof {
                lemma_none_propagates_y(*ray, bx as int, by as int, bz as int, size as int);
            }
            return None;
        },
    };
    let r3 = clip_axis(ray.oz, ray.dz, bz, size, tn2, tf2);
    let (tn3, tf3) = match r3 {
        Some(v) => v,
        None => {
            proof {
                lemma_none_propagates_z(*ray, bx as int, by as int, bz as int, size as int);
            }
            return None;
        },
    };
    let tf = match tf3 {
        Some(f) => f,
        None => {
            proof {
                assert(ray.dz == 0 && tf2 is None);
                assert(ray.dy == 0 && tf1 is None);
                assert(ray.dx == 0);
                assert(false);
            }
            Rat::zero()
        },
    };
    proof {
        // the final range admits exactly the nonnegative box parameters
        assert forall|p: int, q: int|
            q > 0 implies (#[trigger] sat_range(tn3, tf3, p, q) == (p * 1 >= 0 * q
            && point_in_box(*ray, p, q, bx as int, by as int, bz as int, size as int))) by {
            assert(sat_range(tn3, tf3, p, q) == (sat_range(tn2, tf2, p, q) && axis_in_slab(
                ray.oz as int, ray.dz as int, bz as int, size as int, p, q)));
            assert(sat_range(tn2, tf2, p, q) == (sat_range(tn1, tf1, p, q) && axis_in_slab(
                ray.oy as int, ray.dy as int, by as int, size as int, p, q)));
            assert(sat_range(tn1, tf1, p, q) == (sat_range(Rat { num: 0, den: 1 }, None, p, q)
                && axis_in_slab(ray.ox as int, ray.dx as int, bx as int, size as int, p, q)));
        }
    }
    if rat_le_exec(tn3, tf) && tf.num > 0 {
        proof {
            assert(sat_range(tn3, tf3, tn3.num as int, tn3.den as int)) by {
                assert(rat_le_frac(tn3, tn3.num as int, tn3.den as int));
                assert(frac_le_rat(tn3.num as int, tn3.den as int, tf)) by (nonlinear_arith)
                    requires
                        rat_le(tn3, tf) == (tn3.num * tf.den <= tf.num * tn3.den),
                        rat_le(tn3, tf),
                        frac_le_rat(tn3.num as int, tn3.den as int, tf) == ((tn3.num as int) * (
                        tf.den as int) <= (tf.num as int) * (tn3.den as int));
            }
            assert(sat_range(tn3, tf3, tf.num as int, tf.den as int)) by {
                assert(frac_le_rat(tf.num as int, tf.den as int, tf));
                assert(rat_le_frac(tn3, tf.num as int, tf.den as int));
            }
            assert((tn3.num as int) * 1 >= 0 * (tn3.den as int)) by (nonlinear_arith)
                requires tn3.num >= 0;
            assert((tf.num as int) * 1 >= 0 * (tf.den as int)) by (nonlinear_arith)
                requires tf.num > 0;
            assert forall|p: int, q: int|
                q > 0 && #[trigger] point_in_box(*ray, p, q, bx as int, by as int, bz as int,
                    size as int) && p >= 0 implies rat_le_frac(tn3, p, q) && frac_le_rat(
                p,
                q,
                tf,
            ) by {
                assert(p * 1 >= 0 * q) by (nonlinear_arith)
                    requires p >= 0 && q > 0;
                assert(sat_range(tn3, tf3, p, q));
            }
            if origin_strictly_inside(*ray, bx as int, by as int, bz as int, size as int) {
                assert(tn3 == Rat { num: 0, den: 1 });
            }
        }
        Some((tn3, tf))
    } else {
        proof {
            assert forall|p: int, q: int| q > 0 && p > 0 implies !(#[trigger] point_in_box(
                *ray,
                p,
                q,
                bx as int,
                by as int,
                bz as int,
                size as int,
            )) by {
                if point_in_box(*ray, p, q, bx as int, by as int, bz as int, size as int) {
                    assert(p * 1 >= 0 * q) by (nonlinear_arith)
                        requires p > 0 && q > 0;
                    assert(sat_range(tn3, tf3, p, q));
                    if !rat_le(tn3, tf) {
                        assert(false) by (nonlinear_arith)
                            requires
                                tn3.num * q <= p * tn3.den,
                                p * tf.den <= tf.num * q,
                                !(tn3.num * tf.den <= tf.num * tn3.den),
                                q > 0,
                                tn3.den > 0,
                                tf.den > 0;
                    } else {
                        assert(tf.num <= 0);
                        assert(false) by (nonlinear_arith)
                            requires
                                p * tf.den <= tf.num * q,
                                tf.num <= 0,
                                p > 0,
                                q > 0,
                                tf.den > 0;
                    }
                }
            }
            if origin_strictly_inside(*ray, bx as int, by as int, bz as int, size as int) {
                assert(false) by {
                    assert(tn3 == Rat { num: 0, den: 1 });
                    assert(tf3 is Some && (tf3.unwrap().num > 0));
                    assert(rat_le(tn3, tf)) by (nonlinear_arith)
                        requires
                            tn3.num == 0,
                            tn3.den == 1,
                            tf.num > 0,
                            tf.den > 0,
                            rat_le(tn3, tf) == (tn3.num * tf.den <= tf.num * tn3.den);
                }
            }
        }
        None
    }
}

/// No parameter passes the first slab: none meets the whole cube.
proof fn lemma_none_propagates_x(ray: Ray, bx: int, by: int, bz: int, size: int)
    requires
        forall|p: int, q: int|
            q > 0 ==> !axis_in_slab(ray.ox as int, ray.dx as int, bx, size, p, q),
    ensures
        forall|p: int, q: int|
            q > 0 && p > 0 ==> !(#[trigger] point_in_box(ray, p, q, bx, by, bz, size)),
{
}

proof fn lemma_none_propagates_y(ray: Ray, bx: int, by: int, bz: int, size: int)
    requires
        forall|p: int, q: int|
            q > 0 ==> !axis_in_slab(ray.oy as int, ray.dy as int, by, size, p, q),
    ensures
        forall|p: int, q: int|
            q > 0 && p > 0 ==> !(#[trigger] point_in_box(ray, p, q, bx, by, bz, size)),
{
}

proof fn lemma_none_propagates_z(ray: Ray, bx: int, by: int, bz: int, size: int)
    requires
        forall|p: int, q: int|
            q > 0 ==> !axis_in_slab(ray.oz as int, ray.dz as int, bz, size, p, q),
    ensures
        forall|p: int, q: int|
            q > 0 && p > 0 ==> !(#[trigger] point_in_box(ray, p, q, bx, by, bz, size)),
{
}


/// The result of tracing a ray: either a miss, or the first solid voxel
/// found, reported as the cell in absolute voxel coordinates, the ray
/// parameter at which the cell was entered, an axis-aligned unit normal,
/// and the material read there. Distances in world units are for the
/// caller: the parameter is exact.
#[derive(Clone, Copy, PartialEq, Eq, Structural, Debug)]
pub struct RayHit {
    pub hit: bool,
    pub t: Rat,
    pub cx: i64,
    pub cy: i64,
    pub cz: i64,
    pub nx: i32,
    pub ny: i32,
    pub nz: i32,
    pub material_id: VoxelId,
}

/// The normal is one of the six axis-aligned unit vectors.
pub open spec fn axis_unit_normal(nx: int, ny: int, nz: int) -> bool {
    ||| (nx == 1 || nx == -1) && ny == 0 && nz == 0
    ||| nx == 0 && (ny == 1 || ny == -1) && nz == 0
    ||| nx == 0 && ny == 0 && (nz == 1 || nz == -1)
}

impl RayHit {
    pub fn new_miss() -> (r: RayHit)
        ensures
            !r.hit,
            r.t == (Rat { num: 0, den: 1 }),
            r.material_id.0 == 0,
            axis_unit_normal(r.nx as int, r.ny as int, r.nz as int),
    {
        RayHit {
            hit: false,
            t: Rat { num: 0, den: 1 },
            cx: 0,
            cy: 0,
            cz: 0,
            nx: 0,
            ny: 1,
            nz: 0,
            material_id: VoxelId(0),
        }
    }

    pub fn new_hit(
        cx: i64,
        cy: i64,
        cz: i64,
        t: Rat,
        nx: i32,
        ny: i32,
        nz: i32,
        material_id: VoxelId,
    ) -> (r: RayHit)
        ensures
            r == (RayHit { hit: true, t, cx, cy, cz, nx, ny, nz, material_id }),
    {
        RayHit { hit: true, t, cx, cy, cz, nx, ny, nz, material_id }
    }
}


/// A ray pointing away from a box never meets it at a positive parameter:
/// if on some axis the origin sits beyond the box's far face and the
/// direction does not move back (or mirrored on the near face), then no
/// point of the ray with `t > 0` lies in the box. Together with the slab
/// test's guarantee that `Some` exhibits such a point, such a ray always
/// reports `None`.
pub proof fn lemma_pointing_away(
    ray: Ray,
    bx: int,
    by: int,
    bz: int,
    size: int,
    p: int,
    q: int,
)
    requires
        q > 0,
        p > 0,
        ((ray.ox > (bx + size) * SCALE && ray.dx >= 0) || (ray.ox < bx * SCALE && ray.dx <= 0))
            || ((ray.oy > (by + size) * SCALE && ray.dy >= 0) || (ray.oy < by * SCALE && ray.dy
            <= 0)) || ((ray.oz > (bz + size) * SCALE && ray.dz >= 0) || (ray.oz < bz * SCALE
            && ray.dz <= 0)),
    ensures
        !point_in_box(ray, p, q, bx, by, bz, size),
{
    if (ray.ox > (bx + size) * SCALE && ray.dx >= 0) || (ray.ox < bx * SCALE && ray.dx <= 0) {
        lemma_axis_away(ray.ox as int, ray.dx as int, bx, size, p, q);
    } else if (ray.oy > (by + size) * SCALE && ray.dy >= 0) || (ray.oy < by * SCALE && ray.dy
        <= 0) {
        lemma_axis_away(ray.oy as int, ray.dy as int, by, size, p, q);
    } else {
        lemma_axis_away(ray.oz as int, ray.dz as int, bz, size, p, q);
    }
}

/// One axis walking away from its slab stays out of it.
proof fn lemma_axis_away(o: int, d: int, m: int, size: int, p: int, q: int)
    requires
        q > 0,
        p > 0,
        (o > (m + size) * SCALE && d >= 0) || (o < m * SCALE && d <= 0),
    ensures
        !axis_in_slab(o, d, m, size, p, q),
{
    if o > (m + size) * SCALE && d >= 0 {
        assert(!(o * q + p * d * 1024 <= (m + size) * 1024 * q)) by (nonlinear_arith)
            requires
                o > (m + size) * 1024,
                d >= 0,
                p > 0,
                q > 0;
    } else {
        assert(!(m * 1024 * q <= o * q + p * d * 1024)) by (nonlinear_arith)
            requires
                o < m * 1024,
                d <= 0,
                p > 0,
                q > 0;
    }
}

} // verus!
