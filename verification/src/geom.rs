//! Mathematical model of the geometry core: integer 3-vectors, exact rational
//! comparisons, and the spec-level predicates for ray-triangle intersection,
//! triangle-box overlap and ray-box intersection that the executable code in
//! `math` is proved against.
//!
//! All coordinates are integers on a fixed-point grid; every test is exact,
//! so none of the epsilon guards that a floating-point implementation needs
//! appear here.

use vstd::prelude::*;

verus! {

/// Spec-level 3-vector over the mathematical integers.
pub struct V3 {
    pub x: int,
    pub y: int,
    pub z: int,
}

impl V3 {
    pub open spec fn vadd(self, o: V3) -> V3 {
        V3 { x: self.x + o.x, y: self.y + o.y, z: self.z + o.z }
    }

    pub open spec fn vsub(self, o: V3) -> V3 {
        V3 { x: self.x - o.x, y: self.y - o.y, z: self.z - o.z }
    }

    pub open spec fn vscale(self, k: int) -> V3 {
        V3 { x: k * self.x, y: k * self.y, z: k * self.z }
    }

    pub open spec fn vdot(self, o: V3) -> int {
        self.x * o.x + self.y * o.y + self.z * o.z
    }

    pub open spec fn vcross(self, o: V3) -> V3 {
        V3 {
            x: self.y * o.z - self.z * o.y,
            y: self.z * o.x - self.x * o.z,
            z: self.x * o.y - self.y * o.x,
        }
    }
}

/// Componentwise `<=` on vectors.
pub open spec fn v3_le(a: V3, b: V3) -> bool {
    a.x <= b.x && a.y <= b.y && a.z <= b.z
}

pub open spec fn iabs(i: int) -> int {
    if i < 0 {
        -i
    } else {
        i
    }
}

pub open spec fn min3(a: int, b: int, c: int) -> int {
    if a <= b && a <= c {
        a
    } else if b <= c {
        b
    } else {
        c
    }
}

pub open spec fn max3(a: int, b: int, c: int) -> int {
    if a >= b && a >= c {
        a
    } else if b >= c {
        b
    } else {
        c
    }
}

/// Mathematical view of a ray: an origin and an (unnormalized) direction.
pub struct RayV {
    pub origin: V3,
    pub dir: V3,
}

/// Mathematical view of a triangle: three vertices, a color, and the cached
/// componentwise bounds of the vertices.
pub struct TriV {
    pub v0: V3,
    pub v1: V3,
    pub v2: V3,
    pub color: V3,
    pub v_min: V3,
    pub v_max: V3,
}

// ---------------------------------------------------------------------------
// Exact rational comparison. A distance along a ray is the rational tn/td
// with td > 0; comparisons cross-multiply by the positive denominators.
// ---------------------------------------------------------------------------

/// `an/ad <= bn/bd`, for positive denominators `ad`, `bd`.
pub open spec fn rat_le(an: int, ad: int, bn: int, bd: int) -> bool
    recommends
        ad > 0,
        bd > 0,
{
    an * bd <= bn * ad
}

/// `an/ad < bn/bd`, for positive denominators `ad`, `bd`.
pub open spec fn rat_lt(an: int, ad: int, bn: int, bd: int) -> bool
    recommends
        ad > 0,
        bd > 0,
{
    an * bd < bn * ad
}

/// `an/ad == bn/bd` as rationals, for positive denominators.
pub open spec fn rat_eq(an: int, ad: int, bn: int, bd: int) -> bool
    recommends
        ad > 0,
        bd > 0,
{
    an * bd == bn * ad
}

pub proof fn lemma_rat_le_trans(an: int, ad: int, bn: int, bd: int, cn: int, cd: int)
    by (nonlinear_arith)
    requires
        ad > 0,
        bd > 0,
        cd > 0,
        rat_le(an, ad, bn, bd),
        rat_le(bn, bd, cn, cd),
    ensures
        rat_le(an, ad, cn, cd),
{
}

pub proof fn lemma_rat_lt_le_trans(an: int, ad: int, bn: int, bd: int, cn: int, cd: int)
    by (nonlinear_arith)
    requires
        ad > 0,
        bd > 0,
        cd > 0,
        rat_lt(an, ad, bn, bd),
        rat_le(bn, bd, cn, cd),
    ensures
        rat_lt(an, ad, cn, cd),
{
}

// ---------------------------------------------------------------------------
// Moeller-Trumbore ray-triangle intersection, exact.
// ---------------------------------------------------------------------------

pub open spec fn mt_e1(t: TriV) -> V3 {
    t.v1.vsub(t.v0)
}

pub open spec fn mt_e2(t: TriV) -> V3 {
    t.v2.vsub(t.v0)
}

/// `p = dir x e2`, the vector the determinant and `u` project onto.
pub open spec fn mt_p(t: TriV, r: RayV) -> V3 {
    r.dir.vcross(mt_e2(t))
}

/// The determinant `e1 . (dir x e2)`; zero exactly when the ray direction is
/// parallel to the triangle's plane (or the triangle is degenerate).
pub open spec fn mt_det(t: TriV, r: RayV) -> int {
    mt_e1(t).vdot(mt_p(t, r))
}

pub open spec fn mt_s(t: TriV, r: RayV) -> V3 {
    r.origin.vsub(t.v0)
}

/// Numerator of the barycentric coordinate `u` (over `mt_det`).
pub open spec fn mt_un(t: TriV, r: RayV) -> int {
    mt_s(t, r).vdot(mt_p(t, r))
}

pub open spec fn mt_q(t: TriV, r: RayV) -> V3 {
    mt_s(t, r).vcross(mt_e1(t))
}

/// Numerator of the barycentric coordinate `v` (over `mt_det`).
pub open spec fn mt_vn(t: TriV, r: RayV) -> int {
    r.dir.vdot(mt_q(t, r))
}

/// Numerator of the hit distance `t` (over `mt_det`).
pub open spec fn mt_tn(t: TriV, r: RayV) -> int {
    mt_e2(t).vdot(mt_q(t, r))
}

/// Sign of the determinant: +1 or -1 (only used when it is nonzero).
pub open spec fn mt_sign(t: TriV, r: RayV) -> int {
    if mt_det(t, r) >= 0 {
        1
    } else {
        -1
    }
}

/// The exact Moeller-Trumbore test. Returns the hit distance as a rational
/// `(numerator, denominator)` with positive denominator, or `None` when the
/// ray is parallel to the triangle's plane, the intersection point falls
/// outside the triangle (`u < 0`, `u > 1`, `v < 0` or `u + v > 1`), or the
/// triangle lies strictly behind the ray origin (`t < 0`).
pub open spec fn hit_spec(t: TriV, r: RayV) -> Option<(int, int)> {
    let det = mt_det(t, r);
    if det == 0 {
        None
    } else {
        let k = mt_sign(t, r);
        let adet = k * det;
        let un = k * mt_un(t, r);
        let vn = k * mt_vn(t, r);
        let tn = k * mt_tn(t, r);
        if 0 <= un && un <= adet && 0 <= vn && un + vn <= adet && 0 <= tn {
            Some((tn, adet))
        } else {
            None
        }
    }
}

// ---------------------------------------------------------------------------
// Points on a ray, and boxes. A point at rational parameter tn/td is kept
// scaled by td: its true coordinates are `ray_point_scaled(..)/td`.
// ---------------------------------------------------------------------------

/// `td * origin + tn * dir`: the point at parameter `tn/td`, scaled by `td`.
pub open spec fn ray_point_scaled(r: RayV, tn: int, td: int) -> V3 {
    r.origin.vscale(td).vadd(r.dir.vscale(tn))
}

/// Is the point `pnum/den` inside the box `[bmin, bmax]` (touching counts)?
pub open spec fn in_box_scaled(bmin: V3, bmax: V3, pnum: V3, den: int) -> bool
    recommends
        den > 0,
{
    v3_le(bmin.vscale(den), pnum) && v3_le(pnum, bmax.vscale(den))
}

/// Integer points (scale 1).
pub open spec fn in_box(bmin: V3, bmax: V3, p: V3) -> bool {
    in_box_scaled(bmin, bmax, p, 1)
}

/// Does the forward half of the ray meet the box? This is the exact meaning
/// of the slab test: some rational parameter `t >= 0` puts the ray's point
/// inside the box.
pub open spec fn ray_hits_box(bmin: V3, bmax: V3, r: RayV) -> bool {
    exists|tn: int, td: int|
        td > 0 && tn >= 0 && in_box_scaled(bmin, bmax, ray_point_scaled(r, tn, td), td)
}

// ---------------------------------------------------------------------------
// Separating-axis triangle-box overlap, exact.
//
// The vertices are doubled and re-centered on the box (`2*v - (bmin+bmax)`),
// and the box half-extents are doubled to `bmax - bmin`; this keeps every
// quantity an integer without dividing by two. Each candidate axis separates
// when the triangle's projected interval lies strictly outside the box's
// projected radius. A zero axis never separates (its projections and radius
// are all zero), so the degenerate-axis guard of a floating-point
// implementation is unnecessary here.
// ---------------------------------------------------------------------------

/// A triangle vertex in doubled box-local coordinates.
pub open spec fn sat_local(bmin: V3, bmax: V3, v: V3) -> V3 {
    v.vscale(2).vsub(bmin.vadd(bmax))
}

/// Doubled half-extents of the box.
pub open spec fn sat_ext(bmin: V3, bmax: V3) -> V3 {
    bmax.vsub(bmin)
}

/// Projection radius of the box onto axis `a`: `sum_i e_i * |a_i|`.
pub open spec fn box_radius(e: V3, a: V3) -> int {
    e.x * iabs(a.x) + e.y * iabs(a.y) + e.z * iabs(a.z)
}

/// Does axis `a` separate the (doubled, box-local) triangle from the box?
pub open spec fn axis_separates(a: V3, u0: V3, u1: V3, u2: V3, e: V3) -> bool {
    let p0 = u0.vdot(a);
    let p1 = u1.vdot(a);
    let p2 = u2.vdot(a);
    let rad = box_radius(e, a);
    min3(p0, p1, p2) > rad || max3(p0, p1, p2) < -rad
}

pub open spec fn axis_x() -> V3 {
    V3 { x: 1, y: 0, z: 0 }
}

pub open spec fn axis_y() -> V3 {
    V3 { x: 0, y: 1, z: 0 }
}

pub open spec fn axis_z() -> V3 {
    V3 { x: 0, y: 0, z: 1 }
}

/// The thirteen candidate separating axes: the three box face normals, the
/// triangle's face normal, and the nine edge-axis cross products.
#[verifier::opaque]
pub open spec fn tri_box_sat(bmin: V3, bmax: V3, t: TriV) -> bool {
    let u0 = sat_local(bmin, bmax, t.v0);
    let u1 = sat_local(bmin, bmax, t.v1);
    let u2 = sat_local(bmin, bmax, t.v2);
    let e = sat_ext(bmin, bmax);
    let f0 = u1.vsub(u0);
    let f1 = u2.vsub(u1);
    let f2 = u0.vsub(u2);
    let n = f0.vcross(u2.vsub(u0));
    !axis_separates(axis_x(), u0, u1, u2, e) && !axis_separates(axis_y(), u0, u1, u2, e)
        && !axis_separates(axis_z(), u0, u1, u2, e) && !axis_separates(n, u0, u1, u2, e)
        && !axis_separates(axis_x().vcross(f0), u0, u1, u2, e) && !axis_separates(
        axis_x().vcross(f1),
        u0,
        u1,
        u2,
        e,
    ) && !axis_separates(axis_x().vcross(f2), u0, u1, u2, e) && !axis_separates(
        axis_y().vcross(f0),
        u0,
        u1,
        u2,
        e,
    ) && !axis_separates(axis_y().vcross(f1), u0, u1, u2, e) && !axis_separates(
        axis_y().vcross(f2),
        u0,
        u1,
        u2,
        e,
    ) && !axis_separates(axis_z().vcross(f0), u0, u1, u2, e) && !axis_separates(
        axis_z().vcross(f1),
        u0,
        u1,
        u2,
        e,
    ) && !axis_separates(axis_z().vcross(f2), u0, u1, u2, e)
}

// ---------------------------------------------------------------------------
// Range lemmas, used by the executable code to rule out overflow.
// ---------------------------------------------------------------------------

pub proof fn lemma_mul_range(x: int, y: int, bx: int, by: int)
    by (nonlinear_arith)
    requires
        0 <= bx,
        0 <= by,
        -bx <= x <= bx,
        -by <= y <= by,
    ensures
        -(bx * by) <= x * y <= bx * by,
{
}

/// Is every component of `v` within `[-b, b]`?
pub open spec fn within(v: V3, b: int) -> bool {
    -b <= v.x <= b && -b <= v.y <= b && -b <= v.z <= b
}

// ---------------------------------------------------------------------------
// The Cramer identity behind Moeller-Trumbore: the solution numerators
// u, v, t really solve `origin + t*dir = (1-u-v)*v0 + u*v1 + v*v2`.
// ---------------------------------------------------------------------------

// (u.w) v1 - (v.w) u1 expands to w2 (u2 v1 - u1 v2) + w3 (u3 v1 - u1 v3).
#[verifier::rlimit(100)]
proof fn lemma_swap_first(
    u1: int, u2: int, u3: int,
    v1: int, v2: int, v3: int,
    w1: int, w2: int, w3: int,
)
    ensures
        (u1 * w1 + u2 * w2 + u3 * w3) * v1 - (v1 * w1 + v2 * w2 + v3 * w3) * u1
            == w2 * (u2 * v1 - u1 * v2) + w3 * (u3 * v1 - u1 * v3),
{
    broadcast use vstd::arithmetic::mul::group_mul_properties;
}

// One component of the Cramer identity, over raw coordinates:
// det * s1 == un * a1 + vn * b1 - tn * d1, with a = e1, b = e2, d = dir.
proof fn lemma_cramer_first(
    a1: int, a2: int, a3: int,
    b1: int, b2: int, b3: int,
    d1: int, d2: int, d3: int,
    s1: int, s2: int, s3: int,
)
    ensures
        (a1 * (d2 * b3 - d3 * b2) + a2 * (d3 * b1 - d1 * b3) + a3 * (d1 * b2 - d2 * b1)) * s1
            == (s1 * (d2 * b3 - d3 * b2) + s2 * (d3 * b1 - d1 * b3) + s3 * (d1 * b2 - d2 * b1)) * a1
             + (d1 * (s2 * a3 - s3 * a2) + d2 * (s3 * a1 - s1 * a3) + d3 * (s1 * a2 - s2 * a1)) * b1
             - (b1 * (s2 * a3 - s3 * a2) + b2 * (s3 * a1 - s1 * a3) + b3 * (s1 * a2 - s2 * a1)) * d1,
{
    let p1 = d2 * b3 - d3 * b2;
    let p2 = d3 * b1 - d1 * b3;
    let p3 = d1 * b2 - d2 * b1;
    let q1 = s2 * a3 - s3 * a2;
    let q2 = s3 * a1 - s1 * a3;
    let q3 = s1 * a2 - s2 * a1;
    lemma_swap_first(a1, a2, a3, s1, s2, s3, p1, p2, p3);
    assert((a1 * p1 + a2 * p2 + a3 * p3) * s1 - (s1 * p1 + s2 * p2 + s3 * p3) * a1
        == p2 * q3 + p3 * (-q2)) by {
        assert(a2 * s1 - a1 * s2 == q3);
        assert(a3 * s1 - a1 * s3 == -q2);
        assert(p2 * (a2 * s1 - a1 * s2) == p2 * q3) by (nonlinear_arith)
            requires a2 * s1 - a1 * s2 == q3;
        assert(p3 * (a3 * s1 - a1 * s3) == p3 * (-q2)) by (nonlinear_arith)
            requires a3 * s1 - a1 * s3 == -q2;
    }
    lemma_swap_first(b1, b2, b3, d1, d2, d3, q1, q2, q3);
    assert((b1 * q1 + b2 * q2 + b3 * q3) * d1 - (d1 * q1 + d2 * q2 + d3 * q3) * b1
        == q2 * p3 + q3 * (-p2)) by {
        assert(b2 * d1 - b1 * d2 == p3);
        assert(b3 * d1 - b1 * d3 == -p2);
        assert(q2 * (b2 * d1 - b1 * d2) == q2 * p3) by (nonlinear_arith)
            requires b2 * d1 - b1 * d2 == p3;
        assert(q3 * (b3 * d1 - b1 * d3) == q3 * (-p2)) by (nonlinear_arith)
            requires b3 * d1 - b1 * d3 == -p2;
    }
    assert(p2 * q3 == q3 * p2) by (nonlinear_arith);
    assert(p3 * q2 == q2 * p3) by (nonlinear_arith);
    assert(p3 * (-q2) == -(p3 * q2)) by (nonlinear_arith);
    assert(q3 * (-p2) == -(q3 * p2)) by (nonlinear_arith);
    assert((a1 * p1 + a2 * p2 + a3 * p3) * s1 == (s1 * p1 + s2 * p2 + s3 * p3) * a1 + (d1 * q1
        + d2 * q2 + d3 * q3) * b1 - (b1 * q1 + b2 * q2 + b3 * q3) * d1);
}

/// The Cramer identity at the vector level, one equation per coordinate:
/// `mt_det * (origin - v0) == mt_un * e1 + mt_vn * e2 - mt_tn * dir`.
pub proof fn lemma_mt_identity(t: TriV, r: RayV)
    ensures
        mt_det(t, r) * mt_s(t, r).x == mt_un(t, r) * mt_e1(t).x + mt_vn(t, r) * mt_e2(t).x - mt_tn(
            t,
            r,
        ) * r.dir.x,
        mt_det(t, r) * mt_s(t, r).y == mt_un(t, r) * mt_e1(t).y + mt_vn(t, r) * mt_e2(t).y - mt_tn(
            t,
            r,
        ) * r.dir.y,
        mt_det(t, r) * mt_s(t, r).z == mt_un(t, r) * mt_e1(t).z + mt_vn(t, r) * mt_e2(t).z - mt_tn(
            t,
            r,
        ) * r.dir.z,
{
    let a = mt_e1(t);
    let b = mt_e2(t);
    let d = r.dir;
    let s = mt_s(t, r);
    lemma_cramer_first(a.x, a.y, a.z, b.x, b.y, b.z, d.x, d.y, d.z, s.x, s.y, s.z);
    lemma_cramer_first(a.y, a.z, a.x, b.y, b.z, b.x, d.y, d.z, d.x, s.y, s.z, s.x);
    lemma_cramer_first(a.z, a.x, a.y, b.z, b.x, b.y, d.z, d.x, d.y, s.z, s.x, s.y);
}

// Normalized hit data: `hit_adet` is `|det|`, the common positive denominator
// of the barycentric coordinates and the hit distance; `hit_wa/wb/wc` are the
// (scaled) barycentric weights of the intersection point.

pub open spec fn hit_adet(t: TriV, r: RayV) -> int {
    mt_sign(t, r) * mt_det(t, r)
}

pub open spec fn hit_wb(t: TriV, r: RayV) -> int {
    mt_sign(t, r) * mt_un(t, r)
}

pub open spec fn hit_wc(t: TriV, r: RayV) -> int {
    mt_sign(t, r) * mt_vn(t, r)
}

pub open spec fn hit_wa(t: TriV, r: RayV) -> int {
    hit_adet(t, r) - hit_wb(t, r) - hit_wc(t, r)
}

// det * ox + tn * dx == (det - un - vn) * v0x + un * v1x + vn * v2x follows
// from one component of the Cramer identity, also after flipping every sign.
proof fn lemma_bary_comp0(
    det: int, un: int, vn: int, tn: int,
    ox: int, dx: int, v0x: int, v1x: int, v2x: int,
)
    by (nonlinear_arith)
    requires
        det * (ox - v0x) == un * (v1x - v0x) + vn * (v2x - v0x) - tn * dx,
    ensures
        det * ox + tn * dx == (det - un - vn) * v0x + un * v1x + vn * v2x,
{
}

proof fn lemma_bary_comp(
    k: int, det: int, un: int, vn: int, tn: int,
    ox: int, dx: int, v0x: int, v1x: int, v2x: int,
)
    requires
        k == 1 || k == -1,
        det * (ox - v0x) == un * (v1x - v0x) + vn * (v2x - v0x) - tn * dx,
    ensures
        (k * det) * ox + (k * tn) * dx == ((k * det) - (k * un) - (k * vn)) * v0x + (k * un) * v1x
            + (k * vn) * v2x,
{
    lemma_bary_comp0(det, un, vn, tn, ox, dx, v0x, v1x, v2x);
    if k == 1 {
        assert((1 * det) * ox == det * ox) by (nonlinear_arith);
        assert((1 * tn) * dx == tn * dx) by (nonlinear_arith);
        assert(((1 * det) - (1 * un) - (1 * vn)) * v0x == (det - un - vn) * v0x)
            by (nonlinear_arith);
        assert((1 * un) * v1x == un * v1x) by (nonlinear_arith);
        assert((1 * vn) * v2x == vn * v2x) by (nonlinear_arith);
    } else {
        assert(((-1) * det) * ox == -(det * ox)) by (nonlinear_arith);
        assert(((-1) * tn) * dx == -(tn * dx)) by (nonlinear_arith);
        assert((((-1) * det) - ((-1) * un) - ((-1) * vn)) * v0x == -((det - un - vn) * v0x))
            by (nonlinear_arith);
        assert(((-1) * un) * v1x == -(un * v1x)) by (nonlinear_arith);
        assert(((-1) * vn) * v2x == -(vn * v2x)) by (nonlinear_arith);
    }
}

/// When the exact test reports a hit `(tn, td)`, the ray's point at `tn/td`
/// is the convex combination of the triangle's vertices with the barycentric
/// weights `hit_wa, hit_wb, hit_wc` (all nonnegative, summing to `td`): the
/// reported distance really is the distance to a point of the triangle.
pub proof fn lemma_hit_point_barycentric(t: TriV, r: RayV, tn: int, td: int)
    requires
        hit_spec(t, r) == Some((tn, td)),
    ensures
        td == hit_adet(t, r),
        td > 0,
        hit_wa(t, r) >= 0,
        hit_wb(t, r) >= 0,
        hit_wc(t, r) >= 0,
        hit_wa(t, r) + hit_wb(t, r) + hit_wc(t, r) == td,
        ray_point_scaled(r, tn, td).x == hit_wa(t, r) * t.v0.x + hit_wb(t, r) * t.v1.x + hit_wc(
            t,
            r,
        ) * t.v2.x,
        ray_point_scaled(r, tn, td).y == hit_wa(t, r) * t.v0.y + hit_wb(t, r) * t.v1.y + hit_wc(
            t,
            r,
        ) * t.v2.y,
        ray_point_scaled(r, tn, td).z == hit_wa(t, r) * t.v0.z + hit_wb(t, r) * t.v1.z + hit_wc(
            t,
            r,
        ) * t.v2.z,
{
    lemma_mt_identity(t, r);
    let k = mt_sign(t, r);
    let det = mt_det(t, r);
    let un = mt_un(t, r);
    let vn = mt_vn(t, r);
    let tn0 = mt_tn(t, r);
    assert(mt_s(t, r).x == r.origin.x - t.v0.x);
    assert(mt_e1(t).x == t.v1.x - t.v0.x);
    assert(mt_e2(t).x == t.v2.x - t.v0.x);
    lemma_bary_comp(
        k, det, un, vn, tn0,
        r.origin.x, r.dir.x, t.v0.x, t.v1.x, t.v2.x,
    );
    lemma_bary_comp(
        k, det, un, vn, tn0,
        r.origin.y, r.dir.y, t.v0.y, t.v1.y, t.v2.y,
    );
    lemma_bary_comp(
        k, det, un, vn, tn0,
        r.origin.z, r.dir.z, t.v0.z, t.v1.z, t.v2.z,
    );
}

/// A weighted average with nonnegative weights summing to `w` stays between
/// `w` times the least and `w` times the greatest of the values.
pub proof fn lemma_weighted_between(
    wa: int, wb: int, wc: int,
    x0: int, x1: int, x2: int,
    lo: int, hi: int, w: int,
)
    by (nonlinear_arith)
    requires
        wa >= 0,
        wb >= 0,
        wc >= 0,
        wa + wb + wc == w,
        lo <= x0 && lo <= x1 && lo <= x2,
        x0 <= hi && x1 <= hi && x2 <= hi,
    ensures
        w * lo <= wa * x0 + wb * x1 + wc * x2 <= w * hi,
{
}

/// A hit point lies inside the triangle's cached bounding box.
pub proof fn lemma_hit_point_in_tri_bbox(t: TriV, r: RayV, tn: int, td: int)
    requires
        hit_spec(t, r) == Some((tn, td)),
        t.v_min.x == min3(t.v0.x, t.v1.x, t.v2.x),
        t.v_min.y == min3(t.v0.y, t.v1.y, t.v2.y),
        t.v_min.z == min3(t.v0.z, t.v1.z, t.v2.z),
        t.v_max.x == max3(t.v0.x, t.v1.x, t.v2.x),
        t.v_max.y == max3(t.v0.y, t.v1.y, t.v2.y),
        t.v_max.z == max3(t.v0.z, t.v1.z, t.v2.z),
    ensures
        td > 0,
        in_box_scaled(t.v_min, t.v_max, ray_point_scaled(r, tn, td), td),
{
    lemma_hit_point_barycentric(t, r, tn, td);
    let wa = hit_wa(t, r);
    let wb = hit_wb(t, r);
    let wc = hit_wc(t, r);
    lemma_weighted_between(wa, wb, wc, t.v0.x, t.v1.x, t.v2.x, t.v_min.x, t.v_max.x, td);
    lemma_weighted_between(wa, wb, wc, t.v0.y, t.v1.y, t.v2.y, t.v_min.y, t.v_max.y, td);
    lemma_weighted_between(wa, wb, wc, t.v0.z, t.v1.z, t.v2.z, t.v_min.z, t.v_max.z, td);
}

// ---------------------------------------------------------------------------
// The separating-axis test never rejects a triangle that shares a point with
// the box: any candidate axis fails to separate once a common point exists.
// ---------------------------------------------------------------------------

// pp = wa*u0 + wb*u1 + wc*u2 projects onto any axis as the same weighted
// combination of the vertex projections (one component of the dot product).
#[verifier::rlimit(100)]
proof fn lemma_combo_mul(wa: int, wb: int, wc: int, x0: int, x1: int, x2: int, px: int, w: int)
    requires
        px == wa * x0 + wb * x1 + wc * x2,
    ensures
        px * w == wa * (x0 * w) + wb * (x1 * w) + wc * (x2 * w),
{
    broadcast use vstd::arithmetic::mul::group_mul_properties;
}

proof fn lemma_distrib3(k: int, x: int, y: int, z: int)
    by (nonlinear_arith)
    ensures
        k * (x + y + z) == k * x + k * y + k * z,
        (x + y + z) * k == x * k + y * k + z * k,
{
}

proof fn lemma_mul_abs_bound(p: int, a: int, e: int, aa: int)
    by (nonlinear_arith)
    requires
        -e <= p <= e,
        aa >= a,
        aa >= -a,
    ensures
        -(e * aa) <= p * a <= e * aa,
{
}

proof fn lemma_pos_mul_lt(k: int, x: int, y: int)
    by (nonlinear_arith)
    requires
        k > 0,
        x < y,
    ensures
        k * x < k * y,
{
}

// A point of the box (given as the weighted combination pp of the doubled
// box-local triangle vertices, with |pp| within the doubled extents) keeps
// every axis from separating.
proof fn lemma_axis_ok(
    a: V3, u0: V3, u1: V3, u2: V3, e: V3, pp: V3, den: int, wa: int, wb: int, wc: int,
)
    requires
        den > 0,
        wa >= 0,
        wb >= 0,
        wc >= 0,
        wa + wb + wc == den,
        pp.x == wa * u0.x + wb * u1.x + wc * u2.x,
        pp.y == wa * u0.y + wb * u1.y + wc * u2.y,
        pp.z == wa * u0.z + wb * u1.z + wc * u2.z,
        -(e.x * den) <= pp.x <= e.x * den,
        -(e.y * den) <= pp.y <= e.y * den,
        -(e.z * den) <= pp.z <= e.z * den,
    ensures
        !axis_separates(a, u0, u1, u2, e),
{
    let p0 = u0.vdot(a);
    let p1 = u1.vdot(a);
    let p2 = u2.vdot(a);
    let rad = box_radius(e, a);
    let dp = pp.vdot(a);
    // dp == wa*p0 + wb*p1 + wc*p2
    lemma_combo_mul(wa, wb, wc, u0.x, u1.x, u2.x, pp.x, a.x);
    lemma_combo_mul(wa, wb, wc, u0.y, u1.y, u2.y, pp.y, a.y);
    lemma_combo_mul(wa, wb, wc, u0.z, u1.z, u2.z, pp.z, a.z);
    lemma_distrib3(wa, u0.x * a.x, u0.y * a.y, u0.z * a.z);
    lemma_distrib3(wb, u1.x * a.x, u1.y * a.y, u1.z * a.z);
    lemma_distrib3(wc, u2.x * a.x, u2.y * a.y, u2.z * a.z);
    assert(dp == wa * p0 + wb * p1 + wc * p2);
    // |dp| <= den * rad
    lemma_mul_abs_bound(pp.x, a.x, e.x * den, iabs(a.x));
    lemma_mul_abs_bound(pp.y, a.y, e.y * den, iabs(a.y));
    lemma_mul_abs_bound(pp.z, a.z, e.z * den, iabs(a.z));
    assert((e.x * den) * iabs(a.x) == den * (e.x * iabs(a.x))) by (nonlinear_arith);
    assert((e.y * den) * iabs(a.y) == den * (e.y * iabs(a.y))) by (nonlinear_arith);
    assert((e.z * den) * iabs(a.z) == den * (e.z * iabs(a.z))) by (nonlinear_arith);
    lemma_distrib3(den, e.x * iabs(a.x), e.y * iabs(a.y), e.z * iabs(a.z));
    assert(-(den * rad) <= dp <= den * rad);
    // den*min3 <= dp <= den*max3
    lemma_weighted_between(wa, wb, wc, p0, p1, p2, min3(p0, p1, p2), max3(p0, p1, p2), den);
    // a separating axis would contradict the two bounds
    if min3(p0, p1, p2) > rad {
        lemma_pos_mul_lt(den, rad, min3(p0, p1, p2));
    }
    if max3(p0, p1, p2) < -rad {
        lemma_pos_mul_lt(den, max3(p0, p1, p2), -rad);
        assert(den * -rad == -(den * rad)) by (nonlinear_arith);
    }
}

// Doubling and re-centering keeps a convex combination: one component.
#[verifier::rlimit(100)]
proof fn lemma_local_combo(
    wa: int, wb: int, wc: int, den: int,
    px: int, v0x: int, v1x: int, v2x: int, sx: int,
)
    requires
        px == wa * v0x + wb * v1x + wc * v2x,
        wa + wb + wc == den,
    ensures
        2 * px - sx * den == wa * (2 * v0x - sx) + wb * (2 * v1x - sx) + wc * (2 * v2x - sx),
{
    broadcast use vstd::arithmetic::mul::group_mul_properties;
}

/// A triangle that contains a point of the box `[bmin, bmax]` (the point
/// given as a scaled convex combination of the vertices) passes the
/// separating-axis overlap test: the test has no false negatives.
pub proof fn lemma_sat_contains_point(
    bmin: V3, bmax: V3, t: TriV, pnum: V3, den: int, wa: int, wb: int, wc: int,
)
    requires
        den > 0,
        wa >= 0,
        wb >= 0,
        wc >= 0,
        wa + wb + wc == den,
        pnum.x == wa * t.v0.x + wb * t.v1.x + wc * t.v2.x,
        pnum.y == wa * t.v0.y + wb * t.v1.y + wc * t.v2.y,
        pnum.z == wa * t.v0.z + wb * t.v1.z + wc * t.v2.z,
        in_box_scaled(bmin, bmax, pnum, den),
    ensures
        tri_box_sat(bmin, bmax, t),
{
    reveal(crate::geom::tri_box_sat);
    let u0 = sat_local(bmin, bmax, t.v0);
    let u1 = sat_local(bmin, bmax, t.v1);
    let u2 = sat_local(bmin, bmax, t.v2);
    let e = sat_ext(bmin, bmax);
    let f0 = u1.vsub(u0);
    let f1 = u2.vsub(u1);
    let f2 = u0.vsub(u2);
    let n = f0.vcross(u2.vsub(u0));
    let sx = bmin.x + bmax.x;
    let sy = bmin.y + bmax.y;
    let sz = bmin.z + bmax.z;
    let pp = V3 { x: 2 * pnum.x - sx * den, y: 2 * pnum.y - sy * den, z: 2 * pnum.z - sz * den };
    lemma_local_combo(wa, wb, wc, den, pnum.x, t.v0.x, t.v1.x, t.v2.x, sx);
    lemma_local_combo(wa, wb, wc, den, pnum.y, t.v0.y, t.v1.y, t.v2.y, sy);
    lemma_local_combo(wa, wb, wc, den, pnum.z, t.v0.z, t.v1.z, t.v2.z, sz);
    // |pp| is within the doubled extents times den
    assert((bmax.x - bmin.x) * den == bmax.x * den - bmin.x * den) by (nonlinear_arith);
    assert((bmax.y - bmin.y) * den == bmax.y * den - bmin.y * den) by (nonlinear_arith);
    assert((bmax.z - bmin.z) * den == bmax.z * den - bmin.z * den) by (nonlinear_arith);
    assert((bmin.x + bmax.x) * den == bmin.x * den + bmax.x * den) by (nonlinear_arith);
    assert((bmin.y + bmax.y) * den == bmin.y * den + bmax.y * den) by (nonlinear_arith);
    assert((bmin.z + bmax.z) * den == bmin.z * den + bmax.z * den) by (nonlinear_arith);
    assert(bmin.x * den == den * bmin.x) by (nonlinear_arith);
    assert(bmax.x * den == den * bmax.x) by (nonlinear_arith);
    assert(bmin.y * den == den * bmin.y) by (nonlinear_arith);
    assert(bmax.y * den == den * bmax.y) by (nonlinear_arith);
    assert(bmin.z * den == den * bmin.z) by (nonlinear_arith);
    assert(bmax.z * den == den * bmax.z) by (nonlinear_arith);
    assert(-(e.x * den) <= pp.x <= e.x * den);
    assert(-(e.y * den) <= pp.y <= e.y * den);
    assert(-(e.z * den) <= pp.z <= e.z * den);
    lemma_axis_ok(axis_x(), u0, u1, u2, e, pp, den, wa, wb, wc);
    lemma_axis_ok(axis_y(), u0, u1, u2, e, pp, den, wa, wb, wc);
    lemma_axis_ok(axis_z(), u0, u1, u2, e, pp, den, wa, wb, wc);
    lemma_axis_ok(n, u0, u1, u2, e, pp, den, wa, wb, wc);
    lemma_axis_ok(axis_x().vcross(f0), u0, u1, u2, e, pp, den, wa, wb, wc);
    lemma_axis_ok(axis_x().vcross(f1), u0, u1, u2, e, pp, den, wa, wb, wc);
    lemma_axis_ok(axis_x().vcross(f2), u0, u1, u2, e, pp, den, wa, wb, wc);
    lemma_axis_ok(axis_y().vcross(f0), u0, u1, u2, e, pp, den, wa, wb, wc);
    lemma_axis_ok(axis_y().vcross(f1), u0, u1, u2, e, pp, den, wa, wb, wc);
    lemma_axis_ok(axis_y().vcross(f2), u0, u1, u2, e, pp, den, wa, wb, wc);
    lemma_axis_ok(axis_z().vcross(f0), u0, u1, u2, e, pp, den, wa, wb, wc);
    lemma_axis_ok(axis_z().vcross(f1), u0, u1, u2, e, pp, den, wa, wb, wc);
    lemma_axis_ok(axis_z().vcross(f2), u0, u1, u2, e, pp, den, wa, wb, wc);
}

/// A triangle with all three vertices inside the box always overlaps it.
pub proof fn lemma_sat_inside(bmin: V3, bmax: V3, t: TriV)
    requires
        in_box(bmin, bmax, t.v0),
        in_box(bmin, bmax, t.v1),
        in_box(bmin, bmax, t.v2),
    ensures
        tri_box_sat(bmin, bmax, t),
{
    let pnum = V3 { x: 1 * t.v0.x + 0 * t.v1.x + 0 * t.v2.x,
                    y: 1 * t.v0.y + 0 * t.v1.y + 0 * t.v2.y,
                    z: 1 * t.v0.z + 0 * t.v1.z + 0 * t.v2.z };
    assert(pnum.x == t.v0.x);
    assert(pnum.y == t.v0.y);
    assert(pnum.z == t.v0.z);
    lemma_sat_contains_point(bmin, bmax, t, pnum, 1, 1, 0, 0);
}

// ---------------------------------------------------------------------------
// Translation invariance.
// ---------------------------------------------------------------------------

/// The triangle shifted by `off` (bounds and all; the color is unchanged).
pub open spec fn tri_translate(t: TriV, off: V3) -> TriV {
    TriV {
        v0: t.v0.vadd(off),
        v1: t.v1.vadd(off),
        v2: t.v2.vadd(off),
        color: t.color,
        v_min: t.v_min.vadd(off),
        v_max: t.v_max.vadd(off),
    }
}

/// The ray shifted by `off`: the origin moves, the direction is unchanged.
pub open spec fn ray_translate(r: RayV, off: V3) -> RayV {
    RayV { origin: r.origin.vadd(off), dir: r.dir }
}

/// Translating a triangle and a ray by the same offset changes nothing about
/// their intersection: the same hit distance, or the same miss.
pub proof fn lemma_hit_translation(t: TriV, r: RayV, off: V3)
    ensures
        hit_spec(tri_translate(t, off), ray_translate(r, off)) == hit_spec(t, r),
{
    let t2 = tri_translate(t, off);
    let r2 = ray_translate(r, off);
    assert(mt_e1(t2) == mt_e1(t));
    assert(mt_e2(t2) == mt_e2(t));
    assert(mt_s(t2, r2) == mt_s(t, r));
    assert(r2.dir == r.dir);
    assert(mt_p(t2, r2) == mt_p(t, r));
    assert(mt_q(t2, r2) == mt_q(t, r));
}

/// Translating a triangle and a box by the same offset changes nothing about
/// their overlap.
pub proof fn lemma_sat_translation(bmin: V3, bmax: V3, t: TriV, off: V3)
    ensures
        tri_box_sat(bmin.vadd(off), bmax.vadd(off), tri_translate(t, off)) == tri_box_sat(
            bmin,
            bmax,
            t,
        ),
{
    reveal(crate::geom::tri_box_sat);
    let bmin2 = bmin.vadd(off);
    let bmax2 = bmax.vadd(off);
    let t2 = tri_translate(t, off);
    assert(sat_local(bmin2, bmax2, t2.v0) == sat_local(bmin, bmax, t.v0));
    assert(sat_local(bmin2, bmax2, t2.v1) == sat_local(bmin, bmax, t.v1));
    assert(sat_local(bmin2, bmax2, t2.v2) == sat_local(bmin, bmax, t.v2));
    assert(sat_ext(bmin2, bmax2) == sat_ext(bmin, bmax));
}

// ---------------------------------------------------------------------------
// When the intersection point misses the triangle, the test reports no hit.
// ---------------------------------------------------------------------------

/// For a non-parallel ray the test reports a miss exactly when one of the
/// barycentric conditions fails or the triangle is behind the origin: with
/// the positive denominator `hit_adet`, `hit_wb/hit_adet` is the coordinate
/// `u`, `hit_wc/hit_adet` is `v`, and the conditions are `u < 0`, `u > 1`,
/// `v < 0`, `u + v > 1` and `t < 0`.
pub proof fn lemma_miss_outside(t: TriV, r: RayV)
    requires
        mt_det(t, r) != 0,
    ensures
        hit_adet(t, r) > 0,
        hit_spec(t, r) is None <==> (hit_wb(t, r) < 0 || hit_wb(t, r) > hit_adet(t, r) || hit_wc(
            t,
            r,
        ) < 0 || hit_wb(t, r) + hit_wc(t, r) > hit_adet(t, r) || mt_sign(t, r) * mt_tn(t, r) < 0),
{
    if mt_det(t, r) > 0 {
        assert(hit_adet(t, r) == mt_det(t, r));
    } else {
        assert(hit_adet(t, r) == -mt_det(t, r));
    }
}

// ---------------------------------------------------------------------------
// Integer midpoints (rounded toward zero, as the executable division does).
// ---------------------------------------------------------------------------

pub open spec fn half_toward_zero(s: int) -> int {
    if s >= 0 {
        s / 2
    } else {
        -((-s) / 2)
    }
}

pub proof fn lemma_half_between(a: int, b: int)
    requires
        a <= b,
    ensures
        a <= half_toward_zero(a + b) <= b,
{
}

pub proof fn lemma_half_range(s: int, bnd: int)
    requires
        -2 * bnd <= s <= 2 * bnd,
    ensures
        -bnd <= half_toward_zero(s) <= bnd,
{
}

// ---------------------------------------------------------------------------
// Slab constraints, one axis at a time. The executable slab test folds the
// three axis constraints into one rational interval; these lemmas translate
// each axis constraint into interval bounds on t.
// ---------------------------------------------------------------------------

/// The axis constraint of the slab test: at parameter `tn/td`, the ray's
/// coordinate `o + (tn/td) d` lies within `[lo, hi]` (scaled by `td`).
pub open spec fn slab_axis_ok(lo: int, hi: int, o: int, d: int, tn: int, td: int) -> bool
    recommends
        td > 0,
{
    td * lo <= td * o + tn * d && td * o + tn * d <= td * hi
}

/// A point of the ray is in the box exactly when all three axis constraints
/// hold.
pub proof fn lemma_in_box_axes(bmin: V3, bmax: V3, r: RayV, tn: int, td: int)
    ensures
        in_box_scaled(bmin, bmax, ray_point_scaled(r, tn, td), td) <==> (slab_axis_ok(
            bmin.x,
            bmax.x,
            r.origin.x,
            r.dir.x,
            tn,
            td,
        ) && slab_axis_ok(bmin.y, bmax.y, r.origin.y, r.dir.y, tn, td) && slab_axis_ok(
            bmin.z,
            bmax.z,
            r.origin.z,
            r.dir.z,
            tn,
            td,
        )),
{
}

/// With a zero direction component, the axis constraint is independent of t.
pub proof fn lemma_slab_axis_zero(lo: int, hi: int, o: int, tn: int, td: int)
    by (nonlinear_arith)
    requires
        td > 0,
    ensures
        slab_axis_ok(lo, hi, o, 0, tn, td) <==> (lo <= o && o <= hi),
{
}

/// With a positive direction component, the axis constraint bounds t between
/// the entry `(lo-o)/d` and the exit `(hi-o)/d`.
pub proof fn lemma_slab_axis_pos(lo: int, hi: int, o: int, d: int, tn: int, td: int)
    by (nonlinear_arith)
    requires
        td > 0,
        d > 0,
    ensures
        slab_axis_ok(lo, hi, o, d, tn, td) <==> (rat_le(lo - o, d, tn, td) && rat_le(
            tn,
            td,
            hi - o,
            d,
        )),
{
}

/// With a negative direction component, entry and exit swap sides.
pub proof fn lemma_slab_axis_neg(lo: int, hi: int, o: int, d: int, tn: int, td: int)
    by (nonlinear_arith)
    requires
        td > 0,
        d < 0,
    ensures
        slab_axis_ok(lo, hi, o, d, tn, td) <==> (rat_le(o - hi, -d, tn, td) && rat_le(
            tn,
            td,
            o - lo,
            -d,
        )),
{
}


/// Multiplication respects equality of the factors (an explicit congruence
/// step for the solver, which treats products as opaque terms).
pub proof fn lemma_mul_congr(a: int, b: int, c: int, d: int)
    by (nonlinear_arith)
    requires
        a == c,
        b == d,
    ensures
        a * b == c * d,
{
}

} // verus!
