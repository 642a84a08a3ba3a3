//! The geometry core: vectors, rays, triangles, meshes and the octree index,
//! over exact fixed-point (integer) coordinates.
//!
//! Every coordinate is an integer in `[-COORD_LIMIT, COORD_LIMIT]`; a caller
//! maps world units onto this grid with whatever scale it likes. All the
//! intersection tests are exact, so the contracts tie each test to its
//! mathematical statement in `geom` with no floating-point tolerances.

use vstd::prelude::*;

use crate::geom::V3;
use crate::geom::RayV;
use crate::geom::TriV;
use crate::geom::within;
use crate::geom::min3;
use crate::geom::max3;
use crate::geom::iabs;
use crate::geom::mt_e1;
use crate::geom::mt_e2;
use crate::geom::hit_spec;
use crate::geom::tri_box_sat;
use crate::geom::axis_separates;
use crate::geom::sat_local;
use crate::geom::sat_ext;
use crate::geom::box_radius;
use crate::geom::axis_x;
use crate::geom::axis_y;
use crate::geom::axis_z;
use crate::geom::lemma_mul_range;
use crate::geom::lemma_mul_congr;

verus! {

/// Half-width of the coordinate grid: every coordinate handled by the core
/// lies in `[-COORD_LIMIT, COORD_LIMIT]`. The bound keeps every intermediate
/// product of the exact tests inside `i128`.
pub const COORD_LIMIT: i64 = 262144;

/// Is `v` on the coordinate grid?
pub open spec fn in_range(v: V3) -> bool {
    within(v, COORD_LIMIT as int)
}

/// An integer 3-vector on the fixed-point grid.
#[derive(Clone, Copy, Debug, PartialEq, Eq, Structural)]
pub struct Vec3 {
    pub x: i64,
    pub y: i64,
    pub z: i64,
}

impl View for Vec3 {
    type V = V3;

    open spec fn view(&self) -> V3 {
        V3 { x: self.x as int, y: self.y as int, z: self.z as int }
    }
}

impl Vec3 {
    pub open spec fn in_range_spec(self) -> bool {
        in_range(self@)
    }

    pub fn new(x: i64, y: i64, z: i64) -> (r: Vec3)
        ensures
            r@ == (V3 { x: x as int, y: y as int, z: z as int }),
    {
        Vec3 { x, y, z }
    }
}

/// A ray: origin and (unnormalized) direction.
#[derive(Clone, Copy, Debug)]
pub struct Ray {
    pub origin: Vec3,
    pub dir: Vec3,
}

impl View for Ray {
    type V = RayV;

    open spec fn view(&self) -> RayV {
        RayV { origin: self.origin@, dir: self.dir@ }
    }
}

impl Ray {
    /// Are both the origin and the direction on the grid?
    pub open spec fn wf(self) -> bool {
        in_range(self@.origin) && in_range(self@.dir)
    }

    pub fn new(origin: Vec3, dir: Vec3) -> (r: Ray)
        ensures
            r@.origin == origin@,
            r@.dir == dir@,
    {
        Ray { origin, dir }
    }
}

/// A triangle: three vertices, a color, and the cached componentwise bounds
/// of the vertices. Triangles are immutable after construction; `Tri::new`
/// establishes `wf`, which every test requires.
#[derive(Clone, Copy, Debug, PartialEq, Eq, Structural)]
pub struct Tri {
    pub v0: Vec3,
    pub v1: Vec3,
    pub v2: Vec3,
    pub color: Vec3,
    pub v_min: Vec3,
    pub v_max: Vec3,
}

impl View for Tri {
    type V = TriV;

    open spec fn view(&self) -> TriV {
        TriV {
            v0: self.v0@,
            v1: self.v1@,
            v2: self.v2@,
            color: self.color@,
            v_min: self.v_min@,
            v_max: self.v_max@,
        }
    }
}

/// The triangle's vertices are on the grid and its cached bounds are exactly
/// the componentwise minimum and maximum of the vertices.
pub open spec fn tri_wf(t: TriV) -> bool {
    &&& in_range(t.v0)
    &&& in_range(t.v1)
    &&& in_range(t.v2)
    &&& t.v_min.x == min3(t.v0.x, t.v1.x, t.v2.x)
    &&& t.v_min.y == min3(t.v0.y, t.v1.y, t.v2.y)
    &&& t.v_min.z == min3(t.v0.z, t.v1.z, t.v2.z)
    &&& t.v_max.x == max3(t.v0.x, t.v1.x, t.v2.x)
    &&& t.v_max.y == max3(t.v0.y, t.v1.y, t.v2.y)
    &&& t.v_max.z == max3(t.v0.z, t.v1.z, t.v2.z)
}

fn min_i64(a: i64, b: i64) -> (r: i64)
    ensures
        r == if a as int <= b as int { a as int } else { b as int },
{
    if a <= b {
        a
    } else {
        b
    }
}

fn max_i64(a: i64, b: i64) -> (r: i64)
    ensures
        r == if a as int >= b as int { a as int } else { b as int },
{
    if a >= b {
        a
    } else {
        b
    }
}

impl Tri {
    pub open spec fn wf(self) -> bool {
        tri_wf(self@)
    }

    /// Builds a triangle and caches its bounding box (the componentwise
    /// minimum and maximum of the three vertices).
    pub fn new(v0: Vec3, v1: Vec3, v2: Vec3, color: Vec3) -> (r: Tri)
        requires
            in_range(v0@),
            in_range(v1@),
            in_range(v2@),
        ensures
            r.wf(),
            r@.v0 == v0@,
            r@.v1 == v1@,
            r@.v2 == v2@,
            r@.color == color@,
    {
        let v_min = Vec3 {
            x: min_i64(v0.x, min_i64(v1.x, v2.x)),
            y: min_i64(v0.y, min_i64(v1.y, v2.y)),
            z: min_i64(v0.z, min_i64(v1.z, v2.z)),
        };
        let v_max = Vec3 {
            x: max_i64(v0.x, max_i64(v1.x, v2.x)),
            y: max_i64(v0.y, max_i64(v1.y, v2.y)),
            z: max_i64(v0.z, max_i64(v1.z, v2.z)),
        };
        Tri { v0, v1, v2, color, v_min, v_max }
    }

    /// The (unnormalized) face normal: `(v1 - v0) x (v2 - v0)`.
    pub fn normal(&self) -> (r: Vec3)
        requires
            self.wf(),
        ensures
            r@ == mt_e1(self@).vcross(mt_e2(self@)),
    {
        let e1x = self.v1.x - self.v0.x;
        let e1y = self.v1.y - self.v0.y;
        let e1z = self.v1.z - self.v0.z;
        let e2x = self.v2.x - self.v0.x;
        let e2y = self.v2.y - self.v0.y;
        let e2z = self.v2.z - self.v0.z;
        proof {
            let c = COORD_LIMIT as int;
            lemma_mul_range(e1y as int, e2z as int, 2 * c, 2 * c);
            lemma_mul_range(e1z as int, e2y as int, 2 * c, 2 * c);
            lemma_mul_range(e1z as int, e2x as int, 2 * c, 2 * c);
            lemma_mul_range(e1x as int, e2z as int, 2 * c, 2 * c);
            lemma_mul_range(e1x as int, e2y as int, 2 * c, 2 * c);
            lemma_mul_range(e1y as int, e2x as int, 2 * c, 2 * c);
            lemma_mul_congr(e1y as int, e2z as int, mt_e1(self@).y, mt_e2(self@).z);
            lemma_mul_congr(e1z as int, e2y as int, mt_e1(self@).z, mt_e2(self@).y);
            lemma_mul_congr(e1z as int, e2x as int, mt_e1(self@).z, mt_e2(self@).x);
            lemma_mul_congr(e1x as int, e2z as int, mt_e1(self@).x, mt_e2(self@).z);
            lemma_mul_congr(e1x as int, e2y as int, mt_e1(self@).x, mt_e2(self@).y);
            lemma_mul_congr(e1y as int, e2x as int, mt_e1(self@).y, mt_e2(self@).x);
        }
        Vec3 { x: e1y * e2z - e1z * e2y, y: e1z * e2x - e1x * e2z, z: e1x * e2y - e1y * e2x }
    }
}

/// An immutable ordered list of triangles, shared by the render pass and the
/// octree.
#[derive(Clone, Debug)]
pub struct Mesh {
    pub tris: Vec<Tri>,
}

impl Mesh {
    pub fn new(tris: Vec<Tri>) -> (r: Mesh)
        ensures
            r.tris@ == tris@,
    {
        Mesh { tris }
    }
}

// ---------------------------------------------------------------------------
// Wide integer vectors: every intermediate of the exact tests is computed in
// i128, with the coordinate bound carried along to rule out overflow.
// ---------------------------------------------------------------------------

/// Internal wide vector for exact intermediate arithmetic.
struct W3 {
    x: i128,
    y: i128,
    z: i128,
}

impl View for W3 {
    type V = V3;

    closed spec fn view(&self) -> V3 {
        V3 { x: self.x as int, y: self.y as int, z: self.z as int }
    }
}

fn w3_sub(a: &W3, b: &W3, Ghost(ba): Ghost<int>, Ghost(bb): Ghost<int>) -> (r: W3)
    requires
        0 <= ba,
        0 <= bb,
        within(a@, ba),
        within(b@, bb),
        ba + bb <= i128::MAX,
    ensures
        r@ == a@.vsub(b@),
        within(r@, ba + bb),
{
    W3 { x: a.x - b.x, y: a.y - b.y, z: a.z - b.z }
}

fn w3_cross(a: &W3, b: &W3, Ghost(ba): Ghost<int>, Ghost(bb): Ghost<int>) -> (r: W3)
    requires
        0 <= ba,
        0 <= bb,
        within(a@, ba),
        within(b@, bb),
        2 * (ba * bb) <= i128::MAX,
    ensures
        r@ == a@.vcross(b@),
        within(r@, 2 * (ba * bb)),
{
    proof {
        lemma_mul_range(a.y as int, b.z as int, ba, bb);
        lemma_mul_range(a.z as int, b.y as int, ba, bb);
        lemma_mul_range(a.z as int, b.x as int, ba, bb);
        lemma_mul_range(a.x as int, b.z as int, ba, bb);
        lemma_mul_range(a.x as int, b.y as int, ba, bb);
        lemma_mul_range(a.y as int, b.x as int, ba, bb);
    }
    W3 { x: a.y * b.z - a.z * b.y, y: a.z * b.x - a.x * b.z, z: a.x * b.y - a.y * b.x }
}

fn w3_dot(a: &W3, b: &W3, Ghost(ba): Ghost<int>, Ghost(bb): Ghost<int>) -> (r: i128)
    requires
        0 <= ba,
        0 <= bb,
        within(a@, ba),
        within(b@, bb),
        3 * (ba * bb) <= i128::MAX,
    ensures
        r == a@.vdot(b@),
        -(3 * (ba * bb)) <= r <= 3 * (ba * bb),
{
    proof {
        lemma_mul_range(a.x as int, b.x as int, ba, bb);
        lemma_mul_range(a.y as int, b.y as int, ba, bb);
        lemma_mul_range(a.z as int, b.z as int, ba, bb);
    }
    a.x * b.x + a.y * b.y + a.z * b.z
}

fn abs_i128(x: i128) -> (r: i128)
    requires
        x > i128::MIN,
    ensures
        r == iabs(x as int),
{
    if x < 0 {
        -x
    } else {
        x
    }
}

fn min3_i128(a: i128, b: i128, c: i128) -> (r: i128)
    ensures
        r == min3(a as int, b as int, c as int),
{
    if a <= b && a <= c {
        a
    } else if b <= c {
        b
    } else {
        c
    }
}

fn max3_i128(a: i128, b: i128, c: i128) -> (r: i128)
    ensures
        r == max3(a as int, b as int, c as int),
{
    if a >= b && a >= c {
        a
    } else if b >= c {
        b
    } else {
        c
    }
}

// The box's projection radius onto an axis: e.x*|a.x| + e.y*|a.y| + e.z*|a.z|.
fn box_radius_exec(e: &W3, a: &W3, Ghost(be): Ghost<int>, Ghost(bax): Ghost<int>) -> (r: i128)
    requires
        0 <= be,
        0 <= bax,
        bax < i128::MAX,
        within(e@, be),
        within(a@, bax),
        3 * (be * bax) <= i128::MAX,
    ensures
        r == box_radius(e@, a@),
        -(3 * (be * bax)) <= r <= 3 * (be * bax),
{
    let ax = abs_i128(a.x);
    let ay = abs_i128(a.y);
    let az = abs_i128(a.z);
    proof {
        lemma_mul_range(e.x as int, ax as int, be, bax);
        lemma_mul_range(e.y as int, ay as int, be, bax);
        lemma_mul_range(e.z as int, az as int, be, bax);
        lemma_mul_congr(e.x as int, ax as int, e@.x, iabs(a@.x));
        lemma_mul_congr(e.y as int, ay as int, e@.y, iabs(a@.y));
        lemma_mul_congr(e.z as int, az as int, e@.z, iabs(a@.z));
    }
    e.x * ax + e.y * ay + e.z * az
}

// Does this axis separate the (doubled, box-local) triangle from the box?
fn axis_test(
    a: &W3, u0: &W3, u1: &W3, u2: &W3, e: &W3,
    Ghost(bax): Ghost<int>, Ghost(bu): Ghost<int>, Ghost(be): Ghost<int>,
) -> (sep: bool)
    requires
        0 <= bax,
        0 <= bu,
        0 <= be,
        bax < i128::MAX,
        within(a@, bax),
        within(u0@, bu),
        within(u1@, bu),
        within(u2@, bu),
        within(e@, be),
        3 * (bu * bax) < i128::MAX,
        3 * (be * bax) < i128::MAX,
    ensures
        sep == axis_separates(a@, u0@, u1@, u2@, e@),
{
    let p0 = w3_dot(u0, a, Ghost(bu), Ghost(bax));
    let p1 = w3_dot(u1, a, Ghost(bu), Ghost(bax));
    let p2 = w3_dot(u2, a, Ghost(bu), Ghost(bax));
    let rad = box_radius_exec(e, a, Ghost(be), Ghost(bax));
    let mn = min3_i128(p0, p1, p2);
    let mx = max3_i128(p0, p1, p2);
    mn > rad || mx < -rad
}

/// Does the triangle overlap the axis-aligned box `[aabb_min, aabb_max]`
/// (touching counts)? Exact separating-axis test; equal to the mathematical
/// statement `tri_box_sat`, which never rejects a triangle sharing a point
/// with the box.
pub fn triangle_aabb_intersects(aabb_min: Vec3, aabb_max: Vec3, tri: &Tri) -> (r: bool)
    requires
        in_range(aabb_min@),
        in_range(aabb_max@),
        tri.wf(),
    ensures
        r == tri_box_sat(aabb_min@, aabb_max@, tri@),
{
    proof {
        reveal(crate::geom::tri_box_sat);
    }
    let ghost c = COORD_LIMIT as int;
    let sx = aabb_min.x as i128 + aabb_max.x as i128;
    let sy = aabb_min.y as i128 + aabb_max.y as i128;
    let sz = aabb_min.z as i128 + aabb_max.z as i128;
    let u0 = W3 {
        x: 2 * (tri.v0.x as i128) - sx,
        y: 2 * (tri.v0.y as i128) - sy,
        z: 2 * (tri.v0.z as i128) - sz,
    };
    let u1 = W3 {
        x: 2 * (tri.v1.x as i128) - sx,
        y: 2 * (tri.v1.y as i128) - sy,
        z: 2 * (tri.v1.z as i128) - sz,
    };
    let u2 = W3 {
        x: 2 * (tri.v2.x as i128) - sx,
        y: 2 * (tri.v2.y as i128) - sy,
        z: 2 * (tri.v2.z as i128) - sz,
    };
    let e = W3 {
        x: aabb_max.x as i128 - aabb_min.x as i128,
        y: aabb_max.y as i128 - aabb_min.y as i128,
        z: aabb_max.z as i128 - aabb_min.z as i128,
    };
    proof {
        assert(u0@ == sat_local(aabb_min@, aabb_max@, tri@.v0));
        assert(u1@ == sat_local(aabb_min@, aabb_max@, tri@.v1));
        assert(u2@ == sat_local(aabb_min@, aabb_max@, tri@.v2));
        assert(e@ == sat_ext(aabb_min@, aabb_max@));
        assert(within(u0@, 4 * c));
        assert(within(u1@, 4 * c));
        assert(within(u2@, 4 * c));
        assert(within(e@, 2 * c));
    }
    let xaxis = W3 { x: 1, y: 0, z: 0 };
    let yaxis = W3 { x: 0, y: 1, z: 0 };
    let zaxis = W3 { x: 0, y: 0, z: 1 };
    proof {
        assert(xaxis@ == axis_x());
        assert(yaxis@ == axis_y());
        assert(zaxis@ == axis_z());
    }
    if axis_test(&xaxis, &u0, &u1, &u2, &e, Ghost(1), Ghost(4 * c), Ghost(2 * c)) {
        return false;
    }
    if axis_test(&yaxis, &u0, &u1, &u2, &e, Ghost(1), Ghost(4 * c), Ghost(2 * c)) {
        return false;
    }
    if axis_test(&zaxis, &u0, &u1, &u2, &e, Ghost(1), Ghost(4 * c), Ghost(2 * c)) {
        return false;
    }
    let f0 = w3_sub(&u1, &u0, Ghost(4 * c), Ghost(4 * c));
    let f1 = w3_sub(&u2, &u1, Ghost(4 * c), Ghost(4 * c));
    let f2 = w3_sub(&u0, &u2, Ghost(4 * c), Ghost(4 * c));
    let e20 = w3_sub(&u2, &u0, Ghost(4 * c), Ghost(4 * c));
    let n = w3_cross(&f0, &e20, Ghost(8 * c), Ghost(8 * c));
    if axis_test(&n, &u0, &u1, &u2, &e, Ghost(2 * ((8 * c) * (8 * c))), Ghost(4 * c), Ghost(2 * c))
    {
        return false;
    }
    let xf0 = w3_cross(&xaxis, &f0, Ghost(1), Ghost(8 * c));
    let xf1 = w3_cross(&xaxis, &f1, Ghost(1), Ghost(8 * c));
    let xf2 = w3_cross(&xaxis, &f2, Ghost(1), Ghost(8 * c));
    let yf0 = w3_cross(&yaxis, &f0, Ghost(1), Ghost(8 * c));
    let yf1 = w3_cross(&yaxis, &f1, Ghost(1), Ghost(8 * c));
    let yf2 = w3_cross(&yaxis, &f2, Ghost(1), Ghost(8 * c));
    let zf0 = w3_cross(&zaxis, &f0, Ghost(1), Ghost(8 * c));
    let zf1 = w3_cross(&zaxis, &f1, Ghost(1), Ghost(8 * c));
    let zf2 = w3_cross(&zaxis, &f2, Ghost(1), Ghost(8 * c));
    let gb = Ghost(2 * (1 * (8 * c)));
    if axis_test(&xf0, &u0, &u1, &u2, &e, gb, Ghost(4 * c), Ghost(2 * c)) {
        return false;
    }
    if axis_test(&xf1, &u0, &u1, &u2, &e, gb, Ghost(4 * c), Ghost(2 * c)) {
        return false;
    }
    if axis_test(&xf2, &u0, &u1, &u2, &e, gb, Ghost(4 * c), Ghost(2 * c)) {
        return false;
    }
    if axis_test(&yf0, &u0, &u1, &u2, &e, gb, Ghost(4 * c), Ghost(2 * c)) {
        return false;
    }
    if axis_test(&yf1, &u0, &u1, &u2, &e, gb, Ghost(4 * c), Ghost(2 * c)) {
        return false;
    }
    if axis_test(&yf2, &u0, &u1, &u2, &e, gb, Ghost(4 * c), Ghost(2 * c)) {
        return false;
    }
    if axis_test(&zf0, &u0, &u1, &u2, &e, gb, Ghost(4 * c), Ghost(2 * c)) {
        return false;
    }
    if axis_test(&zf1, &u0, &u1, &u2, &e, gb, Ghost(4 * c), Ghost(2 * c)) {
        return false;
    }
    if axis_test(&zf2, &u0, &u1, &u2, &e, gb, Ghost(4 * c), Ghost(2 * c)) {
        return false;
    }
    true
}

// ---------------------------------------------------------------------------
// Ray-triangle intersection (Moeller-Trumbore), exact.
// ---------------------------------------------------------------------------

/// Largest possible hit-distance numerator: `48 * COORD_LIMIT^3`.
pub const HIT_NUM_LIMIT: i128 = 864691128455135232;

/// Largest possible hit-distance denominator: `24 * COORD_LIMIT^3`.
pub const HIT_DEN_LIMIT: i128 = 432345564227567616;

/// An exact hit distance along a ray: the rational `num / den`, `den > 0`.
#[derive(Clone, Copy, Debug, PartialEq, Eq, Structural)]
pub struct Hit {
    pub num: i128,
    pub den: i128,
}

impl Hit {
    /// The distance is nonnegative and both parts are small enough that
    /// cross-multiplied comparisons of two hits stay inside `i128`.
    pub open spec fn wf(self) -> bool {
        0 <= self.num <= HIT_NUM_LIMIT && 0 < self.den <= HIT_DEN_LIMIT
    }
}

impl Tri {
    /// Exact Moeller-Trumbore ray-triangle intersection: the nearest forward
    /// intersection distance as an exact rational, or `None` when the ray is
    /// parallel to the triangle's plane (zero determinant), the intersection
    /// point falls outside the triangle, or the triangle is behind the
    /// origin. Equal to the mathematical statement `hit_spec`.
    pub fn hit(&self, ray: &Ray) -> (res: Option<Hit>)
        requires
            self.wf(),
            ray.wf(),
        ensures
            match res {
                Some(h) => h.wf() && hit_spec(self@, ray@) == Some((h.num as int, h.den as int)),
                None => hit_spec(self@, ray@) is None,
            },
    {
        let ghost c = COORD_LIMIT as int;
        let e1 = W3 {
            x: self.v1.x as i128 - self.v0.x as i128,
            y: self.v1.y as i128 - self.v0.y as i128,
            z: self.v1.z as i128 - self.v0.z as i128,
        };
        let e2 = W3 {
            x: self.v2.x as i128 - self.v0.x as i128,
            y: self.v2.y as i128 - self.v0.y as i128,
            z: self.v2.z as i128 - self.v0.z as i128,
        };
        let d = W3 { x: ray.dir.x as i128, y: ray.dir.y as i128, z: ray.dir.z as i128 };
        let s = W3 {
            x: ray.origin.x as i128 - self.v0.x as i128,
            y: ray.origin.y as i128 - self.v0.y as i128,
            z: ray.origin.z as i128 - self.v0.z as i128,
        };
        proof {
            assert(e1@ == mt_e1(self@));
            assert(e2@ == mt_e2(self@));
            assert(d@ == ray@.dir);
            assert(s@ == crate::geom::mt_s(self@, ray@));
            assert(within(e1@, 2 * c));
            assert(within(e2@, 2 * c));
            assert(within(d@, c));
            assert(within(s@, 2 * c));
        }
        let p = w3_cross(&d, &e2, Ghost(c), Ghost(2 * c));
        let det = w3_dot(&e1, &p, Ghost(2 * c), Ghost(2 * (c * (2 * c))));
        proof {
            assert(p@ == crate::geom::mt_p(self@, ray@));
            assert(det as int == crate::geom::mt_det(self@, ray@));
        }
        if det == 0 {
            return None;
        }
        let q = w3_cross(&s, &e1, Ghost(2 * c), Ghost(2 * c));
        let un = w3_dot(&s, &p, Ghost(2 * c), Ghost(2 * (c * (2 * c))));
        let vn = w3_dot(&d, &q, Ghost(c), Ghost(2 * ((2 * c) * (2 * c))));
        let tn = w3_dot(&e2, &q, Ghost(2 * c), Ghost(2 * ((2 * c) * (2 * c))));
        proof {
            assert(q@ == crate::geom::mt_q(self@, ray@));
            assert(un as int == crate::geom::mt_un(self@, ray@));
            assert(vn as int == crate::geom::mt_vn(self@, ray@));
            assert(tn as int == crate::geom::mt_tn(self@, ray@));
        }
        let adet: i128;
        let kun: i128;
        let kvn: i128;
        let ktn: i128;
        if det > 0 {
            adet = det;
            kun = un;
            kvn = vn;
            ktn = tn;
        } else {
            adet = -det;
            kun = -un;
            kvn = -vn;
            ktn = -tn;
        }
        proof {
            let k = crate::geom::mt_sign(self@, ray@);
            assert(k == 1 ==> adet == 1 * crate::geom::mt_det(self@, ray@));
            assert(adet as int == crate::geom::hit_adet(self@, ray@));
            assert(kun as int == k * crate::geom::mt_un(self@, ray@));
            assert(kvn as int == k * crate::geom::mt_vn(self@, ray@));
            assert(ktn as int == k * crate::geom::mt_tn(self@, ray@));
        }
        if kun < 0 || kun > adet {
            return None;
        }
        if kvn < 0 || kun + kvn > adet {
            return None;
        }
        if ktn < 0 {
            return None;
        }
        Some(Hit { num: ktn, den: adet })
    }
}

// ---------------------------------------------------------------------------
// Ray-box slab test, exact. The three per-axis constraints are folded into
// one rational interval [lo, hi] for the ray parameter t (lo starts at 0, so
// only the forward half of the ray counts); the box is hit exactly when the
// interval is nonempty. An axis whose direction component is zero
// constrains the origin instead of t: this replaces the IEEE
// division-by-zero behavior a floating-point slab test leans on.
// ---------------------------------------------------------------------------

struct SlabState {
    feasible: bool,
    // Lower bound on t: the rational lon/lod, starting at 0/1.
    lon: i128,
    lod: i128,
    // Upper bound on t: hin/hid, once some axis has produced one.
    has_hi: bool,
    hin: i128,
    hid: i128,
}

spec fn st_wf(st: SlabState) -> bool {
    &&& 0 <= st.lon <= 2 * (COORD_LIMIT as int)
    &&& 1 <= st.lod <= COORD_LIMIT as int
    &&& -2 * (COORD_LIMIT as int) <= st.hin <= 2 * (COORD_LIMIT as int)
    &&& 1 <= st.hid <= COORD_LIMIT as int
}

// Does the parameter tn/td satisfy every constraint folded into the state?
spec fn st_mem(st: SlabState, tn: int, td: int) -> bool
    recommends
        td > 0,
{
    &&& st.feasible
    &&& crate::geom::rat_le(st.lon as int, st.lod as int, tn, td)
    &&& (st.has_hi ==> crate::geom::rat_le(tn, td, st.hin as int, st.hid as int))
}

// Fold one axis constraint into the state.
fn slab_axis(st: &mut SlabState, lo: i64, hi: i64, o: i64, d: i64)
    requires
        st_wf(*old(st)),
        -COORD_LIMIT <= lo <= COORD_LIMIT,
        -COORD_LIMIT <= hi <= COORD_LIMIT,
        -COORD_LIMIT <= o <= COORD_LIMIT,
        -COORD_LIMIT <= d <= COORD_LIMIT,
    ensures
        st_wf(*final(st)),
        forall|tn: int, td: int|
            td > 0 ==> (st_mem(*final(st), tn, td) <==> st_mem(*old(st), tn, td)
                && crate::geom::slab_axis_ok(lo as int, hi as int, o as int, d as int, tn, td)),
{
    if d == 0 {
        if !(lo <= o && o <= hi) {
            st.feasible = false;
        }
        proof {
            assert forall|tn: int, td: int| td > 0 implies (st_mem(*st, tn, td) <==> st_mem(
                *old(st),
                tn,
                td,
            ) && crate::geom::slab_axis_ok(lo as int, hi as int, o as int, d as int, tn, td)) by {
                crate::geom::lemma_slab_axis_zero(lo as int, hi as int, o as int, tn, td);
            }
        }
        return ;
    }
    let en: i128;
    let xn: i128;
    let den: i128;
    if d > 0 {
        en = lo as i128 - o as i128;
        xn = hi as i128 - o as i128;
        den = d as i128;
    } else {
        en = o as i128 - hi as i128;
        xn = o as i128 - lo as i128;
        den = -(d as i128);
    }
    let ghost pre = *st;
    proof {
        lemma_mul_range(en as int, st.lod as int, 2 * COORD_LIMIT as int, COORD_LIMIT as int);
        lemma_mul_range(st.lon as int, den as int, 2 * COORD_LIMIT as int, COORD_LIMIT as int);
        lemma_mul_range(xn as int, st.hid as int, 2 * COORD_LIMIT as int, COORD_LIMIT as int);
        lemma_mul_range(st.hin as int, den as int, 2 * COORD_LIMIT as int, COORD_LIMIT as int);
    }
    let raise = en * st.lod > st.lon * den;
    if raise {
        proof {
            assert(en > 0) by (nonlinear_arith)
                requires
                    en as int * st.lod as int > st.lon as int * den as int,
                    st.lod as int > 0,
                    st.lon as int >= 0,
                    den as int > 0,
            ;
        }
        st.lon = en;
        st.lod = den;
    }
    let lower = !st.has_hi || xn * st.hid < st.hin * den;
    if lower {
        st.hin = xn;
        st.hid = den;
        st.has_hi = true;
    }
    proof {
        assert forall|tn: int, td: int| td > 0 implies (st_mem(*st, tn, td) <==> st_mem(
            pre,
            tn,
            td,
        ) && crate::geom::slab_axis_ok(lo as int, hi as int, o as int, d as int, tn, td)) by {
            if d > 0 {
                crate::geom::lemma_slab_axis_pos(lo as int, hi as int, o as int, d as int, tn, td);
            } else {
                crate::geom::lemma_slab_axis_neg(lo as int, hi as int, o as int, d as int, tn, td);
            }
            let eni = en as int;
            let xni = xn as int;
            let deni = den as int;
            let loni = pre.lon as int;
            let lodi = pre.lod as int;
            let hini = pre.hin as int;
            let hidi = pre.hid as int;
            // lower bound: new lo is the larger of the old bound and the entry
            if raise {
                if crate::geom::rat_le(eni, deni, tn, td) {
                    crate::geom::lemma_rat_le_trans(loni, lodi, eni, deni, tn, td);
                }
                assert(crate::geom::rat_le(st.lon as int, st.lod as int, tn, td) <==> (
                    crate::geom::rat_le(loni, lodi, tn, td) && crate::geom::rat_le(
                    eni, deni, tn, td)));
            } else {
                if crate::geom::rat_le(loni, lodi, tn, td) {
                    crate::geom::lemma_rat_le_trans(eni, deni, loni, lodi, tn, td);
                }
                assert(crate::geom::rat_le(st.lon as int, st.lod as int, tn, td) <==> (
                    crate::geom::rat_le(loni, lodi, tn, td) && crate::geom::rat_le(
                    eni, deni, tn, td)));
            }
            // upper bound: new hi is the smaller of the old bound and the exit
            if lower {
                if pre.has_hi && crate::geom::rat_le(tn, td, xni, deni) {
                    crate::geom::lemma_rat_le_trans(tn, td, xni, deni, hini, hidi);
                }
                assert((st.has_hi ==> crate::geom::rat_le(tn, td, st.hin as int, st.hid as int))
                    <==> ((pre.has_hi ==> crate::geom::rat_le(tn, td, hini, hidi))
                        && crate::geom::rat_le(tn, td, xni, deni)));
            } else {
                if crate::geom::rat_le(tn, td, hini, hidi) {
                    crate::geom::lemma_rat_le_trans(tn, td, hini, hidi, xni, deni);
                }
                assert((st.has_hi ==> crate::geom::rat_le(tn, td, st.hin as int, st.hid as int))
                    <==> ((pre.has_hi ==> crate::geom::rat_le(tn, td, hini, hidi))
                        && crate::geom::rat_le(tn, td, xni, deni)));
            }
            assert(crate::geom::slab_axis_ok(lo as int, hi as int, o as int, d as int, tn, td)
                <==> (crate::geom::rat_le(eni, deni, tn, td) && crate::geom::rat_le(
                tn, td, xni, deni)));
        }
        assert(forall|tn: int, td: int|
            td > 0 ==> (st_mem(*st, tn, td) <==> st_mem(*old(st), tn, td)
                && crate::geom::slab_axis_ok(lo as int, hi as int, o as int, d as int, tn, td)));
    }
}

/// Does the forward half of the ray from `ray_o` along `ray_dir` meet the box
/// `[aabb_min, aabb_max]`? Exact slab test: true exactly when some rational
/// parameter `t >= 0` puts the ray's point inside the box (touching counts).
pub fn ray_aabb_intersects(aabb_min: Vec3, aabb_max: Vec3, ray_o: Vec3, ray_dir: Vec3) -> (r: bool)
    requires
        in_range(aabb_min@),
        in_range(aabb_max@),
        in_range(ray_o@),
        in_range(ray_dir@),
    ensures
        r == crate::geom::ray_hits_box(
            aabb_min@,
            aabb_max@,
            RayV { origin: ray_o@, dir: ray_dir@ },
        ),
{
    let rv = Ghost(RayV { origin: ray_o@, dir: ray_dir@ });
    let mut st = SlabState { feasible: true, lon: 0, lod: 1, has_hi: false, hin: 0, hid: 1 };
    let ghost st0 = st;
    slab_axis(&mut st, aabb_min.x, aabb_max.x, ray_o.x, ray_dir.x);
    let ghost st1 = st;
    slab_axis(&mut st, aabb_min.y, aabb_max.y, ray_o.y, ray_dir.y);
    let ghost st2 = st;
    slab_axis(&mut st, aabb_min.z, aabb_max.z, ray_o.z, ray_dir.z);
    proof {
        lemma_mul_range(st.lon as int, st.hid as int, 2 * COORD_LIMIT as int, COORD_LIMIT as int);
        lemma_mul_range(st.hin as int, st.lod as int, 2 * COORD_LIMIT as int, COORD_LIMIT as int);
    }
    let r = st.feasible && (!st.has_hi || st.lon * st.hid <= st.hin * st.lod);
    proof {
        let bmin = aabb_min@;
        let bmax = aabb_max@;
        if r {
            // the lower bound itself is a witness
            let tn = st.lon as int;
            let td = st.lod as int;
            assert(st_mem(st0, tn, td));
            assert(st_mem(st, tn, td));
            crate::geom::lemma_in_box_axes(bmin, bmax, rv@, tn, td);
            assert(crate::geom::in_box_scaled(
                bmin,
                bmax,
                crate::geom::ray_point_scaled(rv@, tn, td),
                td,
            ));
            assert(crate::geom::ray_hits_box(bmin, bmax, rv@));
        }
        if crate::geom::ray_hits_box(bmin, bmax, rv@) {
            let (tn, td) = choose|tn: int, td: int|
                td > 0 && tn >= 0 && crate::geom::in_box_scaled(
                    bmin,
                    bmax,
                    crate::geom::ray_point_scaled(rv@, tn, td),
                    td,
                );
            crate::geom::lemma_in_box_axes(bmin, bmax, rv@, tn, td);
            assert(st_mem(st0, tn, td));
            assert(st_mem(st, tn, td));
            if st.has_hi {
                crate::geom::lemma_rat_le_trans(
                    st.lon as int,
                    st.lod as int,
                    tn,
                    td,
                    st.hin as int,
                    st.hid as int,
                );
            }
            assert(r);
        }
    }
    r
}

// ---------------------------------------------------------------------------
// The octree: a recursive 8-way spatial partition holding triangles.
//
// A node is empty, a leaf with a list of triangles, or an inner node with a
// list of triangles kept at the node plus exactly eight children covering
// the eight octants split at the box's midpoint. A triangle is inserted into
// every octant it overlaps; one that overlaps no octant stays at the node it
// reached, so nothing is ever dropped and a query can never miss a stored
// triangle whose hit point lies inside the node's box.
// ---------------------------------------------------------------------------

/// The eight children of a split node, in octant order: index 0 is the
/// high-x/high-y/high-z octant, and each lower bit flips z, y, x in turn.
pub struct OctChildren {
    pub c0: Octree,
    pub c1: Octree,
    pub c2: Octree,
    pub c3: Octree,
    pub c4: Octree,
    pub c5: Octree,
    pub c6: Octree,
    pub c7: Octree,
}

/// The state of one octree node.
pub enum OctreeNode {
    Empty,
    Leaf { tri: Vec<Tri> },
    Node { tri: Vec<Tri>, children: Box<OctChildren> },
}

/// An octree over the box `[top_left_front, bottom_right_back]`.
pub struct Octree {
    top_left_front: Vec3,
    bottom_right_back: Vec3,
    middle: Vec3,
    max_nodes: usize,
    inserted: usize,
    node: OctreeNode,
}

/// Does the sequence hold a triangle with this view?
pub open spec fn seq_has_tri(s: Seq<Tri>, t: TriV) -> bool {
    exists|i: int| 0 <= i < s.len() && s[i]@ == t
}

/// Are all triangles of the sequence well formed?
pub open spec fn seq_all_wf(s: Seq<Tri>) -> bool {
    forall|i: int| 0 <= i < s.len() ==> (#[trigger] s[i]).wf()
}

/// Minimum corner of octant `j` of the box split at `mid`.
pub open spec fn octant_min(tlf: V3, mid: V3, brb: V3, j: int) -> V3 {
    V3 {
        x: if j < 4 { mid.x } else { tlf.x },
        y: if j % 4 < 2 { mid.y } else { tlf.y },
        z: if j % 2 == 0 { mid.z } else { tlf.z },
    }
}

/// Maximum corner of octant `j` of the box split at `mid`.
pub open spec fn octant_max(tlf: V3, mid: V3, brb: V3, j: int) -> V3 {
    V3 {
        x: if j < 4 { brb.x } else { mid.x },
        y: if j % 4 < 2 { brb.y } else { mid.y },
        z: if j % 2 == 0 { brb.z } else { mid.z },
    }
}

/// Child `j` of a split node.
pub open spec fn child_at(ch: OctChildren, j: int) -> Octree {
    if j == 0 {
        ch.c0
    } else if j == 1 {
        ch.c1
    } else if j == 2 {
        ch.c2
    } else if j == 3 {
        ch.c3
    } else if j == 4 {
        ch.c4
    } else if j == 5 {
        ch.c5
    } else if j == 6 {
        ch.c6
    } else {
        ch.c7
    }
}

impl Octree {
    /// The box's minimum corner.
    pub closed spec fn min_corner(self) -> V3 {
        self.top_left_front@
    }

    /// The box's maximum corner.
    pub closed spec fn max_corner(self) -> V3 {
        self.bottom_right_back@
    }

    /// The box's split point.
    pub closed spec fn mid_point(self) -> V3 {
        self.middle@
    }

    /// The node capacity: a leaf holding this many triangles splits on the
    /// next insertion.
    pub closed spec fn cap(self) -> int {
        self.max_nodes as int
    }

    /// The node's state (used as a structural recursion measure).
    pub closed spec fn node_of(self) -> OctreeNode {
        self.node
    }

    /// Does the subtree rooted here hold a triangle with this view?
    pub closed spec fn has_tri(self, t: TriV) -> bool
        decreases self,
    {
        match self.node {
            OctreeNode::Empty => false,
            OctreeNode::Leaf { tri } => seq_has_tri(tri@, t),
            OctreeNode::Node { tri, children } => seq_has_tri(tri@, t) || children.c0.has_tri(t)
                || children.c1.has_tri(t) || children.c2.has_tri(t) || children.c3.has_tri(t)
                || children.c4.has_tri(t) || children.c5.has_tri(t) || children.c6.has_tri(t)
                || children.c7.has_tri(t),
        }
    }

    /// What a query along the ray `(o, d)` collects: the node's own
    /// triangles, plus the collection of every child whose box the ray hits.
    pub closed spec fn query_has(self, o: V3, d: V3, t: TriV) -> bool
        decreases self,
    {
        match self.node {
            OctreeNode::Empty => false,
            OctreeNode::Leaf { tri } => seq_has_tri(tri@, t),
            OctreeNode::Node { tri, children } => seq_has_tri(tri@, t) || (
            crate::geom::ray_hits_box(
                children.c0.min_corner(),
                children.c0.max_corner(),
                RayV { origin: o, dir: d },
            ) && children.c0.query_has(o, d, t)) || (crate::geom::ray_hits_box(
                children.c1.min_corner(),
                children.c1.max_corner(),
                RayV { origin: o, dir: d },
            ) && children.c1.query_has(o, d, t)) || (crate::geom::ray_hits_box(
                children.c2.min_corner(),
                children.c2.max_corner(),
                RayV { origin: o, dir: d },
            ) && children.c2.query_has(o, d, t)) || (crate::geom::ray_hits_box(
                children.c3.min_corner(),
                children.c3.max_corner(),
                RayV { origin: o, dir: d },
            ) && children.c3.query_has(o, d, t)) || (crate::geom::ray_hits_box(
                children.c4.min_corner(),
                children.c4.max_corner(),
                RayV { origin: o, dir: d },
            ) && children.c4.query_has(o, d, t)) || (crate::geom::ray_hits_box(
                children.c5.min_corner(),
                children.c5.max_corner(),
                RayV { origin: o, dir: d },
            ) && children.c5.query_has(o, d, t)) || (crate::geom::ray_hits_box(
                children.c6.min_corner(),
                children.c6.max_corner(),
                RayV { origin: o, dir: d },
            ) && children.c6.query_has(o, d, t)) || (crate::geom::ray_hits_box(
                children.c7.min_corner(),
                children.c7.max_corner(),
                RayV { origin: o, dir: d },
            ) && children.c7.query_has(o, d, t)),
        }
    }

    /// Structural invariant: corners, midpoint and held triangles are well
    /// formed; a split node's children cover the eight octants exactly, and
    /// every triangle below the node sits in every child whose octant it
    /// overlaps (so a query pruned by the child boxes cannot miss it).
    pub closed spec fn inv(self) -> bool
        decreases self,
    {
        &&& in_range(self.top_left_front@)
        &&& in_range(self.bottom_right_back@)
        &&& in_range(self.middle@)
        &&& self.middle@.x == crate::geom::half_toward_zero(
            self.top_left_front@.x + self.bottom_right_back@.x,
        )
        &&& self.middle@.y == crate::geom::half_toward_zero(
            self.top_left_front@.y + self.bottom_right_back@.y,
        )
        &&& self.middle@.z == crate::geom::half_toward_zero(
            self.top_left_front@.z + self.bottom_right_back@.z,
        )
        &&& match self.node {
            OctreeNode::Empty => true,
            OctreeNode::Leaf { tri } => seq_all_wf(tri@),
            OctreeNode::Node { tri, children } => {
                &&& seq_all_wf(tri@)
                &&& children.c0.inv()
                &&& children.c1.inv()
                &&& children.c2.inv()
                &&& children.c3.inv()
                &&& children.c4.inv()
                &&& children.c5.inv()
                &&& children.c6.inv()
                &&& children.c7.inv()
                &&& forall|j: int|
                    0 <= j < 8 ==> (#[trigger] child_at(*children, j)).min_corner() == octant_min(
                        self.top_left_front@,
                        self.middle@,
                        self.bottom_right_back@,
                        j,
                    ) && child_at(*children, j).max_corner() == octant_max(
                        self.top_left_front@,
                        self.middle@,
                        self.bottom_right_back@,
                        j,
                    )
                &&& forall|t: TriV, j: int|
                    0 <= j < 8 && any_child_has(*children, t) && #[trigger] tri_box_sat(
                        octant_min(self.top_left_front@, self.middle@, self.bottom_right_back@, j),
                        octant_max(self.top_left_front@, self.middle@, self.bottom_right_back@, j),
                        t,
                    ) ==> child_at(*children, j).has_tri(t)
            },
        }
    }
}

/// Does any of the eight children hold the triangle?
pub open spec fn any_child_has(ch: OctChildren, t: TriV) -> bool {
    ch.c0.has_tri(t) || ch.c1.has_tri(t) || ch.c2.has_tri(t) || ch.c3.has_tri(t) || ch.c4.has_tri(
        t,
    ) || ch.c5.has_tri(t) || ch.c6.has_tri(t) || ch.c7.has_tri(t)
}

// Midpoint of two grid coordinates, rounded toward zero.
fn mid_i64(a: i64, b: i64) -> (r: i64)
    requires
        -COORD_LIMIT <= a <= COORD_LIMIT,
        -COORD_LIMIT <= b <= COORD_LIMIT,
    ensures
        r as int == crate::geom::half_toward_zero(a as int + b as int),
        -COORD_LIMIT <= r <= COORD_LIMIT,
{
    proof {
        crate::geom::lemma_half_range(a as int + b as int, COORD_LIMIT as int);
    }
    let s = a + b;
    if s >= 0 {
        ((s as u64) / 2) as i64
    } else {
        -((((-s) as u64) / 2) as i64)
    }
}

impl Octree {
    /// An empty octree over the box `[top_left_front, bottom_right_back]`,
    /// with the default leaf capacity of 2.
    pub fn new(top_left_front: Vec3, bottom_right_back: Vec3) -> (r: Octree)
        requires
            in_range(top_left_front@),
            in_range(bottom_right_back@),
        ensures
            r.inv(),
            r.min_corner() == top_left_front@,
            r.max_corner() == bottom_right_back@,
            r.cap() == 2,
            forall|t: TriV| !r.has_tri(t),
    {
        let middle = Vec3 {
            x: mid_i64(top_left_front.x, bottom_right_back.x),
            y: mid_i64(top_left_front.y, bottom_right_back.y),
            z: mid_i64(top_left_front.z, bottom_right_back.z),
        };
        Octree {
            top_left_front,
            bottom_right_back,
            middle,
            max_nodes: 2,
            inserted: 0,
            node: OctreeNode::Empty,
        }
    }

    /// The same octree with another leaf capacity.
    pub fn with_max_nodes(self, max_nodes: usize) -> (r: Octree)
        requires
            self.inv(),
        ensures
            r.inv(),
            r.min_corner() == self.min_corner(),
            r.max_corner() == self.max_corner(),
            r.cap() == max_nodes as int,
            forall|t: TriV| #[trigger] r.has_tri(t) == self.has_tri(t),
            forall|o: V3, d: V3, t: TriV| #[trigger] r.query_has(o, d, t) == self.query_has(
                o,
                d,
                t,
            ),
    {
        let r = Octree {
            top_left_front: self.top_left_front,
            bottom_right_back: self.bottom_right_back,
            middle: Vec3 {
                x: mid_i64(self.top_left_front.x, self.bottom_right_back.x),
                y: mid_i64(self.top_left_front.y, self.bottom_right_back.y),
                z: mid_i64(self.top_left_front.z, self.bottom_right_back.z),
            },
            inserted: self.inserted,
            max_nodes,
            node: self.node,
        };
        proof {
            assert(r.middle@ == self.middle@);
            assert(r.middle == self.middle);
            assert forall|t: TriV| #[trigger] r.has_tri(t) == self.has_tri(t) by {
                lemma_same_node_has_tri(r, self, t);
            }
            assert forall|o: V3, d: V3, t: TriV| #[trigger] r.query_has(o, d, t)
                == self.query_has(o, d, t) by {
                lemma_same_node_query_has(r, self, o, d, t);
            }
            lemma_same_node_inv(r, self);
        }
        r
    }

    // Does the ray hit this node's box?
    fn intersects(&self, ray_o: Vec3, ray_dir: Vec3) -> (r: bool)
        requires
            self.inv(),
            in_range(ray_o@),
            in_range(ray_dir@),
        ensures
            r == crate::geom::ray_hits_box(
                self.min_corner(),
                self.max_corner(),
                RayV { origin: ray_o@, dir: ray_dir@ },
            ),
    {
        ray_aabb_intersects(self.top_left_front, self.bottom_right_back, ray_o, ray_dir)
    }
}

// Two octrees with the same node have the same contents.
proof fn lemma_same_node_has_tri(a: Octree, b: Octree, t: TriV)
    requires
        a.node == b.node,
    ensures
        a.has_tri(t) == b.has_tri(t),
    decreases a,
{
}

proof fn lemma_same_node_query_has(a: Octree, b: Octree, o: V3, d: V3, t: TriV)
    requires
        a.node == b.node,
    ensures
        a.query_has(o, d, t) == b.query_has(o, d, t),
    decreases a,
{
}

// Two octrees with the same box data and node are both invariant or neither.
proof fn lemma_same_node_inv(a: Octree, b: Octree)
    requires
        a.node == b.node,
        a.top_left_front == b.top_left_front,
        a.bottom_right_back == b.bottom_right_back,
        a.middle == b.middle,
        b.inv(),
    ensures
        a.inv(),
    decreases a,
{
    assert forall|t: TriV| #[trigger] a.has_tri(t) == b.has_tri(t) by {
        lemma_same_node_has_tri(a, b, t);
    }
}

// Pushing onto a sequence of triangles adds exactly that triangle's view.
proof fn lemma_seq_has_push(s: Seq<Tri>, x: Tri, t: TriV)
    ensures
        seq_has_tri(s.push(x), t) <==> (seq_has_tri(s, t) || x@ == t),
{
    if seq_has_tri(s, t) {
        let i = choose|i: int| 0 <= i < s.len() && s[i]@ == t;
        assert(s.push(x)[i]@ == t);
    }
    if x@ == t {
        assert(s.push(x)[s.len() as int]@ == t);
    }
    if seq_has_tri(s.push(x), t) {
        let i = choose|i: int| 0 <= i < s.push(x).len() && s.push(x)[i]@ == t;
        if i < s.len() {
            assert(s[i]@ == t);
        } else {
            assert(x@ == t);
        }
    }
}


// Facts that hold of each child box of an invariant split node `pre`, for
// the triangle x with per-octant overlap bits b0..b7.
spec fn octant_bits_ok(pre: Octree, x: Tri, b0: bool, b1: bool, b2: bool, b3: bool,
    b4: bool, b5: bool, b6: bool, b7: bool) -> bool {
    &&& (b0 <==> tri_box_sat(octant_min(pre.min_corner(), pre.mid_point(), pre.max_corner(), 0),
            octant_max(pre.min_corner(), pre.mid_point(), pre.max_corner(), 0), x@))
    &&& (b1 <==> tri_box_sat(octant_min(pre.min_corner(), pre.mid_point(), pre.max_corner(), 1),
            octant_max(pre.min_corner(), pre.mid_point(), pre.max_corner(), 1), x@))
    &&& (b2 <==> tri_box_sat(octant_min(pre.min_corner(), pre.mid_point(), pre.max_corner(), 2),
            octant_max(pre.min_corner(), pre.mid_point(), pre.max_corner(), 2), x@))
    &&& (b3 <==> tri_box_sat(octant_min(pre.min_corner(), pre.mid_point(), pre.max_corner(), 3),
            octant_max(pre.min_corner(), pre.mid_point(), pre.max_corner(), 3), x@))
    &&& (b4 <==> tri_box_sat(octant_min(pre.min_corner(), pre.mid_point(), pre.max_corner(), 4),
            octant_max(pre.min_corner(), pre.mid_point(), pre.max_corner(), 4), x@))
    &&& (b5 <==> tri_box_sat(octant_min(pre.min_corner(), pre.mid_point(), pre.max_corner(), 5),
            octant_max(pre.min_corner(), pre.mid_point(), pre.max_corner(), 5), x@))
    &&& (b6 <==> tri_box_sat(octant_min(pre.min_corner(), pre.mid_point(), pre.max_corner(), 6),
            octant_max(pre.min_corner(), pre.mid_point(), pre.max_corner(), 6), x@))
    &&& (b7 <==> tri_box_sat(octant_min(pre.min_corner(), pre.mid_point(), pre.max_corner(), 7),
            octant_max(pre.min_corner(), pre.mid_point(), pre.max_corner(), 7), x@))
}

// Replacing an invariant node's state with a one-triangle leaf keeps the
// invariant and makes that triangle the node's only content.
proof fn lemma_set_leaf_single(pre: Octree, post: Octree, x: Tri)
    requires
        pre.inv(),
        x.wf(),
        post.top_left_front == pre.top_left_front,
        post.bottom_right_back == pre.bottom_right_back,
        post.middle == pre.middle,
        post.node is Leaf,
        post.node->Leaf_tri@.len() == 1,
        post.node->Leaf_tri@[0] == x,
    ensures
        post.inv(),
        post.min_corner() == pre.min_corner(),
        post.max_corner() == pre.max_corner(),
        post.mid_point() == pre.mid_point(),
        forall|t: TriV| #[trigger] post.has_tri(t) <==> t == x@,
    {
    assert forall|i: int| 0 <= i < post.node->Leaf_tri@.len() implies (#[trigger] post
        .node->Leaf_tri@[i]).wf() by {
        assert(post.node->Leaf_tri@[i] == x);
    }
    assert forall|t: TriV| #[trigger] post.has_tri(t) <==> t == x@ by {
        if post.has_tri(t) {
            let i = choose|i: int|
                0 <= i < post.node->Leaf_tri@.len() && post.node->Leaf_tri@[i]@ == t;
            assert(post.node->Leaf_tri@[i] == x);
        }
        if t == x@ {
            assert(post.node->Leaf_tri@[0]@ == t);
        }
    }
}

// Assembles the invariant and the contents of a node that just split: the
// old leaf triangles stay at the node, and the new triangle sits in exactly
// the children whose octants it overlaps (or at the node if it overlaps
// none).
#[verifier::rlimit(100)]
#[verifier::spinoff_prover]
proof fn lemma_split_post(pre: Octree, post: Octree, ch: OctChildren, oldheld: Seq<Tri>, x: Tri,
    b0: bool, b1: bool, b2: bool, b3: bool, b4: bool, b5: bool, b6: bool, b7: bool)
    requires
        pre.inv(),
        x.wf(),
        pre.node is Leaf,
        pre.node->Leaf_tri@ == oldheld,
        post.top_left_front == pre.top_left_front,
        post.bottom_right_back == pre.bottom_right_back,
        post.middle == pre.middle,
        post.max_nodes == pre.max_nodes,
        post.node is Node,
        *post.node->Node_children == ch,
        post.node->Node_tri@ == if b0 || b1 || b2 || b3 || b4 || b5 || b6 || b7 {
            oldheld
        } else {
            oldheld.push(x)
        },
        octant_bits_ok(pre, x, b0, b1, b2, b3, b4, b5, b6, b7),
        ch.c0.inv() && ch.c1.inv() && ch.c2.inv() && ch.c3.inv() && ch.c4.inv() && ch.c5.inv()
            && ch.c6.inv() && ch.c7.inv(),
        forall|j: int|
            0 <= j < 8 ==> (#[trigger] child_at(ch, j)).min_corner() == octant_min(
                pre.min_corner(), pre.mid_point(), pre.max_corner(), j)
                && child_at(ch, j).max_corner() == octant_max(
                pre.min_corner(), pre.mid_point(), pre.max_corner(), j),
        forall|t: TriV| #[trigger] ch.c0.has_tri(t) <==> (b0 && t == x@),
        forall|t: TriV| #[trigger] ch.c1.has_tri(t) <==> (b1 && t == x@),
        forall|t: TriV| #[trigger] ch.c2.has_tri(t) <==> (b2 && t == x@),
        forall|t: TriV| #[trigger] ch.c3.has_tri(t) <==> (b3 && t == x@),
        forall|t: TriV| #[trigger] ch.c4.has_tri(t) <==> (b4 && t == x@),
        forall|t: TriV| #[trigger] ch.c5.has_tri(t) <==> (b5 && t == x@),
        forall|t: TriV| #[trigger] ch.c6.has_tri(t) <==> (b6 && t == x@),
        forall|t: TriV| #[trigger] ch.c7.has_tri(t) <==> (b7 && t == x@),
    ensures
        post.inv(),
        forall|t: TriV| #[trigger] post.has_tri(t) <==> pre.has_tri(t) || t == x@,
{
    let anybit = b0 || b1 || b2 || b3 || b4 || b5 || b6 || b7;
    assert forall|i: int| 0 <= i < post.node->Node_tri@.len() implies (#[trigger] post
        .node->Node_tri@[i]).wf() by {
        if i < oldheld.len() {
            assert(post.node->Node_tri@[i] == oldheld[i]);
            assert(oldheld[i].wf());
        } else {
            assert(post.node->Node_tri@[i] == x);
        }
    }
    let tlfv = post.top_left_front@;
    let midv = post.middle@;
    let brbv = post.bottom_right_back@;
    assert forall|t: TriV, j: int|
        0 <= j < 8 && any_child_has(ch, t) && #[trigger] tri_box_sat(
            octant_min(tlfv, midv, brbv, j),
            octant_max(tlfv, midv, brbv, j),
            t,
        ) implies child_at(ch, j).has_tri(t) by {}
    assert(post.inv());
    assert forall|t: TriV| #[trigger] post.has_tri(t) <==> pre.has_tri(t) || t == x@ by {
        assert(post.has_tri(t) == (seq_has_tri(post.node->Node_tri@, t) || any_child_has(ch, t)));
        assert(pre.has_tri(t) == seq_has_tri(oldheld, t));
        if !anybit {
            lemma_seq_has_push(oldheld, x, t);
            assert(!any_child_has(ch, t));
        }
    }
}

// Assembles the invariant and the contents of an inner node after the new
// triangle was passed to every child whose octant it overlaps.
#[verifier::rlimit(100)]
#[verifier::spinoff_prover]
proof fn lemma_dispatch_post(pre: Octree, post: Octree, oldch: OctChildren, newch: OctChildren,
    x: Tri, b0: bool, b1: bool, b2: bool, b3: bool, b4: bool, b5: bool, b6: bool, b7: bool)
    requires
        pre.inv(),
        x.wf(),
        pre.node is Node,
        *pre.node->Node_children == oldch,
        post.top_left_front == pre.top_left_front,
        post.bottom_right_back == pre.bottom_right_back,
        post.middle == pre.middle,
        post.max_nodes == pre.max_nodes,
        post.node is Node,
        *post.node->Node_children == newch,
        post.node->Node_tri@ == if b0 || b1 || b2 || b3 || b4 || b5 || b6 || b7 {
            pre.node->Node_tri@
        } else {
            pre.node->Node_tri@.push(x)
        },
        octant_bits_ok(pre, x, b0, b1, b2, b3, b4, b5, b6, b7),
        b0 ==> (forall|t: TriV| #[trigger] newch.c0.has_tri(t) <==> oldch.c0.has_tri(t) || t
            == x@) && newch.c0.inv() && newch.c0.min_corner() == oldch.c0.min_corner()
            && newch.c0.max_corner() == oldch.c0.max_corner(),
        !b0 ==> newch.c0 == oldch.c0,
        b1 ==> (forall|t: TriV| #[trigger] newch.c1.has_tri(t) <==> oldch.c1.has_tri(t) || t
            == x@) && newch.c1.inv() && newch.c1.min_corner() == oldch.c1.min_corner()
            && newch.c1.max_corner() == oldch.c1.max_corner(),
        !b1 ==> newch.c1 == oldch.c1,
        b2 ==> (forall|t: TriV| #[trigger] newch.c2.has_tri(t) <==> oldch.c2.has_tri(t) || t
            == x@) && newch.c2.inv() && newch.c2.min_corner() == oldch.c2.min_corner()
            && newch.c2.max_corner() == oldch.c2.max_corner(),
        !b2 ==> newch.c2 == oldch.c2,
        b3 ==> (forall|t: TriV| #[trigger] newch.c3.has_tri(t) <==> oldch.c3.has_tri(t) || t
            == x@) && newch.c3.inv() && newch.c3.min_corner() == oldch.c3.min_corner()
            && newch.c3.max_corner() == oldch.c3.max_corner(),
        !b3 ==> newch.c3 == oldch.c3,
        b4 ==> (forall|t: TriV| #[trigger] newch.c4.has_tri(t) <==> oldch.c4.has_tri(t) || t
            == x@) && newch.c4.inv() && newch.c4.min_corner() == oldch.c4.min_corner()
            && newch.c4.max_corner() == oldch.c4.max_corner(),
        !b4 ==> newch.c4 == oldch.c4,
        b5 ==> (forall|t: TriV| #[trigger] newch.c5.has_tri(t) <==> oldch.c5.has_tri(t) || t
            == x@) && newch.c5.inv() && newch.c5.min_corner() == oldch.c5.min_corner()
            && newch.c5.max_corner() == oldch.c5.max_corner(),
        !b5 ==> newch.c5 == oldch.c5,
        b6 ==> (forall|t: TriV| #[trigger] newch.c6.has_tri(t) <==> oldch.c6.has_tri(t) || t
            == x@) && newch.c6.inv() && newch.c6.min_corner() == oldch.c6.min_corner()
            && newch.c6.max_corner() == oldch.c6.max_corner(),
        !b6 ==> newch.c6 == oldch.c6,
        b7 ==> (forall|t: TriV| #[trigger] newch.c7.has_tri(t) <==> oldch.c7.has_tri(t) || t
            == x@) && newch.c7.inv() && newch.c7.min_corner() == oldch.c7.min_corner()
            && newch.c7.max_corner() == oldch.c7.max_corner(),
        !b7 ==> newch.c7 == oldch.c7,
        seq_all_wf(post.node->Node_tri@),
    ensures
        post.inv(),
        forall|t: TriV| #[trigger] post.has_tri(t) <==> pre.has_tri(t) || t == x@,
{
    let anybit = b0 || b1 || b2 || b3 || b4 || b5 || b6 || b7;
    let tlfv = post.top_left_front@;
    let midv = post.middle@;
    let brbv = post.bottom_right_back@;
    assert forall|t: TriV| #[trigger] post.has_tri(t) <==> pre.has_tri(t) || t == x@ by {
        assert(post.has_tri(t) == (seq_has_tri(post.node->Node_tri@, t) || any_child_has(
            newch,
            t,
        )));
        assert(pre.has_tri(t) == (seq_has_tri(pre.node->Node_tri@, t) || any_child_has(
            oldch,
            t,
        )));
        if !anybit {
            lemma_seq_has_push(pre.node->Node_tri@, x, t);
        }
    }
    assert forall|t: TriV, j: int|
        0 <= j < 8 && any_child_has(newch, t) && #[trigger] tri_box_sat(
            octant_min(tlfv, midv, brbv, j),
            octant_max(tlfv, midv, brbv, j),
            t,
        ) implies child_at(newch, j).has_tri(t) by {
        if t == x@ && !anybit {
            assert(any_child_has(newch, t) == any_child_has(oldch, t));
        }
        if !(t == x@) {
            assert(any_child_has(oldch, t));
            assert(child_at(oldch, j).has_tri(t));
        }
    }
    assert forall|j: int|
        0 <= j < 8 implies (#[trigger] child_at(newch, j)).min_corner() == octant_min(
        tlfv,
        midv,
        brbv,
        j,
    ) && child_at(newch, j).max_corner() == octant_max(tlfv, midv, brbv, j) by {
        assert(child_at(oldch, j).min_corner() == octant_min(tlfv, midv, brbv, j));
        assert(child_at(oldch, j).max_corner() == octant_max(tlfv, midv, brbv, j));
    }
    assert(post.inv());
}

// Bit j of a sum of distinct powers of two is the corresponding summand.
#[verifier::rlimit(100)]
#[verifier::spinoff_prover]
proof fn lemma_mask_bits(
    c0: int, c1: int, c2: int, c3: int, c4: int, c5: int, c6: int, c7: int, m: int,
)
    requires
        0 <= c0 < 2 && 0 <= c1 < 2 && 0 <= c2 < 2 && 0 <= c3 < 2,
        0 <= c4 < 2 && 0 <= c5 < 2 && 0 <= c6 < 2 && 0 <= c7 < 2,
        m == c0 + 2 * c1 + 4 * c2 + 8 * c3 + 16 * c4 + 32 * c5 + 64 * c6 + 128 * c7,
    ensures
        m / 1 % 2 == c0,
        m / 2 % 2 == c1,
        m / 4 % 2 == c2,
        m / 8 % 2 == c3,
        m / 16 % 2 == c4,
        m / 32 % 2 == c5,
        m / 64 % 2 == c6,
        m / 128 % 2 == c7,
{
    assert(m / 1 == m);
    assert(m / 2 == c1 + 2 * c2 + 4 * c3 + 8 * c4 + 16 * c5 + 32 * c6 + 64 * c7) by {
        assert(0 <= c0 < 2);
    }
    assert(m / 4 == c2 + 2 * c3 + 4 * c4 + 8 * c5 + 16 * c6 + 32 * c7) by {
        assert(0 <= c0 + 2 * c1 < 4);
    }
    assert(m / 8 == c3 + 2 * c4 + 4 * c5 + 8 * c6 + 16 * c7) by {
        assert(0 <= c0 + 2 * c1 + 4 * c2 < 8);
    }
    assert(m / 16 == c4 + 2 * c5 + 4 * c6 + 8 * c7) by {
        assert(0 <= c0 + 2 * c1 + 4 * c2 + 8 * c3 < 16);
    }
    assert(m / 32 == c5 + 2 * c6 + 4 * c7) by {
        assert(0 <= c0 + 2 * c1 + 4 * c2 + 8 * c3 + 16 * c4 < 32);
    }
    assert(m / 64 == c6 + 2 * c7) by {
        assert(0 <= c0 + 2 * c1 + 4 * c2 + 8 * c3 + 16 * c4 + 32 * c5 < 64);
    }
    assert(m / 128 == c7) by {
        assert(0 <= c0 + 2 * c1 + 4 * c2 + 8 * c3 + 16 * c4 + 32 * c5 + 64 * c6 < 128);
    }
}

impl Octree {
    // Which octants of this node's box does the triangle overlap? The
    // boolean for octant j is the exact overlap test against octant j's box,
    // returned packed as bit j of the mask.
    #[verifier::rlimit(100)]
    #[verifier::spinoff_prover]
    fn should_insert_tri(&self, tri: &Tri) -> (mask: u8)
        requires
            self.inv(),
            tri.wf(),
        ensures
            octant_bits_ok(
                *self,
                *tri,
                (mask as int) / 1 % 2 == 1,
                (mask as int) / 2 % 2 == 1,
                (mask as int) / 4 % 2 == 1,
                (mask as int) / 8 % 2 == 1,
                (mask as int) / 16 % 2 == 1,
                (mask as int) / 32 % 2 == 1,
                (mask as int) / 64 % 2 == 1,
                (mask as int) / 128 % 2 == 1,
            ),
    {
        let tlf = self.top_left_front;
        let mid = self.middle;
        let brb = self.bottom_right_back;
        let b0 = triangle_aabb_intersects(mid, brb, tri);
        let b1 = triangle_aabb_intersects(
            Vec3 { x: mid.x, y: mid.y, z: tlf.z },
            Vec3 { x: brb.x, y: brb.y, z: mid.z },
            tri,
        );
        let b2 = triangle_aabb_intersects(
            Vec3 { x: mid.x, y: tlf.y, z: mid.z },
            Vec3 { x: brb.x, y: mid.y, z: brb.z },
            tri,
        );
        let b3 = triangle_aabb_intersects(
            Vec3 { x: mid.x, y: tlf.y, z: tlf.z },
            Vec3 { x: brb.x, y: mid.y, z: mid.z },
            tri,
        );
        let b4 = triangle_aabb_intersects(
            Vec3 { x: tlf.x, y: mid.y, z: mid.z },
            Vec3 { x: mid.x, y: brb.y, z: brb.z },
            tri,
        );
        let b5 = triangle_aabb_intersects(
            Vec3 { x: tlf.x, y: mid.y, z: tlf.z },
            Vec3 { x: mid.x, y: brb.y, z: mid.z },
            tri,
        );
        let b6 = triangle_aabb_intersects(
            Vec3 { x: tlf.x, y: tlf.y, z: mid.z },
            Vec3 { x: mid.x, y: mid.y, z: brb.z },
            tri,
        );
        let b7 = triangle_aabb_intersects(tlf, mid, tri);
        let mask = (if b0 { 1u8 } else { 0u8 }) + (if b1 { 2u8 } else { 0u8 }) + (if b2 {
            4u8
        } else {
            0u8
        }) + (if b3 { 8u8 } else { 0u8 }) + (if b4 { 16u8 } else { 0u8 }) + (if b5 {
            32u8
        } else {
            0u8
        }) + (if b6 { 64u8 } else { 0u8 }) + (if b7 { 128u8 } else { 0u8 });
        proof {
            lemma_mask_bits(
                if b0 { 1int } else { 0int },
                if b1 { 1int } else { 0int },
                if b2 { 1int } else { 0int },
                if b3 { 1int } else { 0int },
                if b4 { 1int } else { 0int },
                if b5 { 1int } else { 0int },
                if b6 { 1int } else { 0int },
                if b7 { 1int } else { 0int },
                mask as int,
            );
        }
        mask
    }

    /// Inserts a triangle. An empty node becomes a leaf; a leaf below its
    /// capacity appends; a full leaf splits into eight octant children and
    /// keeps its resident triangles at the node; an inner node passes the
    /// triangle to every child whose octant it overlaps. A triangle that
    /// overlaps no octant is kept at the node instead of being dropped, so
    /// the stored set always grows by exactly the inserted triangle.
    #[verifier::rlimit(100)]
    #[verifier::spinoff_prover]
    pub fn insert(&mut self, tri: Tri)
        requires
            old(self).inv(),
            tri.wf(),
        ensures
            final(self).inv(),
            final(self).min_corner() == old(self).min_corner(),
            final(self).max_corner() == old(self).max_corner(),
            final(self).mid_point() == old(self).mid_point(),
            final(self).cap() == old(self).cap(),
            forall|t: TriV| #[trigger] final(self).has_tri(t) <==> old(self).has_tri(t) || t
                == tri@,
        decreases old(self).node_of(), 1int,
    {
        let mask = self.should_insert_tri(&tri);
        if self.inserted < usize::MAX {
            self.inserted = self.inserted + 1;
        }
        let kind: u8 = match &self.node {
            OctreeNode::Empty => 0,
            OctreeNode::Leaf { tri: held } => if held.len() < self.max_nodes {
                1
            } else {
                2
            },
            OctreeNode::Node { .. } => 3,
        };
        if kind == 0 {
            self.node = OctreeNode::Leaf { tri: vec![tri] };
            proof {
                assert forall|t: TriV| #[trigger] self.has_tri(t) <==> old(self).has_tri(t) || t
                    == tri@ by {
                    assert(self.node->Leaf_tri@[0] == tri);
                    if self.has_tri(t) {
                        let i = choose|i: int|
                            0 <= i < self.node->Leaf_tri@.len() && self.node->Leaf_tri@[i]@ == t;
                        assert(i == 0);
                    }
                    if t == tri@ {
                        assert(self.node->Leaf_tri@[0]@ == t);
                    }
                }
            }
        } else if kind == 1 {
            match &mut self.node {
                OctreeNode::Leaf { tri: held } => {
                    proof {
                        lemma_seq_has_push(held@, tri, tri@);
                    }
                    let ghost oldheld = held@;
                    held.push(tri);
                    proof {
                        assert forall|t: TriV| #[trigger] self.has_tri(t) <==> old(
                            self,
                        ).has_tri(t) || t == tri@ by {
                            lemma_seq_has_push(oldheld, tri, t);
                        }
                        assert forall|i: int|
                            0 <= i < self.node->Leaf_tri@.len() implies (#[trigger] self
                            .node->Leaf_tri@[i]).wf() by {}
                    }
                },
                _ => {
                    proof {
                        assert(false);
                    }
                },
            }
        } else {
            let b0 = (mask / 1) % 2 == 1;
            let b1 = (mask / 2) % 2 == 1;
            let b2 = (mask / 4) % 2 == 1;
            let b3 = (mask / 8) % 2 == 1;
            let b4 = (mask / 16) % 2 == 1;
            let b5 = (mask / 32) % 2 == 1;
            let b6 = (mask / 64) % 2 == 1;
            let b7 = (mask / 128) % 2 == 1;
            if kind == 2 {
                self.split_and_place(tri, b0, b1, b2, b3, b4, b5, b6, b7);
            } else {
                self.dispatch_to_children(tri, b0, b1, b2, b3, b4, b5, b6, b7);
            }
        }
    }

    // A full leaf splits: eight fresh octant children are created, the
    // resident triangles stay at this node, and the incoming triangle goes
    // into every octant it overlaps (or stays here when it overlaps none).
    #[verifier::rlimit(100)]
    #[verifier::spinoff_prover]
    fn split_and_place(&mut self, tri: Tri, b0: bool, b1: bool, b2: bool, b3: bool, b4: bool, b5: bool, b6: bool, b7: bool)
        requires
            old(self).inv(),
            tri.wf(),
            old(self).node is Leaf,
            octant_bits_ok(*old(self), tri, b0, b1, b2, b3, b4, b5, b6, b7),
        ensures
            final(self).inv(),
            final(self).min_corner() == old(self).min_corner(),
            final(self).max_corner() == old(self).max_corner(),
            final(self).mid_point() == old(self).mid_point(),
            final(self).cap() == old(self).cap(),
            forall|t: TriV| #[trigger] final(self).has_tri(t) <==> old(self).has_tri(t) || t
                == tri@,
    {
        let m = self.max_nodes;
        let cap0 = if m <= usize::MAX - m / 2 {
            m + m / 2
        } else {
            usize::MAX
        };
        let cap3 = if m <= usize::MAX / 3 {
            m * 3
        } else {
            usize::MAX
        };
        let tlf = self.top_left_front;
        let mid = self.middle;
        let brb = self.bottom_right_back;
        let mut ch = OctChildren {
            c0: Octree::new(mid, brb).with_max_nodes(cap0),
            c1: Octree::new(
                Vec3 { x: mid.x, y: mid.y, z: tlf.z },
                Vec3 { x: brb.x, y: brb.y, z: mid.z },
            ).with_max_nodes(cap3),
            c2: Octree::new(
                Vec3 { x: mid.x, y: tlf.y, z: mid.z },
                Vec3 { x: brb.x, y: mid.y, z: brb.z },
            ).with_max_nodes(cap3),
            c3: Octree::new(
                Vec3 { x: mid.x, y: tlf.y, z: tlf.z },
                Vec3 { x: brb.x, y: mid.y, z: mid.z },
            ).with_max_nodes(cap3),
            c4: Octree::new(
                Vec3 { x: tlf.x, y: mid.y, z: mid.z },
                Vec3 { x: mid.x, y: brb.y, z: brb.z },
            ).with_max_nodes(cap3),
            c5: Octree::new(
                Vec3 { x: tlf.x, y: mid.y, z: tlf.z },
                Vec3 { x: mid.x, y: brb.y, z: mid.z },
            ).with_max_nodes(cap3),
            c6: Octree::new(
                Vec3 { x: tlf.x, y: tlf.y, z: mid.z },
                Vec3 { x: mid.x, y: mid.y, z: brb.z },
            ).with_max_nodes(cap3),
            c7: Octree::new(tlf, mid).with_max_nodes(cap3),
        };
        let ghost g0 = ch.c0;
        let ghost g1 = ch.c1;
        let ghost g2 = ch.c2;
        let ghost g3 = ch.c3;
        let ghost g4 = ch.c4;
        let ghost g5 = ch.c5;
        let ghost g6 = ch.c6;
        let ghost g7 = ch.c7;
        if b0 {
            ch.c0.node = OctreeNode::Leaf { tri: vec![tri] };
            ch.c0.inserted = 1;
            proof {
                lemma_set_leaf_single(g0, ch.c0, tri);
            }
        }
        if b1 {
            ch.c1.node = OctreeNode::Leaf { tri: vec![tri] };
            ch.c1.inserted = 1;
            proof {
                lemma_set_leaf_single(g1, ch.c1, tri);
            }
        }
        if b2 {
            ch.c2.node = OctreeNode::Leaf { tri: vec![tri] };
            ch.c2.inserted = 1;
            proof {
                lemma_set_leaf_single(g2, ch.c2, tri);
            }
        }
        if b3 {
            ch.c3.node = OctreeNode::Leaf { tri: vec![tri] };
            ch.c3.inserted = 1;
            proof {
                lemma_set_leaf_single(g3, ch.c3, tri);
            }
        }
        if b4 {
            ch.c4.node = OctreeNode::Leaf { tri: vec![tri] };
            ch.c4.inserted = 1;
            proof {
                lemma_set_leaf_single(g4, ch.c4, tri);
            }
        }
        if b5 {
            ch.c5.node = OctreeNode::Leaf { tri: vec![tri] };
            ch.c5.inserted = 1;
            proof {
                lemma_set_leaf_single(g5, ch.c5, tri);
            }
        }
        if b6 {
            ch.c6.node = OctreeNode::Leaf { tri: vec![tri] };
            ch.c6.inserted = 1;
            proof {
                lemma_set_leaf_single(g6, ch.c6, tri);
            }
        }
        if b7 {
            ch.c7.node = OctreeNode::Leaf { tri: vec![tri] };
            ch.c7.inserted = 1;
            proof {
                lemma_set_leaf_single(g7, ch.c7, tri);
            }
        }
        let mut tmp = OctreeNode::Empty;
        core::mem::swap(&mut tmp, &mut self.node);
        let mut heldv = match tmp {
            OctreeNode::Leaf { tri: h } => h,
            _ => {
                proof {
                    assert(false);
                }
                Vec::new()
            },
        };
        let ghost oldheld = heldv@;
        if !(b0 || b1 || b2 || b3 || b4 || b5 || b6 || b7) {
            heldv.push(tri);
        }
        proof {
            assert forall|i: int| 0 <= i < heldv@.len() implies (#[trigger] heldv@[i]).wf() by {
                if i < oldheld.len() {
                    assert(heldv@[i] == oldheld[i]);
                    assert(oldheld[i].wf());
                } else {
                    assert(heldv@[i] == tri);
                }
            }
        }
        self.node = OctreeNode::Node { tri: heldv, children: Box::new(ch) };
        proof {
            let chv = *self.node->Node_children;
            assert forall|t: TriV| #[trigger] chv.c0.has_tri(t) <==> (b0 && t == tri@) by {}
            assert forall|t: TriV| #[trigger] chv.c1.has_tri(t) <==> (b1 && t == tri@) by {}
            assert forall|t: TriV| #[trigger] chv.c2.has_tri(t) <==> (b2 && t == tri@) by {}
            assert forall|t: TriV| #[trigger] chv.c3.has_tri(t) <==> (b3 && t == tri@) by {}
            assert forall|t: TriV| #[trigger] chv.c4.has_tri(t) <==> (b4 && t == tri@) by {}
            assert forall|t: TriV| #[trigger] chv.c5.has_tri(t) <==> (b5 && t == tri@) by {}
            assert forall|t: TriV| #[trigger] chv.c6.has_tri(t) <==> (b6 && t == tri@) by {}
            assert forall|t: TriV| #[trigger] chv.c7.has_tri(t) <==> (b7 && t == tri@) by {}
            assert forall|j: int|
                0 <= j < 8 implies (#[trigger] child_at(chv, j)).min_corner() == octant_min(
                old(self).min_corner(),
                old(self).mid_point(),
                old(self).max_corner(),
                j,
            ) && child_at(chv, j).max_corner() == octant_max(
                old(self).min_corner(),
                old(self).mid_point(),
                old(self).max_corner(),
                j,
            ) by {}
            lemma_split_post(
                *old(self),
                *self,
                chv,
                oldheld,
                tri,
                b0, b1, b2, b3, b4, b5, b6, b7,
            );
        }
    }
}

impl Octree {
    // An inner node passes the triangle to every child whose octant it
    // overlaps; one that overlaps no octant is kept at this node.
    #[verifier::rlimit(100)]
    #[verifier::spinoff_prover]
    fn dispatch_to_children(&mut self, tri: Tri, b0: bool, b1: bool, b2: bool, b3: bool, b4: bool, b5: bool, b6: bool, b7: bool)
        requires
            old(self).inv(),
            tri.wf(),
            old(self).node is Node,
            octant_bits_ok(*old(self), tri, b0, b1, b2, b3, b4, b5, b6, b7),
        ensures
            final(self).inv(),
            final(self).min_corner() == old(self).min_corner(),
            final(self).max_corner() == old(self).max_corner(),
            final(self).mid_point() == old(self).mid_point(),
            final(self).cap() == old(self).cap(),
            forall|t: TriV| #[trigger] final(self).has_tri(t) <==> old(self).has_tri(t) || t
                == tri@,
        decreases old(self).node, 0int,
    {
        match &mut self.node {
            OctreeNode::Node { tri: held, children } => {
                let ghost oldch: OctChildren = **children;
                if b0 {
                    children.c0.insert(tri);
                }
                if b1 {
                    children.c1.insert(tri);
                }
                if b2 {
                    children.c2.insert(tri);
                }
                if b3 {
                    children.c3.insert(tri);
                }
                if b4 {
                    children.c4.insert(tri);
                }
                if b5 {
                    children.c5.insert(tri);
                }
                if b6 {
                    children.c6.insert(tri);
                }
                if b7 {
                    children.c7.insert(tri);
                }
                let ghost midheld = held@;
                if !(b0 || b1 || b2 || b3 || b4 || b5 || b6 || b7) {
                    proof {
                        assert forall|i: int| 0 <= i < held@.len() implies (#[trigger] held@[i])
                            .wf() by {}
                    }
                    held.push(tri);
                }
                proof {
                    if !(b0 || b1 || b2 || b3 || b4 || b5 || b6 || b7) {
                        assert forall|i: int| 0 <= i < held@.len() implies (#[trigger] held@[i])
                            .wf() by {
                            if i < midheld.len() {
                                assert(held@[i] == midheld[i]);
                            } else {
                                assert(held@[i] == tri);
                            }
                        }
                    }
                    assert(!b0 ==> children.c0 == oldch.c0);
                    assert(!b1 ==> children.c1 == oldch.c1);
                    assert(!b2 ==> children.c2 == oldch.c2);
                    assert(!b3 ==> children.c3 == oldch.c3);
                    assert(!b4 ==> children.c4 == oldch.c4);
                    assert(!b5 ==> children.c5 == oldch.c5);
                    assert(!b6 ==> children.c6 == oldch.c6);
                    assert(!b7 ==> children.c7 == oldch.c7);
                }
            },
            _ => {
                proof {
                    assert(false);
                }
            },
        }
        proof {
            let pre = *old(self);
            let oldchv = *pre.node->Node_children;
            let newchv = *self.node->Node_children;
            lemma_dispatch_post(
                pre,
                *self,
                oldchv,
                newchv,
                tri,
                b0, b1, b2, b3, b4, b5, b6, b7,
            );
        }
    }
}

// Appends a copy of every triangle of `src` to `dst`.
fn push_all(dst: &mut Vec<Tri>, src: &Vec<Tri>)
    ensures
        final(dst)@ == old(dst)@ + src@,
{
    let mut i: usize = 0;
    while i < src.len()
        invariant
            0 <= i <= src@.len(),
            dst@ == old(dst)@ + src@.subrange(0, i as int),
        decreases src@.len() - i,
    {
        dst.push(src[i]);
        proof {
            assert(src@.subrange(0, i as int + 1) == src@.subrange(0, i as int).push(
                src@[i as int],
            ));
        }
        i = i + 1;
    }
    proof {
        assert(src@.subrange(0, src@.len() as int) == src@);
    }
}

// A concatenation holds a triangle exactly when one of its parts does.
proof fn lemma_seq_has_concat(a: Seq<Tri>, b: Seq<Tri>, t: TriV)
    ensures
        seq_has_tri(a + b, t) <==> (seq_has_tri(a, t) || seq_has_tri(b, t)),
{
    if seq_has_tri(a, t) {
        let i = choose|i: int| 0 <= i < a.len() && a[i]@ == t;
        assert((a + b)[i]@ == t);
    }
    if seq_has_tri(b, t) {
        let i = choose|i: int| 0 <= i < b.len() && b[i]@ == t;
        assert((a + b)[a.len() + i]@ == t);
    }
    if seq_has_tri(a + b, t) {
        let i = choose|i: int| 0 <= i < (a + b).len() && (a + b)[i]@ == t;
        if i < a.len() {
            assert(a[i]@ == t);
        } else {
            assert(b[i - a.len()]@ == t);
        }
    }
}

impl Octree {
    /// Collects every stored triangle that a ray query may hit: this node's
    /// own triangles, plus (recursively) the contents of every child whose
    /// box the ray's forward half meets. The result may hold duplicates; a
    /// caller's nearest-hit fold is unaffected by them.
    #[verifier::rlimit(100)]
    #[verifier::spinoff_prover]
    pub fn ray_search_tree(&self, ro: Vec3, rd: Vec3) -> (res: Vec<Tri>)
        requires
            self.inv(),
            in_range(ro@),
            in_range(rd@),
        ensures
            seq_all_wf(res@),
            forall|i: int| 0 <= i < res@.len() ==> self.query_has(ro@, rd@, #[trigger] res@[i]@),
            forall|t: TriV| #[trigger] self.query_has(ro@, rd@, t) ==> seq_has_tri(res@, t),
            forall|i: int| 0 <= i < res@.len() ==> self.has_tri(#[trigger] res@[i]@),
        decreases *self,
    {
        let mut result: Vec<Tri> = Vec::new();
        match &self.node {
            OctreeNode::Empty => {},
            OctreeNode::Leaf { tri: held } => {
                push_all(&mut result, held);
            },
            OctreeNode::Node { tri: held, children } => {
                push_all(&mut result, held);
                let ghost heldv = held@;
                proof {
                    assert(result@ =~= heldv);
                }
                let ghost mut q0: Seq<Tri> = Seq::empty();
                let ghost mut q1: Seq<Tri> = Seq::empty();
                let ghost mut q2: Seq<Tri> = Seq::empty();
                let ghost mut q3: Seq<Tri> = Seq::empty();
                let ghost mut q4: Seq<Tri> = Seq::empty();
                let ghost mut q5: Seq<Tri> = Seq::empty();
                let ghost mut q6: Seq<Tri> = Seq::empty();
                let ghost mut q7: Seq<Tri> = Seq::empty();
                let h0 = children.c0.intersects(ro, rd);
                if h0 {
                    let mut sub = children.c0.ray_search_tree(ro, rd);
                    let ghost before = result@;
                    proof {
                        q0 = sub@;
                    }
                    result.append(&mut sub);
                    proof {
                        assert forall|t: TriV| true implies (seq_has_tri(result@, t) <==> (
                        seq_has_tri(before, t) || seq_has_tri(q0, t))) by {
                            lemma_seq_has_concat(before, q0, t);
                        }
                    }
                }
                proof {
                    assert forall|t: TriV| true implies (seq_has_tri(result@, t) <==> (seq_has_tri(heldv, t) || (h0 && seq_has_tri(q0, t)))) by {}
                }
                let h1 = children.c1.intersects(ro, rd);
                if h1 {
                    let mut sub = children.c1.ray_search_tree(ro, rd);
                    let ghost before = result@;
                    proof {
                        q1 = sub@;
                    }
                    result.append(&mut sub);
                    proof {
                        assert forall|t: TriV| true implies (seq_has_tri(result@, t) <==> (
                        seq_has_tri(before, t) || seq_has_tri(q1, t))) by {
                            lemma_seq_has_concat(before, q1, t);
                        }
                    }
                }
                proof {
                    assert forall|t: TriV| true implies (seq_has_tri(result@, t) <==> (seq_has_tri(heldv, t) || (h0 && seq_has_tri(q0, t)) || (h1 && seq_has_tri(q1, t)))) by {}
                }
                let h2 = children.c2.intersects(ro, rd);
                if h2 {
                    let mut sub = children.c2.ray_search_tree(ro, rd);
                    let ghost before = result@;
                    proof {
                        q2 = sub@;
                    }
                    result.append(&mut sub);
                    proof {
                        assert forall|t: TriV| true implies (seq_has_tri(result@, t) <==> (
                        seq_has_tri(before, t) || seq_has_tri(q2, t))) by {
                            lemma_seq_has_concat(before, q2, t);
                        }
                    }
                }
                proof {
                    assert forall|t: TriV| true implies (seq_has_tri(result@, t) <==> (seq_has_tri(heldv, t) || (h0 && seq_has_tri(q0, t)) || (h1 && seq_has_tri(q1, t)) || (h2 && seq_has_tri(q2, t)))) by {}
                }
                let h3 = children.c3.intersects(ro, rd);
                if h3 {
                    let mut sub = children.c3.ray_search_tree(ro, rd);
                    let ghost before = result@;
                    proof {
                        q3 = sub@;
                    }
                    result.append(&mut sub);
                    proof {
                        assert forall|t: TriV| true implies (seq_has_tri(result@, t) <==> (
                        seq_has_tri(before, t) || seq_has_tri(q3, t))) by {
                            lemma_seq_has_concat(before, q3, t);
                        }
                    }
                }
                proof {
                    assert forall|t: TriV| true implies (seq_has_tri(result@, t) <==> (seq_has_tri(heldv, t) || (h0 && seq_has_tri(q0, t)) || (h1 && seq_has_tri(q1, t)) || (h2 && seq_has_tri(q2, t)) || (h3 && seq_has_tri(q3, t)))) by {}
                }
                let h4 = children.c4.intersects(ro, rd);
                if h4 {
                    let mut sub = children.c4.ray_search_tree(ro, rd);
                    let ghost before = result@;
                    proof {
                        q4 = sub@;
                    }
                    result.append(&mut sub);
                    proof {
                        assert forall|t: TriV| true implies (seq_has_tri(result@, t) <==> (
                        seq_has_tri(before, t) || seq_has_tri(q4, t))) by {
                            lemma_seq_has_concat(before, q4, t);
                        }
                    }
                }
                proof {
                    assert forall|t: TriV| true implies (seq_has_tri(result@, t) <==> (seq_has_tri(heldv, t) || (h0 && seq_has_tri(q0, t)) || (h1 && seq_has_tri(q1, t)) || (h2 && seq_has_tri(q2, t)) || (h3 && seq_has_tri(q3, t)) || (h4 && seq_has_tri(q4, t)))) by {}
                }
                let h5 = children.c5.intersects(ro, rd);
                if h5 {
                    let mut sub = children.c5.ray_search_tree(ro, rd);
                    let ghost before = result@;
                    proof {
                        q5 = sub@;
                    }
                    result.append(&mut sub);
                    proof {
                        assert forall|t: TriV| true implies (seq_has_tri(result@, t) <==> (
                        seq_has_tri(before, t) || seq_has_tri(q5, t))) by {
                            lemma_seq_has_concat(before, q5, t);
                        }
                    }
                }
                proof {
                    assert forall|t: TriV| true implies (seq_has_tri(result@, t) <==> (seq_has_tri(heldv, t) || (h0 && seq_has_tri(q0, t)) || (h1 && seq_has_tri(q1, t)) || (h2 && seq_has_tri(q2, t)) || (h3 && seq_has_tri(q3, t)) || (h4 && seq_has_tri(q4, t)) || (h5 && seq_has_tri(q5, t)))) by {}
                }
                let h6 = children.c6.intersects(ro, rd);
                if h6 {
                    let mut sub = children.c6.ray_search_tree(ro, rd);
                    let ghost before = result@;
                    proof {
                        q6 = sub@;
                    }
                    result.append(&mut sub);
                    proof {
                        assert forall|t: TriV| true implies (seq_has_tri(result@, t) <==> (
                        seq_has_tri(before, t) || seq_has_tri(q6, t))) by {
                            lemma_seq_has_concat(before, q6, t);
                        }
                    }
                }
                proof {
                    assert forall|t: TriV| true implies (seq_has_tri(result@, t) <==> (seq_has_tri(heldv, t) || (h0 && seq_has_tri(q0, t)) || (h1 && seq_has_tri(q1, t)) || (h2 && seq_has_tri(q2, t)) || (h3 && seq_has_tri(q3, t)) || (h4 && seq_has_tri(q4, t)) || (h5 && seq_has_tri(q5, t)) || (h6 && seq_has_tri(q6, t)))) by {}
                }
                let h7 = children.c7.intersects(ro, rd);
                if h7 {
                    let mut sub = children.c7.ray_search_tree(ro, rd);
                    let ghost before = result@;
                    proof {
                        q7 = sub@;
                    }
                    result.append(&mut sub);
                    proof {
                        assert forall|t: TriV| true implies (seq_has_tri(result@, t) <==> (
                        seq_has_tri(before, t) || seq_has_tri(q7, t))) by {
                            lemma_seq_has_concat(before, q7, t);
                        }
                    }
                }
                proof {
                    assert forall|t: TriV| true implies (seq_has_tri(result@, t) <==> (seq_has_tri(heldv, t) || (h0 && seq_has_tri(q0, t)) || (h1 && seq_has_tri(q1, t)) || (h2 && seq_has_tri(q2, t)) || (h3 && seq_has_tri(q3, t)) || (h4 && seq_has_tri(q4, t)) || (h5 && seq_has_tri(q5, t)) || (h6 && seq_has_tri(q6, t)) || (h7 && seq_has_tri(q7, t)))) by {}
                }
                proof {
                    let rv = RayV { origin: ro@, dir: rd@ };
                    assert forall|t: TriV| true implies (seq_has_tri(result@, t) <==> (
                    seq_has_tri(heldv, t) || (h0 && seq_has_tri(q0, t)) || (h1 && seq_has_tri(
                        q1,
                        t,
                    )) || (h2 && seq_has_tri(q2, t)) || (h3 && seq_has_tri(q3, t)) || (h4
                        && seq_has_tri(q4, t)) || (h5 && seq_has_tri(q5, t)) || (h6
                        && seq_has_tri(q6, t)) || (h7 && seq_has_tri(q7, t)))) by {}
                    assert forall|t: TriV| #[trigger] self.query_has(ro@, rd@, t) implies
                        seq_has_tri(result@, t) by {
                        assert(self.query_has(ro@, rd@, t) == (seq_has_tri(heldv, t) || (
                        crate::geom::ray_hits_box(
                            children.c0.min_corner(),
                            children.c0.max_corner(),
                            rv,
                        ) && children.c0.query_has(ro@, rd@, t)) || (crate::geom::ray_hits_box(
                            children.c1.min_corner(),
                            children.c1.max_corner(),
                            rv,
                        ) && children.c1.query_has(ro@, rd@, t)) || (crate::geom::ray_hits_box(
                            children.c2.min_corner(),
                            children.c2.max_corner(),
                            rv,
                        ) && children.c2.query_has(ro@, rd@, t)) || (crate::geom::ray_hits_box(
                            children.c3.min_corner(),
                            children.c3.max_corner(),
                            rv,
                        ) && children.c3.query_has(ro@, rd@, t)) || (crate::geom::ray_hits_box(
                            children.c4.min_corner(),
                            children.c4.max_corner(),
                            rv,
                        ) && children.c4.query_has(ro@, rd@, t)) || (crate::geom::ray_hits_box(
                            children.c5.min_corner(),
                            children.c5.max_corner(),
                            rv,
                        ) && children.c5.query_has(ro@, rd@, t)) || (crate::geom::ray_hits_box(
                            children.c6.min_corner(),
                            children.c6.max_corner(),
                            rv,
                        ) && children.c6.query_has(ro@, rd@, t)) || (crate::geom::ray_hits_box(
                            children.c7.min_corner(),
                            children.c7.max_corner(),
                            rv,
                        ) && children.c7.query_has(ro@, rd@, t))));
                    }
                    assert forall|i: int| 0 <= i < result@.len() implies self.query_has(
                        ro@,
                        rd@,
                        #[trigger] result@[i]@,
                    ) && result@[i].wf() by {
                        let t = result@[i]@;
                        assert(seq_has_tri(result@, t));
                        if seq_has_tri(heldv, t) {
                            let k = choose|k: int| 0 <= k < heldv.len() && heldv[k]@ == t;
                            assert(heldv[k].wf());
                        }
                        if h0 && seq_has_tri(q0, t) {
                            let k = choose|k: int| 0 <= k < q0.len() && q0[k]@ == t;
                            assert(q0[k].wf());
                        }
                        if h1 && seq_has_tri(q1, t) {
                            let k = choose|k: int| 0 <= k < q1.len() && q1[k]@ == t;
                            assert(q1[k].wf());
                        }
                        if h2 && seq_has_tri(q2, t) {
                            let k = choose|k: int| 0 <= k < q2.len() && q2[k]@ == t;
                            assert(q2[k].wf());
                        }
                        if h3 && seq_has_tri(q3, t) {
                            let k = choose|k: int| 0 <= k < q3.len() && q3[k]@ == t;
                            assert(q3[k].wf());
                        }
                        if h4 && seq_has_tri(q4, t) {
                            let k = choose|k: int| 0 <= k < q4.len() && q4[k]@ == t;
                            assert(q4[k].wf());
                        }
                        if h5 && seq_has_tri(q5, t) {
                            let k = choose|k: int| 0 <= k < q5.len() && q5[k]@ == t;
                            assert(q5[k].wf());
                        }
                        if h6 && seq_has_tri(q6, t) {
                            let k = choose|k: int| 0 <= k < q6.len() && q6[k]@ == t;
                            assert(q6[k].wf());
                        }
                        if h7 && seq_has_tri(q7, t) {
                            let k = choose|k: int| 0 <= k < q7.len() && q7[k]@ == t;
                            assert(q7[k].wf());
                        }
                    }
                }
            },
        }
        proof {
            assert forall|i: int| 0 <= i < result@.len() implies self.has_tri(
                #[trigger] result@[i]@,
            ) by {
                if self.query_has(ro@, rd@, result@[i]@) {
                    lemma_query_sound(*self, ro@, rd@, result@[i]@);
                }
            }
            if self.node is Leaf {
                assert(result@ =~= self.node->Leaf_tri@);
                assert forall|i: int|
                    0 <= i < result@.len() implies self.query_has(
                    ro@,
                    rd@,
                    #[trigger] result@[i]@,
                ) && result@[i].wf() by {
                    assert(seq_has_tri(self.node->Leaf_tri@, result@[i]@));
                }
            }
        }
        result
    }
}

// One step of the query-superset argument: the hit point lies in octant j of
// an inner node, so the triangle sits in child j, the ray hits child j's
// box, and the recursive query of child j finds it.
#[verifier::rlimit(100)]
#[verifier::spinoff_prover]
proof fn lemma_query_superset_step(o: Octree, ro: V3, rd: V3, t: TriV, tn: int, td: int, j: int)
    requires
        o.inv(),
        o.node is Node,
        any_child_has(*o.node->Node_children, t),
        hit_spec(t, RayV { origin: ro, dir: rd }) == Some((tn, td)),
        0 <= j < 8,
        crate::geom::in_box_scaled(
            octant_min(o.min_corner(), o.mid_point(), o.max_corner(), j),
            octant_max(o.min_corner(), o.mid_point(), o.max_corner(), j),
            crate::geom::ray_point_scaled(RayV { origin: ro, dir: rd }, tn, td),
            td,
        ),
    ensures
        o.query_has(ro, rd, t),
    decreases o, 0int,
{
    let rv = RayV { origin: ro, dir: rd };
    let pnum = crate::geom::ray_point_scaled(rv, tn, td);
    let bmin = octant_min(o.min_corner(), o.mid_point(), o.max_corner(), j);
    let bmax = octant_max(o.min_corner(), o.mid_point(), o.max_corner(), j);
    crate::geom::lemma_hit_point_barycentric(t, rv, tn, td);
    crate::geom::lemma_sat_contains_point(
        bmin,
        bmax,
        t,
        pnum,
        td,
        crate::geom::hit_wa(t, rv),
        crate::geom::hit_wb(t, rv),
        crate::geom::hit_wc(t, rv),
    );
    let ch = *o.node->Node_children;
    let c = child_at(ch, j);
    assert(c.has_tri(t));
    assert(c.min_corner() == bmin && c.max_corner() == bmax);
    assert(crate::geom::ray_hits_box(c.min_corner(), c.max_corner(), rv)) by {
        assert(td > 0 && tn >= 0 && crate::geom::in_box_scaled(
            c.min_corner(),
            c.max_corner(),
            crate::geom::ray_point_scaled(rv, tn, td),
            td,
        ));
    }
    lemma_query_superset(c, ro, rd, t, tn, td);
    assert(c == ch.c0 || c == ch.c1 || c == ch.c2 || c == ch.c3 || c == ch.c4 || c == ch.c5 || c
        == ch.c6 || c == ch.c7);
}

/// The octree query is a superset-correct filter: a stored triangle that the
/// ray truly hits, with the hit point inside this node's box, is always part
/// of the query's result set (false positives are possible, false negatives
/// are not).
#[verifier::rlimit(100)]
#[verifier::spinoff_prover]
pub proof fn lemma_query_superset(o: Octree, ro: V3, rd: V3, t: TriV, tn: int, td: int)
    requires
        o.inv(),
        o.has_tri(t),
        hit_spec(t, RayV { origin: ro, dir: rd }) == Some((tn, td)),
        crate::geom::in_box_scaled(
            o.min_corner(),
            o.max_corner(),
            crate::geom::ray_point_scaled(RayV { origin: ro, dir: rd }, tn, td),
            td,
        ),
    ensures
        o.query_has(ro, rd, t),
    decreases o, 1int,
{
    let rv = RayV { origin: ro, dir: rd };
    let pnum = crate::geom::ray_point_scaled(rv, tn, td);
    crate::geom::lemma_hit_point_barycentric(t, rv, tn, td);
    match o.node {
        OctreeNode::Empty => {},
        OctreeNode::Leaf { tri } => {},
        OctreeNode::Node { tri, children } => {
            if seq_has_tri(tri@, t) {
            } else {
                let tlfv = o.min_corner();
                let midv = o.mid_point();
                let brbv = o.max_corner();
                // the box is nonempty, so the midpoint lies between the corners
                assert(tlfv.x <= brbv.x && tlfv.y <= brbv.y && tlfv.z <= brbv.z) by {
                    assert(td * tlfv.x <= pnum.x <= td * brbv.x);
                    assert(td * tlfv.y <= pnum.y <= td * brbv.y);
                    assert(td * tlfv.z <= pnum.z <= td * brbv.z);
                    assert(td * tlfv.x <= td * brbv.x ==> tlfv.x <= brbv.x) by (nonlinear_arith)
                        requires td > 0;
                    assert(td * tlfv.y <= td * brbv.y ==> tlfv.y <= brbv.y) by (nonlinear_arith)
                        requires td > 0;
                    assert(td * tlfv.z <= td * brbv.z ==> tlfv.z <= brbv.z) by (nonlinear_arith)
                        requires td > 0;
                }
                crate::geom::lemma_half_between(tlfv.x, brbv.x);
                crate::geom::lemma_half_between(tlfv.y, brbv.y);
                crate::geom::lemma_half_between(tlfv.z, brbv.z);
                let xhigh = pnum.x >= td * midv.x;
                let yhigh = pnum.y >= td * midv.y;
                let zhigh = pnum.z >= td * midv.z;
                let j = (if xhigh { 0int } else { 4int }) + (if yhigh { 0int } else { 2int }) + (
                if zhigh {
                    0int
                } else {
                    1int
                });
                assert(crate::geom::in_box_scaled(
                    octant_min(tlfv, midv, brbv, j),
                    octant_max(tlfv, midv, brbv, j),
                    pnum,
                    td,
                )) by {
                    assert(td * tlfv.x <= pnum.x <= td * brbv.x);
                    assert(td * tlfv.y <= pnum.y <= td * brbv.y);
                    assert(td * tlfv.z <= pnum.z <= td * brbv.z);
                    assert(tlfv.x <= midv.x <= brbv.x);
                    assert(tlfv.y <= midv.y <= brbv.y);
                    assert(tlfv.z <= midv.z <= brbv.z);
                    assert(td * tlfv.x <= td * midv.x && td * midv.x <= td * brbv.x)
                        by (nonlinear_arith)
                        requires td > 0, tlfv.x <= midv.x <= brbv.x;
                    assert(td * tlfv.y <= td * midv.y && td * midv.y <= td * brbv.y)
                        by (nonlinear_arith)
                        requires td > 0, tlfv.y <= midv.y <= brbv.y;
                    assert(td * tlfv.z <= td * midv.z && td * midv.z <= td * brbv.z)
                        by (nonlinear_arith)
                        requires td > 0, tlfv.z <= midv.z <= brbv.z;
                }
                lemma_query_superset_step(o, ro, rd, t, tn, td, j);
            }
        },
    }
}

/// The query is sound: everything it collects was stored in the subtree. In
/// particular a query of an empty octree collects nothing.
pub proof fn lemma_query_sound(o: Octree, ro: V3, rd: V3, t: TriV)
    requires
        o.query_has(ro, rd, t),
    ensures
        o.has_tri(t),
    decreases o,
{
    match o.node {
        OctreeNode::Empty => {},
        OctreeNode::Leaf { tri } => {},
        OctreeNode::Node { tri, children } => {
            if seq_has_tri(tri@, t) {
            } else {
                let rv = RayV { origin: ro, dir: rd };
                if crate::geom::ray_hits_box(children.c0.min_corner(), children.c0.max_corner(), rv)
                    && children.c0.query_has(ro, rd, t) {
                    lemma_query_sound(children.c0, ro, rd, t);
                } else if crate::geom::ray_hits_box(
                    children.c1.min_corner(),
                    children.c1.max_corner(),
                    rv,
                ) && children.c1.query_has(ro, rd, t) {
                    lemma_query_sound(children.c1, ro, rd, t);
                } else if crate::geom::ray_hits_box(
                    children.c2.min_corner(),
                    children.c2.max_corner(),
                    rv,
                ) && children.c2.query_has(ro, rd, t) {
                    lemma_query_sound(children.c2, ro, rd, t);
                } else if crate::geom::ray_hits_box(
                    children.c3.min_corner(),
                    children.c3.max_corner(),
                    rv,
                ) && children.c3.query_has(ro, rd, t) {
                    lemma_query_sound(children.c3, ro, rd, t);
                } else if crate::geom::ray_hits_box(
                    children.c4.min_corner(),
                    children.c4.max_corner(),
                    rv,
                ) && children.c4.query_has(ro, rd, t) {
                    lemma_query_sound(children.c4, ro, rd, t);
                } else if crate::geom::ray_hits_box(
                    children.c5.min_corner(),
                    children.c5.max_corner(),
                    rv,
                ) && children.c5.query_has(ro, rd, t) {
                    lemma_query_sound(children.c5, ro, rd, t);
                } else if crate::geom::ray_hits_box(
                    children.c6.min_corner(),
                    children.c6.max_corner(),
                    rv,
                ) && children.c6.query_has(ro, rd, t) {
                    lemma_query_sound(children.c6, ro, rd, t);
                } else {
                    lemma_query_sound(children.c7, ro, rd, t);
                }
            }
        },
    }
}

/// Is some triangle of the sequence hit by the ray?
pub open spec fn some_hit(s: Seq<Tri>, r: RayV) -> bool {
    exists|i: int| 0 <= i < s.len() && hit_spec(s[i]@, r) is Some
}

/// Is `n/d` a hit distance attained in `s` that no other hit in `s`
/// undercuts (the nearest-hit distance of `s`)?
pub open spec fn is_best_hit(s: Seq<Tri>, r: RayV, n: int, d: int) -> bool {
    &&& exists|i: int| 0 <= i < s.len() && hit_spec(s[i]@, r) == Some((n, d))
    &&& forall|j: int|
        0 <= j < s.len() ==> (match hit_spec(#[trigger] s[j]@, r) {
            Some(p) => crate::geom::rat_le(n, d, p.0, p.1),
            None => true,
        })
}

// A triangle of `ms` that the ray hits turns up among the query candidates:
// its vertices are inside the root box, so the hit point is too, and the
// query-superset property applies.
proof fn lemma_mesh_hit_in_query(o: Octree, ro: V3, rd: V3, qs: Seq<Tri>, ms: Seq<Tri>, j: int)
    requires
        o.inv(),
        forall|t: TriV| #[trigger] o.has_tri(t) <==> seq_has_tri(ms, t),
        forall|i: int|
            0 <= i < ms.len() ==> crate::geom::in_box(
                o.min_corner(),
                o.max_corner(),
                (#[trigger] ms[i])@.v0,
            ) && crate::geom::in_box(o.min_corner(), o.max_corner(), ms[i]@.v1)
                && crate::geom::in_box(o.min_corner(), o.max_corner(), ms[i]@.v2),
        forall|t: TriV| #[trigger] o.query_has(ro, rd, t) ==> seq_has_tri(qs, t),
        0 <= j < ms.len(),
        hit_spec(ms[j]@, RayV { origin: ro, dir: rd }) is Some,
    ensures
        seq_has_tri(qs, ms[j]@),
{
    let rv = RayV { origin: ro, dir: rd };
    let t = ms[j]@;
    let p = hit_spec(t, rv)->0;
    crate::geom::lemma_hit_point_barycentric(t, rv, p.0, p.1);
    let td = p.1;
    let wa = crate::geom::hit_wa(t, rv);
    let wb = crate::geom::hit_wb(t, rv);
    let wc = crate::geom::hit_wc(t, rv);
    let pnum = crate::geom::ray_point_scaled(rv, p.0, p.1);
    let bmin = o.min_corner();
    let bmax = o.max_corner();
    crate::geom::lemma_weighted_between(
        wa, wb, wc, t.v0.x, t.v1.x, t.v2.x, bmin.x, bmax.x, td,
    );
    crate::geom::lemma_weighted_between(
        wa, wb, wc, t.v0.y, t.v1.y, t.v2.y, bmin.y, bmax.y, td,
    );
    crate::geom::lemma_weighted_between(
        wa, wb, wc, t.v0.z, t.v1.z, t.v2.z, bmin.z, bmax.z, td,
    );
    assert(crate::geom::in_box_scaled(bmin, bmax, pnum, td));
    assert(o.has_tri(t)) by {
        assert(seq_has_tri(ms, t));
    }
    lemma_query_superset(o, ro, rd, t, p.0, p.1);
}

/// Nearest-hit resolution over an octree query's candidates agrees with a
/// brute-force scan of the whole triangle list: for an octree holding
/// exactly the list's triangles, all with vertices inside its box, the two
/// candidate sets hit the same triangles, some triangle is hit through one
/// exactly when it is through the other, and their nearest-hit distances are
/// equal.
pub proof fn lemma_octree_nearest_matches_brute(
    o: Octree, ro: V3, rd: V3, qs: Seq<Tri>, ms: Seq<Tri>,
)
    requires
        o.inv(),
        forall|t: TriV| #[trigger] o.has_tri(t) <==> seq_has_tri(ms, t),
        forall|i: int|
            0 <= i < ms.len() ==> crate::geom::in_box(
                o.min_corner(),
                o.max_corner(),
                (#[trigger] ms[i])@.v0,
            ) && crate::geom::in_box(o.min_corner(), o.max_corner(), ms[i]@.v1)
                && crate::geom::in_box(o.min_corner(), o.max_corner(), ms[i]@.v2),
        forall|i: int| 0 <= i < qs.len() ==> o.query_has(ro, rd, (#[trigger] qs[i])@),
        forall|t: TriV| #[trigger] o.query_has(ro, rd, t) ==> seq_has_tri(qs, t),
    ensures
        some_hit(qs, RayV { origin: ro, dir: rd }) <==> some_hit(
            ms,
            RayV { origin: ro, dir: rd },
        ),
        forall|n1: int, d1: int, n2: int, d2: int|
            is_best_hit(qs, RayV { origin: ro, dir: rd }, n1, d1) && is_best_hit(
                ms,
                RayV { origin: ro, dir: rd },
                n2,
                d2,
            ) ==> crate::geom::rat_eq(n1, d1, n2, d2),
{
    let rv = RayV { origin: ro, dir: rd };
    // every query candidate is a stored, hence listed, triangle
    assert forall|i: int| 0 <= i < qs.len() implies seq_has_tri(ms, (#[trigger] qs[i])@) by {
        lemma_query_sound(o, ro, rd, qs[i]@);
    }
    // every listed triangle the ray hits is among the candidates
    assert forall|j: int|
        0 <= j < ms.len() && hit_spec((#[trigger] ms[j])@, rv) is Some implies seq_has_tri(
        qs,
        ms[j]@,
    ) by {
        lemma_mesh_hit_in_query(o, ro, rd, qs, ms, j);
    }
    if some_hit(qs, rv) {
        let i = choose|i: int| 0 <= i < qs.len() && hit_spec(qs[i]@, rv) is Some;
        let w = choose|w: int| 0 <= w < ms.len() && ms[w]@ == qs[i]@;
        assert(hit_spec(ms[w]@, rv) is Some);
    }
    if some_hit(ms, rv) {
        let j = choose|j: int| 0 <= j < ms.len() && hit_spec(ms[j]@, rv) is Some;
        let w = choose|w: int| 0 <= w < qs.len() && qs[w]@ == ms[j]@;
        assert(hit_spec(qs[w]@, rv) is Some);
    }
    assert forall|n1: int, d1: int, n2: int, d2: int|
        is_best_hit(qs, rv, n1, d1) && is_best_hit(ms, rv, n2, d2) implies crate::geom::rat_eq(
        n1,
        d1,
        n2,
        d2,
    ) by {
        // the qs-attained distance is attained in ms too, so n2/d2 <= n1/d1
        let i1 = choose|i: int| 0 <= i < qs.len() && hit_spec(qs[i]@, rv) == Some((n1, d1));
        let w1 = choose|w: int| 0 <= w < ms.len() && ms[w]@ == qs[i1]@;
        assert(hit_spec(ms[w1]@, rv) == Some((n1, d1)));
        assert(crate::geom::rat_le(n2, d2, n1, d1));
        // and conversely, so n1/d1 <= n2/d2
        let i2 = choose|i: int| 0 <= i < ms.len() && hit_spec(ms[i]@, rv) == Some((n2, d2));
        let w2 = choose|w: int| 0 <= w < qs.len() && qs[w]@ == ms[i2]@;
        assert(hit_spec(qs[w2]@, rv) == Some((n2, d2)));
        assert(crate::geom::rat_le(n1, d1, n2, d2));
    }
}


} // verus!
