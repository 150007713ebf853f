//! Axis-aligned bounding boxes, rays, and the ray/box slab test.
//!
//! Boxes carry exact integer corner coordinates and are specified by their
//! point sets: `covers_pt` says which integer points lie inside, and the
//! executable overlap and containment tests are proved equivalent to the
//! existence or universality of shared points. Coordinates are kept within
//! [`COORD_LIMIT`] so that every product the geometry forms fits in an `i64`.

use crate::mat2::Mat2d;
use crate::traits::Scalar;
use crate::vec2::{Vec2, Vec2d};
use crate::vec3::{Vec3, Vec3d};
use vstd::prelude::*;

verus! {

/// A colour value; an alias kept for callers that use the vector algebra for shading.
pub type Colour = Vec3d;

/// A position in three dimensions.
pub type Point3d = Vec3d;

/// A direction in three dimensions.
pub type Direction3d = Vec3d;

/// A position in two dimensions.
pub type Point2d = Vec2d;

/// A direction in two dimensions.
pub type Direction2d = Vec2d;

/// Every box corner coordinate lies within `[-COORD_LIMIT, COORD_LIMIT]`.
pub const COORD_LIMIT: i64 = 536870912;

/// A box whose diagonal is longer than this (squared) refuses to grow further.
pub const MAX_GROW_DIAG_SQ: i64 = 10000000000000000;

/// An upper bound on the squared diagonal of any box produced by growth;
/// growth fuel is measured downward from it.
pub const GROW_FUEL_CAP: i64 = 50000000000000000;

/// A coordinate the boxes may hold.
pub open spec fn coord_ok(c: i64) -> bool {
    -COORD_LIMIT <= c <= COORD_LIMIT
}

/// An axis-aligned rectangle `[u, v]` in two dimensions.
#[derive(Copy, Clone, Debug, PartialEq, Eq, Hash)]
pub struct BoundingBox2d {
    pub u: Vec2d,
    pub v: Vec2d,
}

/// An axis-aligned cuboid `[u, v]` in three dimensions.
#[derive(Copy, Clone, Debug, PartialEq, Eq, Hash)]
pub struct BoundingBox3d {
    pub u: Vec3d,
    pub v: Vec3d,
}

impl BoundingBox2d {
    /// A valid box: corners in range and ordered componentwise.
    pub open spec fn wf_box(self) -> bool {
        &&& coord_ok(self.u.x) && coord_ok(self.u.y)
        &&& coord_ok(self.v.x) && coord_ok(self.v.y)
        &&& self.u.x <= self.v.x
        &&& self.u.y <= self.v.y
    }

    /// The point set of the box: all integer points between the corners.
    pub open spec fn covers_pt(self, p: Point2d) -> bool {
        &&& self.u.x <= p.x <= self.v.x
        &&& self.u.y <= p.y <= self.v.y
    }

    /// The squared length of the box diagonal, over mathematical integers.
    pub open spec fn diag_sq(self) -> int {
        let dx = self.v.x - self.u.x;
        let dy = self.v.y - self.u.y;
        dx * dx + dy * dy
    }

    /// The sum of the edge lengths; splitting and growth strictly shrink or
    /// grow it, which founds the tree recursions.
    pub open spec fn box_measure(self) -> nat {
        let sx = self.v.x - self.u.x;
        let sy = self.v.y - self.u.y;
        let s = sx + sy;
        if s >= 0 {
            s as nat
        } else {
            0
        }
    }

    /// Growth fuel: how far the squared diagonal still is from the cap.
    pub open spec fn grow_fuel_spec(self) -> nat {
        if self.diag_sq() > GROW_FUEL_CAP {
            0
        } else {
            (GROW_FUEL_CAP - self.diag_sq()) as nat
        }
    }

    /// The componentwise overlap condition: inclusive overlap on both axes.
    pub open spec fn spec_overlaps(self, other: Self) -> bool {
        &&& self.v.x >= other.u.x && self.u.x <= other.v.x
        &&& self.v.y >= other.u.y && self.u.y <= other.v.y
    }

    /// The componentwise containment condition: `self` within `other`.
    pub open spec fn spec_inside(self, other: Self) -> bool {
        &&& other.u.x <= self.u.x && self.v.x <= other.v.x
        &&& other.u.y <= self.u.y && self.v.y <= other.v.y
    }

    pub fn new(u: Vec2d, v: Vec2d) -> (r: Self)
        ensures
            r == (BoundingBox2d { u, v }),
    {
        Self { u, v }
    }

    /// The componentwise overlap test, proved equal to the existence of a
    /// shared point when both boxes are valid.
    pub fn intersects(&self, other: &Self) -> (r: bool)
        requires
            self.wf_box(),
            other.wf_box(),
        ensures
            r == self.spec_overlaps(*other),
            r == exists|p: Point2d| self.covers_pt(p) && other.covers_pt(p),
    {
        let r = self.v.x >= other.u.x && self.u.x <= other.v.x && self.v.y >= other.u.y
            && self.u.y <= other.v.y;
        proof {
            lemma_overlap_iff_witness_2d(*self, *other);
        }
        r
    }
}

/// A valid pair of boxes overlaps componentwise exactly when the boxes share
/// an integer point.
pub proof fn lemma_overlap_iff_witness_2d(a: BoundingBox2d, b: BoundingBox2d)
    requires
        a.wf_box(),
        b.wf_box(),
    ensures
        a.spec_overlaps(b) == exists|p: Point2d| a.covers_pt(p) && b.covers_pt(p),
{
    if a.spec_overlaps(b) {
        let px: i64 = if a.u.x >= b.u.x {
            a.u.x
        } else {
            b.u.x
        };
        let py: i64 = if a.u.y >= b.u.y {
            a.u.y
        } else {
            b.u.y
        };
        let p = Vec2 { x: px, y: py };
        assert(a.covers_pt(p) && b.covers_pt(p));
    }
}

/// A valid box lies componentwise inside another exactly when every point of
/// the first is a point of the second.
pub proof fn lemma_inside_iff_all_pts_2d(a: BoundingBox2d, b: BoundingBox2d)
    requires
        a.wf_box(),
        b.wf_box(),
    ensures
        a.spec_inside(b) == forall|p: Point2d| a.covers_pt(p) ==> b.covers_pt(p),
{
    if !a.spec_inside(b) {
        let px: i64 = if a.u.x < b.u.x || a.v.x > b.v.x {
            if a.u.x < b.u.x {
                a.u.x
            } else {
                a.v.x
            }
        } else {
            a.u.x
        };
        let py: i64 = if a.u.y < b.u.y || a.v.y > b.v.y {
            if a.u.y < b.u.y {
                a.u.y
            } else {
                a.v.y
            }
        } else {
            a.u.y
        };
        let p = Vec2 { x: px, y: py };
        assert(a.covers_pt(p) && !b.covers_pt(p));
    }
}

/// A valid box covers its own lower corner.
pub proof fn lemma_box_nonempty_2d(a: BoundingBox2d)
    requires
        a.wf_box(),
    ensures
        a.covers_pt(a.u),
{
}

impl Default for BoundingBox2d {
    /// The unit box from the origin.
    fn default() -> (r: Self)
        ensures
            r == (BoundingBox2d { u: Vec2 { x: 0i64, y: 0i64 }, v: Vec2 { x: 1i64, y: 1i64 } }),
            r.wf_box(),
    {
        BoundingBox2d { u: Vec2d::new(0, 0), v: Vec2d::new(1, 1) }
    }
}


impl BoundingBox3d {
    /// A valid box: corners in range and ordered componentwise.
    pub open spec fn wf_box(self) -> bool {
        &&& coord_ok(self.u.x) && coord_ok(self.u.y) && coord_ok(self.u.z)
        &&& coord_ok(self.v.x) && coord_ok(self.v.y) && coord_ok(self.v.z)
        &&& self.u.x <= self.v.x
        &&& self.u.y <= self.v.y
        &&& self.u.z <= self.v.z
    }

    /// The point set of the box: all integer points between the corners.
    pub open spec fn covers_pt(self, p: Point3d) -> bool {
        &&& self.u.x <= p.x <= self.v.x
        &&& self.u.y <= p.y <= self.v.y
        &&& self.u.z <= p.z <= self.v.z
    }

    /// The squared length of the box diagonal, over mathematical integers.
    pub open spec fn diag_sq(self) -> int {
        let dx = self.v.x - self.u.x;
        let dy = self.v.y - self.u.y;
        let dz = self.v.z - self.u.z;
        dx * dx + dy * dy + dz * dz
    }

    /// The sum of the edge lengths; splitting and growth strictly shrink or
    /// grow it, which founds the tree recursions.
    pub open spec fn box_measure(self) -> nat {
        let sx = self.v.x - self.u.x;
        let sy = self.v.y - self.u.y;
        let sz = self.v.z - self.u.z;
        let s = sx + sy + sz;
        if s >= 0 {
            s as nat
        } else {
            0
        }
    }

    /// Growth fuel: how far the squared diagonal still is from the cap.
    pub open spec fn grow_fuel_spec(self) -> nat {
        if self.diag_sq() > GROW_FUEL_CAP {
            0
        } else {
            (GROW_FUEL_CAP - self.diag_sq()) as nat
        }
    }

    /// The componentwise overlap condition: inclusive overlap on all axes.
    pub open spec fn spec_overlaps(self, other: Self) -> bool {
        &&& self.v.x >= other.u.x && self.u.x <= other.v.x
        &&& self.v.y >= other.u.y && self.u.y <= other.v.y
        &&& self.v.z >= other.u.z && self.u.z <= other.v.z
    }

    /// The componentwise containment condition: `self` within `other`.
    pub open spec fn spec_inside(self, other: Self) -> bool {
        &&& other.u.x <= self.u.x && self.v.x <= other.v.x
        &&& other.u.y <= self.u.y && self.v.y <= other.v.y
        &&& other.u.z <= self.u.z && self.v.z <= other.v.z
    }

    pub fn new(u: Vec3d, v: Vec3d) -> (r: Self)
        ensures
            r == (BoundingBox3d { u, v }),
    {
        Self { u, v }
    }

    /// The componentwise overlap test, proved equal to the existence of a
    /// shared point when both boxes are valid.
    pub fn intersects(&self, other: &Self) -> (r: bool)
        requires
            self.wf_box(),
            other.wf_box(),
        ensures
            r == self.spec_overlaps(*other),
            r == exists|p: Point3d| self.covers_pt(p) && other.covers_pt(p),
    {
        let r = self.v.x >= other.u.x && self.u.x <= other.v.x && self.v.y >= other.u.y
            && self.u.y <= other.v.y && self.v.z >= other.u.z && self.u.z <= other.v.z;
        proof {
            lemma_overlap_iff_witness_3d(*self, *other);
        }
        r
    }
}

/// A valid pair of boxes overlaps componentwise exactly when the boxes share
/// an integer point.
pub proof fn lemma_overlap_iff_witness_3d(a: BoundingBox3d, b: BoundingBox3d)
    requires
        a.wf_box(),
        b.wf_box(),
    ensures
        a.spec_overlaps(b) == exists|p: Point3d| a.covers_pt(p) && b.covers_pt(p),
{
    if a.spec_overlaps(b) {
        let px: i64 = if a.u.x >= b.u.x {
            a.u.x
        } else {
            b.u.x
        };
        let py: i64 = if a.u.y >= b.u.y {
            a.u.y
        } else {
            b.u.y
        };
        let pz: i64 = if a.u.z >= b.u.z {
            a.u.z
        } else {
            b.u.z
        };
        let p = Vec3 { x: px, y: py, z: pz };
        assert(a.covers_pt(p) && b.covers_pt(p));
    }
}

/// A valid box lies componentwise inside another exactly when every point of
/// the first is a point of the second.
pub proof fn lemma_inside_iff_all_pts_3d(a: BoundingBox3d, b: BoundingBox3d)
    requires
        a.wf_box(),
        b.wf_box(),
    ensures
        a.spec_inside(b) == forall|p: Point3d| a.covers_pt(p) ==> b.covers_pt(p),
{
    if !a.spec_inside(b) {
        let px: i64 = if a.u.x < b.u.x {
            a.u.x
        } else if a.v.x > b.v.x {
            a.v.x
        } else {
            a.u.x
        };
        let py: i64 = if a.u.y < b.u.y {
            a.u.y
        } else if a.v.y > b.v.y {
            a.v.y
        } else {
            a.u.y
        };
        let pz: i64 = if a.u.z < b.u.z {
            a.u.z
        } else if a.v.z > b.v.z {
            a.v.z
        } else {
            a.u.z
        };
        let p = Vec3 { x: px, y: py, z: pz };
        assert(a.covers_pt(p) && !b.covers_pt(p));
    }
}

/// A valid box covers its own lower corner.
pub proof fn lemma_box_nonempty_3d(a: BoundingBox3d)
    requires
        a.wf_box(),
    ensures
        a.covers_pt(a.u),
{
}

impl Default for BoundingBox3d {
    /// The unit box from the origin.
    fn default() -> (r: Self)
        ensures
            r == (BoundingBox3d {
                u: Vec3 { x: 0i64, y: 0i64, z: 0i64 },
                v: Vec3 { x: 1i64, y: 1i64, z: 1i64 },
            }),
            r.wf_box(),
    {
        BoundingBox3d { u: Vec3d::new_raw(0, 0, 0), v: Vec3d::new_raw(1, 1, 1) }
    }
}


/// An exact rational parametric value `num / den` along a ray, with a
/// positive denominator.
#[derive(Copy, Clone, Debug, PartialEq, Eq, Hash)]
pub struct Frac {
    pub num: i64,
    pub den: i64,
}

impl Frac {
    /// A crossing value produced by the slab test: the denominator is a
    /// direction component's magnitude and the numerator a coordinate
    /// difference, so both are small enough for exact cross-multiplication.
    pub open spec fn wf_frac(self) -> bool {
        &&& 0 < self.den <= 2 * COORD_LIMIT
        &&& -2 * COORD_LIMIT <= self.num <= 2 * COORD_LIMIT
    }

    /// The order of two rationals with positive denominators.
    pub open spec fn spec_lt(self, other: Self) -> bool {
        self.num * other.den < other.num * self.den
    }

    /// Whether the rational is at least the integer `t`.
    pub open spec fn spec_ge_int(self, t: i64) -> bool {
        t * self.den <= self.num
    }

    /// Whether the rational is at most the integer `t`.
    pub open spec fn spec_le_int(self, t: i64) -> bool {
        self.num <= t * self.den
    }

    /// The exact order test, by cross-multiplication.
    pub fn lt(&self, other: &Frac) -> (r: bool)
        requires
            self.wf_frac(),
            other.wf_frac(),
        ensures
            r == self.spec_lt(*other),
    {
        proof {
            lemma_prod_in_i64(self.num as int, other.den as int);
            lemma_prod_in_i64(other.num as int, self.den as int);
        }
        self.num * other.den < other.num * self.den
    }

    /// The exact comparison against an integer bound from below.
    pub fn ge_int(&self, t: i64) -> (r: bool)
        requires
            self.wf_frac(),
            -2 * COORD_LIMIT <= t <= 2 * COORD_LIMIT,
        ensures
            r == self.spec_ge_int(t),
    {
        proof {
            lemma_prod_in_i64(t as int, self.den as int);
        }
        t * self.den <= self.num
    }

    /// The exact comparison against an integer bound from above.
    pub fn le_int(&self, t: i64) -> (r: bool)
        requires
            self.wf_frac(),
            -2 * COORD_LIMIT <= t <= 2 * COORD_LIMIT,
        ensures
            r == self.spec_le_int(t),
    {
        proof {
            lemma_prod_in_i64(t as int, self.den as int);
        }
        self.num <= t * self.den
    }
}

/// A bound on a product from bounds on its factors.
pub proof fn lemma_prod_bound(a: int, b: int, ma: int, mb: int)
    requires
        -ma <= a <= ma,
        -mb <= b <= mb,
        0 <= ma,
        0 <= mb,
    ensures
        -(ma * mb) <= a * b <= ma * mb,
{
    assert(-(ma * mb) <= a * b <= ma * mb) by (nonlinear_arith)
        requires
            -ma <= a <= ma,
            -mb <= b <= mb,
            0 <= ma,
            0 <= mb,
    ;
}

/// A product of two factors within twice the coordinate limit fits in `i64`.
pub proof fn lemma_prod_in_i64(a: int, b: int)
    requires
        -2 * COORD_LIMIT <= a <= 2 * COORD_LIMIT,
        -2 * COORD_LIMIT <= b <= 2 * COORD_LIMIT,
    ensures
        -0x4000000000000000 <= a * b <= 0x4000000000000000,
{
    assert(-0x4000000000000000 <= a * b <= 0x4000000000000000) by (nonlinear_arith)
        requires
            -2 * COORD_LIMIT <= a <= 2 * COORD_LIMIT,
            -2 * COORD_LIMIT <= b <= 2 * COORD_LIMIT,
            COORD_LIMIT == 536870912,
    ;
}

/// A ray in three dimensions: an origin and a direction.
#[derive(Copy, Clone, Debug)]
pub struct Ray3d {
    pub origin: Point3d,
    pub direction: Direction3d,
}

/// A ray restricted to the closed parametric range `[range.0, range.1]`.
#[derive(Copy, Clone, Debug)]
pub struct ConstrainedRay3d {
    pub ray: Ray3d,
    pub range: (i64, i64),
}



/// A ray in two dimensions: an origin and a direction.
#[derive(Copy, Clone, Debug)]
pub struct Ray2d {
    pub origin: Point2d,
    pub direction: Direction2d,
}

/// A ray restricted to the closed parametric range `[range.0, range.1]`.
#[derive(Copy, Clone, Debug)]
pub struct ConstrainedRay2d {
    pub ray: Ray2d,
    pub range: (i64, i64),
}

/// The outcome of the ray/box slab test: no crossing within range, one
/// crossing (the origin lies inside the box), or entry and exit crossings
/// in ascending order.
#[derive(Copy, Clone, Debug)]
pub enum HitBoxResult {
    Miss,
    Inside(Frac),
    Outside(Frac, Frac),
}

impl ConstrainedRay2d {
    /// Coordinates and range bounds small enough for exact arithmetic.
    pub open spec fn wf_cray(self) -> bool {
        &&& coord_ok(self.ray.origin.x) && coord_ok(self.ray.origin.y)
        &&& coord_ok(self.ray.direction.x) && coord_ok(self.ray.direction.y)
        &&& -2 * COORD_LIMIT <= self.range.0 <= 2 * COORD_LIMIT
        &&& -2 * COORD_LIMIT <= self.range.1 <= 2 * COORD_LIMIT
    }
}

impl ConstrainedRay3d {
    /// Coordinates and range bounds small enough for exact arithmetic.
    pub open spec fn wf_cray(self) -> bool {
        &&& coord_ok(self.ray.origin.x) && coord_ok(self.ray.origin.y) && coord_ok(
            self.ray.origin.z,
        )
        &&& coord_ok(self.ray.direction.x) && coord_ok(self.ray.direction.y) && coord_ok(
            self.ray.direction.z,
        )
        &&& -2 * COORD_LIMIT <= self.range.0 <= 2 * COORD_LIMIT
        &&& -2 * COORD_LIMIT <= self.range.1 <= 2 * COORD_LIMIT
    }
}

impl BoundingBox2d {
    /// The origin coordinate of the ray on the given axis.
    pub open spec fn origin_at(cray: ConstrainedRay2d, axis: int) -> i64 {
        if axis == 0 {
            cray.ray.origin.x
        } else {
            cray.ray.origin.y
        }
    }

    /// The direction component of the ray on the given axis.
    pub open spec fn direction_at(cray: ConstrainedRay2d, axis: int) -> i64 {
        if axis == 0 {
            cray.ray.direction.x
        } else {
            cray.ray.direction.y
        }
    }

    /// The bounding plane of the box on the given axis and side.
    pub open spec fn plane_at(self, axis: int, side: int) -> i64 {
        if axis == 0 {
            if side == 0 {
                self.u.x
            } else {
                self.v.x
            }
        } else {
            if side == 0 {
                self.u.y
            } else {
                self.v.y
            }
        }
    }

    /// The parametric value at which the ray crosses the plane, as an exact
    /// rational with positive denominator.
    pub open spec fn crossing_frac(self, cray: ConstrainedRay2d, axis: int, side: int) -> Frac {
        let o = Self::origin_at(cray, axis);
        let d = Self::direction_at(cray, axis);
        let w = self.plane_at(axis, side);
        if d > 0 {
            Frac { num: (w - o) as i64, den: d }
        } else {
            Frac { num: (o - w) as i64, den: (-d) as i64 }
        }
    }

    /// Whether the crossing point's other coordinate lies within the box,
    /// scaled by the positive denominator to stay in integers.
    pub open spec fn proj_within(self, cray: ConstrainedRay2d, axis: int, f: Frac) -> bool {
        let o = Self::origin_at(cray, 1 - axis);
        let d = Self::direction_at(cray, 1 - axis);
        let lo = self.plane_at(1 - axis, 0);
        let hi = self.plane_at(1 - axis, 1);
        lo * f.den <= o * f.den + d * f.num && o * f.den + d * f.num <= hi * f.den
    }

    /// Whether the crossing on this axis and side is recorded: the direction
    /// is not parallel, the crossing point projects into the box, and the
    /// parametric value lies within the ray's range.
    pub open spec fn crossing_ok(self, cray: ConstrainedRay2d, axis: int, side: int) -> bool {
        let d = Self::direction_at(cray, axis);
        let f = self.crossing_frac(cray, axis, side);
        &&& d != 0
        &&& self.proj_within(cray, axis, f)
        &&& f.spec_ge_int(cray.range.0)
        &&& f.spec_le_int(cray.range.1)
    }

    /// The recorded crossing, as a sequence of zero or one values.
    pub open spec fn maybe_crossing(self, cray: ConstrainedRay2d, axis: int, side: int) -> Seq<
        Frac,
    > {
        if self.crossing_ok(cray, axis, side) {
            seq![self.crossing_frac(cray, axis, side)]
        } else {
            Seq::empty()
        }
    }

    /// All recorded crossings, in the order the axes and sides are scanned.
    pub open spec fn crossings(self, cray: ConstrainedRay2d) -> Seq<Frac> {
        self.maybe_crossing(cray, 0, 0) + self.maybe_crossing(cray, 0, 1) + self.maybe_crossing(
            cray,
            1,
            0,
        ) + self.maybe_crossing(cray, 1, 1)
    }

    /// The classification of the recorded crossings: none is a miss, one
    /// means the origin is inside the box, two are ordered ascending.
    pub open spec fn spec_hit(self, cray: ConstrainedRay2d) -> HitBoxResult {
        let cs = self.crossings(cray);
        if cs.len() == 0 {
            HitBoxResult::Miss
        } else if cs.len() == 1 {
            HitBoxResult::Inside(cs[0])
        } else {
            if cs[0].spec_lt(cs[1]) {
                HitBoxResult::Outside(cs[0], cs[1])
            } else {
                HitBoxResult::Outside(cs[1], cs[0])
            }
        }
    }

    /// One candidate crossing of the slab test, or nothing when it is not
    /// recorded.
    fn hit_candidate(&self, cray: &ConstrainedRay2d, axis: usize, side: usize) -> (r: Option<Frac>)
        requires
            self.wf_box(),
            cray.wf_cray(),
            axis <= 1,
            side <= 1,
        ensures
            r.is_some() == self.crossing_ok(*cray, axis as int, side as int),
            r matches Some(f) ==> f == self.crossing_frac(*cray, axis as int, side as int)
                && f.wf_frac(),
    {
        let o = if axis == 0 {
            cray.ray.origin.x
        } else {
            cray.ray.origin.y
        };
        let d = if axis == 0 {
            cray.ray.direction.x
        } else {
            cray.ray.direction.y
        };
        let w = if axis == 0 {
            if side == 0 {
                self.u.x
            } else {
                self.v.x
            }
        } else {
            if side == 0 {
                self.u.y
            } else {
                self.v.y
            }
        };
        if d == 0 {
            return None;
        }
        let num = if d > 0 {
            w - o
        } else {
            o - w
        };
        let den = if d > 0 {
            d
        } else {
            -d
        };

        let oo = if axis == 0 {
            cray.ray.origin.y
        } else {
            cray.ray.origin.x
        };
        let dd = if axis == 0 {
            cray.ray.direction.y
        } else {
            cray.ray.direction.x
        };
        let lo = if axis == 0 {
            self.u.y
        } else {
            self.u.x
        };
        let hi = if axis == 0 {
            self.v.y
        } else {
            self.v.x
        };
        proof {
            lemma_prod_bound(oo as int, den as int, COORD_LIMIT as int, COORD_LIMIT as int);
            lemma_prod_bound(dd as int, num as int, COORD_LIMIT as int, 2 * COORD_LIMIT as int);
            lemma_prod_in_i64(lo as int, den as int);
            lemma_prod_in_i64(hi as int, den as int);
            lemma_prod_in_i64(cray.range.0 as int, den as int);
            lemma_prod_in_i64(cray.range.1 as int, den as int);
        }
        let scaled = oo * den + dd * num;
        if !(lo * den <= scaled && scaled <= hi * den) {
            return None;
        }
        if !(cray.range.0 * den <= num && num <= cray.range.1 * den) {
            return None;
        }
        Some(Frac { num, den })
    }

    /// The slab test: classifies the crossings of the ray with the box's
    /// bounding planes within the ray's range. The scan can record more than
    /// two crossings only when the ray passes exactly through a corner; such
    /// rays are a fatal invariant violation, excluded here.
    pub fn is_hit_by_ray(&self, cray: &ConstrainedRay2d) -> (r: HitBoxResult)
        requires
            self.wf_box(),
            cray.wf_cray(),
            self.crossings(*cray).len() <= 2,
        ensures
            r == self.spec_hit(*cray),
            r matches HitBoxResult::Inside(f) ==> f.wf_frac(),
            r matches HitBoxResult::Outside(a, b) ==> a.wf_frac() && b.wf_frac(),
    {
        let mut result: Vec<Frac> = Vec::new();

        if let Some(f) = self.hit_candidate(cray, 0, 0) {
            result.push(f);
        }
        proof {
            assert(result@ =~= self.maybe_crossing(*cray, 0, 0));
        }
        if let Some(f) = self.hit_candidate(cray, 0, 1) {
            result.push(f);
        }
        proof {
            assert(result@ =~= self.maybe_crossing(*cray, 0, 0) + self.maybe_crossing(
                *cray,
                0,
                1,
            ));
        }
        if let Some(f) = self.hit_candidate(cray, 1, 0) {
            result.push(f);
        }
        proof {
            assert(result@ =~= self.maybe_crossing(*cray, 0, 0) + self.maybe_crossing(*cray, 0, 1)
                + self.maybe_crossing(*cray, 1, 0));
        }
        if let Some(f) = self.hit_candidate(cray, 1, 1) {
            result.push(f);
        }
        proof {
            assert(result@ =~= self.crossings(*cray));
            assert forall|k: int| 0 <= k < result@.len() implies (#[trigger] result@[k]).wf_frac() by {}
        }

        if result.len() == 0 {
            HitBoxResult::Miss
        } else if result.len() == 1 {
            HitBoxResult::Inside(result[0])
        } else {
            let x = result[0];
            let y = result[1];
            if x.lt(&y) {
                HitBoxResult::Outside(x, y)
            } else {
                HitBoxResult::Outside(y, x)
            }
        }
    }
}


impl BoundingBox3d {
    /// The origin coordinate of the ray on the given axis.
    pub open spec fn origin_at(cray: ConstrainedRay3d, axis: int) -> i64 {
        if axis == 0 {
            cray.ray.origin.x
        } else if axis == 1 {
            cray.ray.origin.y
        } else {
            cray.ray.origin.z
        }
    }

    /// The direction component of the ray on the given axis.
    pub open spec fn direction_at(cray: ConstrainedRay3d, axis: int) -> i64 {
        if axis == 0 {
            cray.ray.direction.x
        } else if axis == 1 {
            cray.ray.direction.y
        } else {
            cray.ray.direction.z
        }
    }

    /// The bounding plane of the box on the given axis and side.
    pub open spec fn plane_at(self, axis: int, side: int) -> i64 {
        if axis == 0 {
            if side == 0 {
                self.u.x
            } else {
                self.v.x
            }
        } else if axis == 1 {
            if side == 0 {
                self.u.y
            } else {
                self.v.y
            }
        } else {
            if side == 0 {
                self.u.z
            } else {
                self.v.z
            }
        }
    }

    /// The parametric value at which the ray crosses the plane, as an exact
    /// rational with positive denominator.
    pub open spec fn crossing_frac(self, cray: ConstrainedRay3d, axis: int, side: int) -> Frac {
        let o = Self::origin_at(cray, axis);
        let d = Self::direction_at(cray, axis);
        let w = self.plane_at(axis, side);
        if d > 0 {
            Frac { num: (w - o) as i64, den: d }
        } else {
            Frac { num: (o - w) as i64, den: (-d) as i64 }
        }
    }

    /// Whether the crossing point's coordinate on axis `j` lies within the
    /// box, scaled by the positive denominator to stay in integers.
    pub open spec fn coord_within(self, cray: ConstrainedRay3d, j: int, f: Frac) -> bool {
        let o = Self::origin_at(cray, j);
        let d = Self::direction_at(cray, j);
        let lo = self.plane_at(j, 0);
        let hi = self.plane_at(j, 1);
        lo * f.den <= o * f.den + d * f.num && o * f.den + d * f.num <= hi * f.den
    }

    /// Whether the crossing point projects into the box on both other axes.
    pub open spec fn proj_within(self, cray: ConstrainedRay3d, axis: int, f: Frac) -> bool {
        let j = if axis == 0 {
            1int
        } else {
            0int
        };
        let k = if axis == 2 {
            1int
        } else {
            2int
        };
        self.coord_within(cray, j, f) && self.coord_within(cray, k, f)
    }

    /// Whether the crossing on this axis and side is recorded: the direction
    /// is not parallel, the crossing point projects into the box, and the
    /// parametric value lies within the ray's range.
    pub open spec fn crossing_ok(self, cray: ConstrainedRay3d, axis: int, side: int) -> bool {
        let d = Self::direction_at(cray, axis);
        let f = self.crossing_frac(cray, axis, side);
        &&& d != 0
        &&& self.proj_within(cray, axis, f)
        &&& f.spec_ge_int(cray.range.0)
        &&& f.spec_le_int(cray.range.1)
    }

    /// The recorded crossing, as a sequence of zero or one values.
    pub open spec fn maybe_crossing(self, cray: ConstrainedRay3d, axis: int, side: int) -> Seq<
        Frac,
    > {
        if self.crossing_ok(cray, axis, side) {
            seq![self.crossing_frac(cray, axis, side)]
        } else {
            Seq::empty()
        }
    }

    /// All recorded crossings, in the order the axes and sides are scanned.
    pub open spec fn crossings(self, cray: ConstrainedRay3d) -> Seq<Frac> {
        self.maybe_crossing(cray, 0, 0) + self.maybe_crossing(cray, 0, 1) + self.maybe_crossing(
            cray,
            1,
            0,
        ) + self.maybe_crossing(cray, 1, 1) + self.maybe_crossing(cray, 2, 0)
            + self.maybe_crossing(cray, 2, 1)
    }

    /// The classification of the recorded crossings: none is a miss, one
    /// means the origin is inside the box, two are ordered ascending.
    pub open spec fn spec_hit(self, cray: ConstrainedRay3d) -> HitBoxResult {
        let cs = self.crossings(cray);
        if cs.len() == 0 {
            HitBoxResult::Miss
        } else if cs.len() == 1 {
            HitBoxResult::Inside(cs[0])
        } else {
            if cs[0].spec_lt(cs[1]) {
                HitBoxResult::Outside(cs[0], cs[1])
            } else {
                HitBoxResult::Outside(cs[1], cs[0])
            }
        }
    }

    /// The coordinate of the box corner on the given axis, read executably.
    fn plane(&self, axis: usize, side: usize) -> (w: i64)
        requires
            axis <= 2,
            side <= 1,
        ensures
            w == self.plane_at(axis as int, side as int),
    {
        if axis == 0 {
            if side == 0 {
                self.u.x
            } else {
                self.v.x
            }
        } else if axis == 1 {
            if side == 0 {
                self.u.y
            } else {
                self.v.y
            }
        } else {
            if side == 0 {
                self.u.z
            } else {
                self.v.z
            }
        }
    }

    /// Whether the crossing point's coordinate on axis `j` lies within the
    /// box, by exact scaled comparison.
    fn check_coord(&self, cray: &ConstrainedRay3d, j: usize, f: &Frac) -> (r: bool)
        requires
            self.wf_box(),
            cray.wf_cray(),
            j <= 2,
            f.wf_frac(),
        ensures
            r == self.coord_within(*cray, j as int, *f),
    {
        let o = if j == 0 {
            cray.ray.origin.x
        } else if j == 1 {
            cray.ray.origin.y
        } else {
            cray.ray.origin.z
        };
        let d = if j == 0 {
            cray.ray.direction.x
        } else if j == 1 {
            cray.ray.direction.y
        } else {
            cray.ray.direction.z
        };
        let lo = self.plane(j, 0);
        let hi = self.plane(j, 1);
        proof {
            lemma_prod_bound(o as int, f.den as int, COORD_LIMIT as int, 2 * COORD_LIMIT as int);
            lemma_prod_bound(
                d as int,
                f.num as int,
                COORD_LIMIT as int,
                2 * COORD_LIMIT as int,
            );
            lemma_prod_in_i64(lo as int, f.den as int);
            lemma_prod_in_i64(hi as int, f.den as int);
        }
        let scaled = o * f.den + d * f.num;
        lo * f.den <= scaled && scaled <= hi * f.den
    }

    /// One candidate crossing of the slab test, or nothing when it is not
    /// recorded.
    pub(crate) fn hit_candidate(&self, cray: &ConstrainedRay3d, axis: usize, side: usize) -> (r:
        Option<Frac>)
        requires
            self.wf_box(),
            cray.wf_cray(),
            axis <= 2,
            side <= 1,
        ensures
            r.is_some() == self.crossing_ok(*cray, axis as int, side as int),
            r matches Some(f) ==> f == self.crossing_frac(*cray, axis as int, side as int)
                && f.wf_frac(),
    {
        let o = if axis == 0 {
            cray.ray.origin.x
        } else if axis == 1 {
            cray.ray.origin.y
        } else {
            cray.ray.origin.z
        };
        let d = if axis == 0 {
            cray.ray.direction.x
        } else if axis == 1 {
            cray.ray.direction.y
        } else {
            cray.ray.direction.z
        };
        let w = self.plane(axis, side);
        if d == 0 {
            return None;
        }
        let num = if d > 0 {
            w - o
        } else {
            o - w
        };
        let den = if d > 0 {
            d
        } else {
            -d
        };
        let f = Frac { num, den };

        let j = if axis == 0 {
            1
        } else {
            0
        };
        let k = if axis == 2 {
            1
        } else {
            2
        };
        if !self.check_coord(cray, j, &f) {
            return None;
        }
        if !self.check_coord(cray, k, &f) {
            return None;
        }
        proof {
            lemma_prod_in_i64(cray.range.0 as int, den as int);
            lemma_prod_in_i64(cray.range.1 as int, den as int);
        }
        if !(cray.range.0 * den <= num && num <= cray.range.1 * den) {
            return None;
        }
        Some(f)
    }

    /// The crossing parameter of the ray with one bounding plane, for a
    /// non-parallel axis, whether or not the slab test records it.
    pub(crate) fn crossing_frac_at(&self, cray: &ConstrainedRay3d, axis: usize, side: usize) -> (f:
        Frac)
        requires
            self.wf_box(),
            cray.wf_cray(),
            axis <= 2,
            side <= 1,
            Self::direction_at(*cray, axis as int) != 0,
        ensures
            f == self.crossing_frac(*cray, axis as int, side as int),
            f.wf_frac(),
    {
        let o = if axis == 0 {
            cray.ray.origin.x
        } else if axis == 1 {
            cray.ray.origin.y
        } else {
            cray.ray.origin.z
        };
        let d = if axis == 0 {
            cray.ray.direction.x
        } else if axis == 1 {
            cray.ray.direction.y
        } else {
            cray.ray.direction.z
        };
        let w = self.plane(axis, side);
        if d > 0 {
            Frac { num: w - o, den: d }
        } else {
            Frac { num: o - w, den: -d }
        }
    }

    /// Counts the recorded crossings of the ray with the box's bounding
    /// planes, with no cap; it decides whether the slab test is well defined.
    pub(crate) fn count_crossings(&self, cray: &ConstrainedRay3d) -> (n: usize)
        requires
            self.wf_box(),
            cray.wf_cray(),
        ensures
            n == self.crossings(*cray).len(),
    {
        let mut n: usize = 0;
        if self.hit_candidate(cray, 0, 0).is_some() {
            n += 1;
        }
        proof {
            assert(self.maybe_crossing(*cray, 0, 0).len() == n);
        }
        if self.hit_candidate(cray, 0, 1).is_some() {
            n += 1;
        }
        proof {
            assert(self.maybe_crossing(*cray, 0, 0).len() + self.maybe_crossing(
                *cray,
                0,
                1,
            ).len() == n);
        }
        if self.hit_candidate(cray, 1, 0).is_some() {
            n += 1;
        }
        proof {
            assert(self.maybe_crossing(*cray, 0, 0).len() + self.maybe_crossing(*cray, 0, 1).len()
                + self.maybe_crossing(*cray, 1, 0).len() == n);
        }
        if self.hit_candidate(cray, 1, 1).is_some() {
            n += 1;
        }
        proof {
            assert(self.maybe_crossing(*cray, 0, 0).len() + self.maybe_crossing(*cray, 0, 1).len()
                + self.maybe_crossing(*cray, 1, 0).len() + self.maybe_crossing(
                *cray,
                1,
                1,
            ).len() == n);
        }
        if self.hit_candidate(cray, 2, 0).is_some() {
            n += 1;
        }
        proof {
            assert(self.maybe_crossing(*cray, 0, 0).len() + self.maybe_crossing(*cray, 0, 1).len()
                + self.maybe_crossing(*cray, 1, 0).len() + self.maybe_crossing(*cray, 1, 1).len()
                + self.maybe_crossing(*cray, 2, 0).len() == n);
        }
        if self.hit_candidate(cray, 2, 1).is_some() {
            n += 1;
        }
        proof {
            assert(self.crossings(*cray).len() == n);
        }
        n
    }

    /// The slab test: classifies the crossings of the ray with the box's
    /// bounding planes within the ray's range. The scan can record more than
    /// two crossings only when the ray passes exactly through a corner or an
    /// edge; such rays are a fatal invariant violation, excluded here.
    pub fn is_hit_by_ray(&self, cray: &ConstrainedRay3d) -> (r: HitBoxResult)
        requires
            self.wf_box(),
            cray.wf_cray(),
            self.crossings(*cray).len() <= 2,
        ensures
            r == self.spec_hit(*cray),
            r matches HitBoxResult::Inside(f) ==> f.wf_frac(),
            r matches HitBoxResult::Outside(a, b) ==> a.wf_frac() && b.wf_frac(),
    {
        let mut result: Vec<Frac> = Vec::new();

        if let Some(f) = self.hit_candidate(cray, 0, 0) {
            result.push(f);
        }
        proof {
            assert(result@ =~= self.maybe_crossing(*cray, 0, 0));
        }
        if let Some(f) = self.hit_candidate(cray, 0, 1) {
            result.push(f);
        }
        proof {
            assert(result@ =~= self.maybe_crossing(*cray, 0, 0) + self.maybe_crossing(
                *cray,
                0,
                1,
            ));
        }
        if let Some(f) = self.hit_candidate(cray, 1, 0) {
            result.push(f);
        }
        proof {
            assert(result@ =~= self.maybe_crossing(*cray, 0, 0) + self.maybe_crossing(*cray, 0, 1)
                + self.maybe_crossing(*cray, 1, 0));
        }
        if let Some(f) = self.hit_candidate(cray, 1, 1) {
            result.push(f);
        }
        proof {
            assert(result@ =~= self.maybe_crossing(*cray, 0, 0) + self.maybe_crossing(*cray, 0, 1)
                + self.maybe_crossing(*cray, 1, 0) + self.maybe_crossing(*cray, 1, 1));
        }
        if let Some(f) = self.hit_candidate(cray, 2, 0) {
            result.push(f);
        }
        proof {
            assert(result@ =~= self.maybe_crossing(*cray, 0, 0) + self.maybe_crossing(*cray, 0, 1)
                + self.maybe_crossing(*cray, 1, 0) + self.maybe_crossing(*cray, 1, 1)
                + self.maybe_crossing(*cray, 2, 0));
        }
        if let Some(f) = self.hit_candidate(cray, 2, 1) {
            result.push(f);
        }
        proof {
            assert(result@ =~= self.crossings(*cray));
            assert forall|q: int| 0 <= q < result@.len() implies (#[trigger] result@[q]).wf_frac()
                by {}
        }

        if result.len() == 0 {
            HitBoxResult::Miss
        } else if result.len() == 1 {
            HitBoxResult::Inside(result[0])
        } else {
            let x = result[0];
            let y = result[1];
            if x.lt(&y) {
                HitBoxResult::Outside(x, y)
            } else {
                HitBoxResult::Outside(y, x)
            }
        }
    }
}


impl Ray3d {
    pub fn new(origin: Point3d, direction: Direction3d) -> (r: Self)
        ensures
            r == (Ray3d { origin, direction }),
    {
        Self { origin, direction }
    }

    /// The point reached after travelling `t` steps of the direction.
    pub fn at(&self, t: i64) -> (p: Point3d)
        requires
            self.direction.scale_ok(t),
            self.direction.spec_scaled(t).add_ok(self.origin),
        ensures
            p == self.direction.spec_scaled(t).spec_sum(self.origin),
    {
        self.direction.scale(t).add_v(&self.origin)
    }
}

impl Ray2d {
    pub fn new(origin: Point2d, direction: Direction2d) -> (r: Self)
        ensures
            r == (Ray2d { origin, direction }),
    {
        Self { origin, direction }
    }

    /// The point reached after travelling `t` steps of the direction.
    pub fn at(&self, t: i64) -> (p: Point2d)
        requires
            self.direction.scale_ok(t),
            self.direction.spec_scaled(t).add_ok(self.origin),
        ensures
            p == self.direction.spec_scaled(t).spec_sum(self.origin),
    {
        self.direction.scale(t).add_v(&self.origin)
    }

    /// The perpendicular bisector ray of two points: it starts at their
    /// midpoint (componentwise truncating halves) and runs along the segment
    /// turned by a quarter turn.
    pub fn get_ray_between_points(p1: &Point2d, p2: &Point2d) -> (r: Ray2d)
        requires
            coord_ok(p1.x),
            coord_ok(p1.y),
            coord_ok(p2.x),
            coord_ok(p2.y),
        ensures
            r.direction == (Vec2 {
                x: p2.y.spec_diff(p1.y).spec_negated(),
                y: p2.x.spec_diff(p1.x),
            }),
            r.origin == (Vec2 {
                x: p1.x.spec_sum(p2.x).spec_quot(2),
                y: p1.y.spec_sum(p2.y).spec_quot(2),
            }),
    {
        let rot90 = Mat2d::new_rot90();
        let direction = rot90.mul_vec(&p2.sub_v(p1));
        let origin = p1.add_v(p2).div_scale(2);
        Ray2d { origin, direction }
    }

    /// The determinant of the two directions; the rays are parallel exactly
    /// when it vanishes.
    pub open spec fn spec_det(self, other: Ray2d) -> int {
        self.direction.x * other.direction.y - self.direction.y * other.direction.x
    }

    /// The parametric position along `self` of the crossing with `other`,
    /// as an exact rational with positive denominator.
    pub open spec fn spec_intersection(self, other: Ray2d) -> Frac {
        let det = self.spec_det(other);
        let s = other.direction.y * (other.origin.x - self.origin.x) - other.direction.x * (
        other.origin.y - self.origin.y);
        if det > 0 {
            Frac { num: s as i64, den: det as i64 }
        } else {
            Frac { num: (-s) as i64, den: (-det) as i64 }
        }
    }

    /// Where this ray meets another: the exact parametric value along
    /// `self`, or nothing exactly when the rays are parallel.
    pub fn get_intersection(self: &Ray2d, other: &Ray2d) -> (r: Option<Frac>)
        requires
            coord_ok(self.origin.x),
            coord_ok(self.origin.y),
            coord_ok(self.direction.x),
            coord_ok(self.direction.y),
            coord_ok(other.origin.x),
            coord_ok(other.origin.y),
            coord_ok(other.direction.x),
            coord_ok(other.direction.y),
        ensures
            r.is_some() == (self.spec_det(*other) != 0),
            r matches Some(f) ==> f == self.spec_intersection(*other) && f.den > 0,
    {
        proof {
            lemma_prod_bound(
                self.direction.x as int,
                other.direction.y as int,
                COORD_LIMIT as int,
                COORD_LIMIT as int,
            );
            lemma_prod_bound(
                self.direction.y as int,
                other.direction.x as int,
                COORD_LIMIT as int,
                COORD_LIMIT as int,
            );
        }
        let det = self.direction.x * other.direction.y - self.direction.y * other.direction.x;

        if det == 0 {
            return None;
        }

        let dif = other.origin.sub_v(&self.origin);
        proof {
            lemma_prod_bound(
                other.direction.y as int,
                dif.x as int,
                COORD_LIMIT as int,
                2 * COORD_LIMIT as int,
            );
            lemma_prod_bound(
                other.direction.x as int,
                dif.y as int,
                COORD_LIMIT as int,
                2 * COORD_LIMIT as int,
            );
        }
        let s = other.direction.y * dif.x - other.direction.x * dif.y;
        if det > 0 {
            Some(Frac { num: s, den: det })
        } else {
            Some(Frac { num: -s, den: -det })
        }
    }
}

} // verus!
