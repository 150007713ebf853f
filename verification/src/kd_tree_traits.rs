//! The box capability the tree is generic over, and the content capability.
//!
//! [`BoundingBoxTrait`] describes an enclosure type by its point set
//! (`covers`): overlap is the existence of a shared point, containment the
//! inclusion of point sets, and `partition` tiles a box exactly by two smaller
//! boxes. Two measures found the tree's recursions: `measure` shrinks along
//! every child edge, and `grow_fuel` shrinks with every root growth.

use crate::ray_box::{
    BoundingBox2d, BoundingBox3d, ConstrainedRay3d, HitBoxResult, Point2d, Point3d, COORD_LIMIT,
    MAX_GROW_DIAG_SQ,
};
use crate::ray_box::{
    lemma_box_nonempty_2d, lemma_box_nonempty_3d, lemma_inside_iff_all_pts_2d,
    lemma_inside_iff_all_pts_3d, lemma_prod_bound,
};
use crate::vec2::Vec2;
use crate::vec3::Vec3;
use vstd::prelude::*;

verus! {

/// The capability set an enclosure type supplies to the tree, one
/// implementation per dimensionality.
pub trait BoundingBoxTrait: Sized {
    /// The point type the box is a set of.
    type Pt;

    /// Validity of a box value.
    spec fn wf(&self) -> bool;

    /// The point set of the box.
    spec fn covers(&self, p: Self::Pt) -> bool;

    /// A size measure that strictly shrinks from a box to either part of its
    /// partition, and from a grown box back to what it grew from.
    spec fn measure(&self) -> nat;

    /// Fuel that every growth step strictly burns; growth stops at a ceiling.
    spec fn grow_fuel(&self) -> nat;

    /// Whether `partition` succeeds.
    spec fn can_partition(&self) -> bool;

    /// The pair of halves that `partition` returns when it succeeds.
    spec fn spec_partition(&self) -> (Self, Self);

    /// Whether `extend` succeeds.
    spec fn can_extend(&self) -> bool;

    /// The pair `(sibling, parent)` that `extend` returns when it succeeds.
    spec fn spec_extend(&self) -> (Self, Self);

    /// The "not larger than" comparison used as the splitting gate.
    spec fn spec_sub_scale(&self, other: &Self) -> bool;

    /// Every valid box holds at least one point.
    proof fn lemma_nonempty(&self)
        requires
            self.wf(),
        ensures
            exists|p: Self::Pt| self.covers(p),
    ;

    /// Growth burns fuel: the grown parent is strictly closer to the ceiling.
    proof fn lemma_extend_fuel(&self)
        requires
            self.can_extend(),
        ensures
            self.spec_extend().1.grow_fuel() < self.grow_fuel(),
    ;

    /// A box the growth heuristic keeps well-behaved, so that growth from it
    /// is guaranteed to reach any valid target within a window; the default
    /// box is one, and growth preserves the property.
    spec fn grow_ready(&self) -> bool;

    /// Growth preserves well-behavedness.
    proof fn lemma_extend_grow_ready(&self)
        requires
            self.grow_ready(),
            self.can_extend(),
        ensures
            self.spec_extend().1.grow_ready(),
    ;

    /// The default box is well-behaved for growth.
    proof fn lemma_default_grow_ready()
        ensures
            Self::spec_default_box().grow_ready(),
    ;

    /// Splits the box into two valid boxes that tile it exactly.
    fn partition(&self) -> (r: Option<(Self, Self)>)
        requires
            self.wf(),
        ensures
            r.is_some() == self.can_partition(),
            r matches Some((a, b)) ==> {
                &&& (a, b) == self.spec_partition()
                &&& a.wf() && b.wf()
                &&& a.measure() < self.measure()
                &&& b.measure() < self.measure()
                &&& forall|p: Self::Pt| self.covers(p) <==> a.covers(p) || b.covers(p)
            },
    ;

    /// Grows the box along its narrowest axis, returning the newly exposed
    /// sibling region and the enlarged parent that the two tile exactly.
    fn extend(&self) -> (r: Option<(Self, Self)>)
        requires
            self.wf(),
        ensures
            r.is_some() == self.can_extend(),
            r matches Some((o, par)) ==> {
                &&& (o, par) == self.spec_extend()
                &&& o.wf() && par.wf()
                &&& o.measure() < par.measure()
                &&& self.measure() < par.measure()
                &&& forall|p: Self::Pt| par.covers(p) <==> self.covers(p) || o.covers(p)
            },
    ;

    /// Whether every point of `self` is a point of `other`.
    fn is_contained(&self, other: &Self) -> (r: bool)
        requires
            self.wf(),
            other.wf(),
        ensures
            r == forall|p: Self::Pt| self.covers(p) ==> other.covers(p),
    ;

    /// Whether the two boxes share a point.
    fn intersects(&self, other: &Self) -> (r: bool)
        requires
            self.wf(),
            other.wf(),
        ensures
            r == exists|p: Self::Pt| self.covers(p) && other.covers(p),
    ;

    /// The splitting gate: whether `self` is not larger than `other`.
    fn is_sub_scale(&self, other: &Self) -> (r: bool)
        requires
            self.wf(),
            other.wf(),
        ensures
            r == self.spec_sub_scale(other),
    ;

    /// The box a fresh tree root encloses, as a specification-level value.
    spec fn spec_default_box() -> Self;

    /// The box a fresh tree root encloses.
    fn default_box() -> (r: Self)
        ensures
            r == Self::spec_default_box(),
            r.wf(),
    ;
}

/// A type the tree can hold: it reports its own bounding box, duplicates
/// faithfully, and decides equality, which the overlap query uses to
/// deduplicate its result.
pub trait KdTreeContent<B: BoundingBoxTrait>: Sized {
    /// The bounding box, as a specification-level value.
    spec fn spec_bounding_box(&self) -> B;

    fn get_bounding_box(&self) -> (r: B)
        ensures
            r == self.spec_bounding_box(),
    ;

    /// A faithful copy; contents are expected to be cheap to duplicate.
    fn duplicate(&self) -> (r: Self)
        ensures
            r == *self,
    ;

    /// Decides equality of contents.
    fn equals(&self, other: &Self) -> (r: bool)
        ensures
            r == (*self == *other),
    ;
}

/// An enclosure that can additionally classify a constrained ray against
/// itself, for the nearest-hit query.
pub trait HittableBoundingBoxTrait: BoundingBoxTrait {
    /// Whether the slab test is well defined for this box and ray: at most
    /// two crossings are recorded. More arise only when the ray runs exactly
    /// through a corner or an edge, a fatal invariant violation.
    spec fn hit_ok(&self, cray: ConstrainedRay3d) -> bool;

    /// The classification the slab test returns.
    spec fn spec_hit_res(&self, cray: ConstrainedRay3d) -> HitBoxResult;

    /// The point the ray reaches after `t` whole steps of its direction.
    spec fn ray_pt(cray: ConstrainedRay3d, t: i64) -> Self::Pt;

    /// Whether the slab test prunes soundly on this box for this ray: a ray
    /// point inside the box within range is never classified a miss, and an
    /// entry crossing never lies beyond such a point. This fails only for
    /// rays whose in-range segment starts or ends strictly inside the box
    /// with no crossing left in range.
    spec fn hit_faithful(&self, cray: ConstrainedRay3d) -> bool;

    /// What pruning soundness means, usable by the tree's search proof.
    proof fn lemma_hit_faithful(&self, cray: ConstrainedRay3d, t: i64)
        requires
            self.hit_faithful(cray),
            cray.range.0 <= t <= cray.range.1,
            self.covers(Self::ray_pt(cray, t)),
        ensures
            !(self.spec_hit_res(cray) is Miss),
            self.spec_hit_res(cray) matches HitBoxResult::Outside(near, far) ==> near.spec_le_int(
                t,
            ),
    ;

    fn hit(&self, ray: &ConstrainedRay3d) -> (r: HitBoxResult)
        requires
            self.wf(),
            ray.wf_cray(),
            self.hit_ok(*ray),
        ensures
            r == self.spec_hit_res(*ray),
            r matches HitBoxResult::Inside(f) ==> f.wf_frac(),
            r matches HitBoxResult::Outside(a, b) ==> a.wf_frac() && b.wf_frac(),
    ;

    /// Decides whether the slab test is well defined for this box and ray,
    /// so that callers of the nearest-hit query can establish its
    /// precondition.
    fn hit_ok_check(&self, ray: &ConstrainedRay3d) -> (r: bool)
        requires
            self.wf(),
            ray.wf_cray(),
        ensures
            r == self.hit_ok(*ray),
    ;

    /// A sufficient executable test for pruning soundness of the slab test
    /// on this box and ray; a `true` answer establishes `hit_faithful`.
    fn hit_faithful_check(&self, ray: &ConstrainedRay3d) -> (r: bool)
        requires
            self.wf(),
            ray.wf_cray(),
            self.hit_ok(*ray),
        ensures
            r ==> self.hit_faithful(*ray),
    ;
}

impl HittableBoundingBoxTrait for BoundingBox3d {
    open spec fn hit_ok(&self, cray: ConstrainedRay3d) -> bool {
        self.crossings(cray).len() <= 2
    }

    open spec fn spec_hit_res(&self, cray: ConstrainedRay3d) -> HitBoxResult {
        self.spec_hit(cray)
    }

    open spec fn ray_pt(cray: ConstrainedRay3d, t: i64) -> Point3d {
        Vec3 {
            x: (cray.ray.origin.x + cray.ray.direction.x * t) as i64,
            y: (cray.ray.origin.y + cray.ray.direction.y * t) as i64,
            z: (cray.ray.origin.z + cray.ray.direction.z * t) as i64,
        }
    }

    open spec fn hit_faithful(&self, cray: ConstrainedRay3d) -> bool {
        forall|t: i64|
            cray.range.0 <= t <= cray.range.1 && self.covers_pt(
                #[trigger] Self::ray_pt(cray, t),
            ) ==> !(self.spec_hit(cray) is Miss) && (self.spec_hit(cray) matches
                HitBoxResult::Outside(near, far) ==> near.spec_le_int(t))
    }

    proof fn lemma_hit_faithful(&self, cray: ConstrainedRay3d, t: i64) {
        assert(self.covers_pt(Self::ray_pt(cray, t)));
    }

    fn hit(&self, ray: &ConstrainedRay3d) -> (r: HitBoxResult) {
        self.is_hit_by_ray(&ray)
    }

    fn hit_ok_check(&self, ray: &ConstrainedRay3d) -> (r: bool) {
        let n = self.count_crossings(ray);
        n <= 2
    }

    fn hit_faithful_check(&self, ray: &ConstrainedRay3d) -> (r: bool) {
        let c00 = self.hit_candidate(ray, 0, 0);
        let c01 = self.hit_candidate(ray, 0, 1);
        let c10 = self.hit_candidate(ray, 1, 0);
        let c11 = self.hit_candidate(ray, 1, 1);
        let c20 = self.hit_candidate(ray, 2, 0);
        let c21 = self.hit_candidate(ray, 2, 1);
        let mut n: usize = 0;
        if c00.is_some() {
            n += 1;
        }
        if c01.is_some() {
            n += 1;
        }
        if c10.is_some() {
            n += 1;
        }
        if c11.is_some() {
            n += 1;
        }
        if c20.is_some() {
            n += 1;
        }
        if c21.is_some() {
            n += 1;
        }

        if n == 0 {
            // a miss prunes soundly when a direction-parallel axis separates
            // the ray from the box outright, or when some axis slab lies
            // entirely before or after the ray's range
            let sep = (ray.ray.direction.x == 0 && (ray.ray.origin.x < self.u.x
                || ray.ray.origin.x > self.v.x)) || (ray.ray.direction.y == 0 && (ray.ray.origin.y
                < self.u.y || ray.ray.origin.y > self.v.y)) || (ray.ray.direction.z == 0 && (
            ray.ray.origin.z < self.u.z || ray.ray.origin.z > self.v.z));
            proof {
                if sep {
                    lemma_separated_axis_faithful_3d(*self, *ray);
                }
            }
            if sep {
                return true;
            }
            let mut axis: usize = 0;
            while axis <= 2
                invariant
                    self.wf_box(),
                    ray.wf_cray(),
                    axis <= 3,
                decreases 3 - axis,
            {
                let d = if axis == 0 {
                    ray.ray.direction.x
                } else if axis == 1 {
                    ray.ray.direction.y
                } else {
                    ray.ray.direction.z
                };
                if d != 0 {
                    let f0 = self.crossing_frac_at(ray, axis, 0);
                    let f1 = self.crossing_frac_at(ray, axis, 1);
                    let before = !f0.ge_int(ray.range.0) && !f1.ge_int(ray.range.0);
                    let beyond = !f0.le_int(ray.range.1) && !f1.le_int(ray.range.1);
                    if before || beyond {
                        proof {
                            lemma_range_separated_faithful_3d(*self, *ray, axis as int);
                        }
                        return true;
                    }
                }
                axis += 1;
            }
            false
        } else if n == 1 {
            proof {
                assert(self.crossings(*ray).len() == 1);
                assert(self.spec_hit(*ray) is Inside);
                assert(self.hit_faithful(*ray));
            }
            true
        } else if n == 2 {
            let same_axis = (c00.is_some() && c01.is_some()) || (c10.is_some() && c11.is_some())
                || (c20.is_some() && c21.is_some());
            proof {
                if same_axis {
                    if c00.is_some() && c01.is_some() {
                        assert(self.crossings(*ray) =~= seq![
                            self.crossing_frac(*ray, 0, 0),
                            self.crossing_frac(*ray, 0, 1),
                        ]);
                        lemma_same_axis_pair_faithful_3d(*self, *ray, 0);
                    } else if c10.is_some() && c11.is_some() {
                        assert(self.crossings(*ray) =~= seq![
                            self.crossing_frac(*ray, 1, 0),
                            self.crossing_frac(*ray, 1, 1),
                        ]);
                        lemma_same_axis_pair_faithful_3d(*self, *ray, 1);
                    } else {
                        assert(self.crossings(*ray) =~= seq![
                            self.crossing_frac(*ray, 2, 0),
                            self.crossing_frac(*ray, 2, 1),
                        ]);
                        lemma_same_axis_pair_faithful_3d(*self, *ray, 2);
                    }
                }
            }
            same_axis
        } else {
            false
        }
    }
}

impl BoundingBox2d {
    /// Whether the narrowest axis is the x axis, by the comparison chain the
    /// growth code uses; on equal extents the later axis is chosen.
    pub open spec fn narrow_is_x(self) -> bool {
        self.v.x - self.u.x < self.v.y - self.u.y
    }

    /// Whether growth goes toward the negative side: the box extends less
    /// past the origin there than on the positive side.
    pub open spec fn grows_down(self, left: i64, right: i64) -> bool {
        let lc: i64 = if left < 0 {
            left
        } else {
            0
        };
        let rc: i64 = if right > 0 {
            right
        } else {
            0
        };
        -lc < rc
    }

    /// The pair of halves splitting produces: the box cut at the integer
    /// midpoint of its widest axis; on equal extents the comparison chain
    /// picks the later axis.
    pub open spec fn spec_partition2(self) -> (Self, Self) {
        let dx = self.v.x - self.u.x;
        let dy = self.v.y - self.u.y;
        if dx > dy {
            let midpoint = (self.u.x + dx / 2) as i64;
            (
                BoundingBox2d { u: self.u, v: Vec2 { x: midpoint, y: self.v.y } },
                BoundingBox2d { u: Vec2 { x: midpoint, y: self.u.y }, v: self.v },
            )
        } else {
            let midpoint = (self.u.y + dy / 2) as i64;
            (
                BoundingBox2d { u: self.u, v: Vec2 { x: self.v.x, y: midpoint } },
                BoundingBox2d { u: Vec2 { x: self.u.x, y: midpoint }, v: self.v },
            )
        }
    }

    /// The `(sibling, parent)` pair growth produces.
    pub open spec fn spec_extend2(self) -> (Self, Self) {
        if self.narrow_is_x() {
            let dif = (self.v.x - self.u.x) as i64;
            if self.grows_down(self.u.x, self.v.x) {
                let sib = BoundingBox2d {
                    u: Vec2 { x: (self.u.x - dif) as i64, y: self.u.y },
                    v: Vec2 { x: (self.v.x - dif) as i64, y: self.v.y },
                };
                (sib, BoundingBox2d { u: sib.u, v: self.v })
            } else {
                let sib = BoundingBox2d {
                    u: Vec2 { x: (self.u.x + dif) as i64, y: self.u.y },
                    v: Vec2 { x: (self.v.x + dif) as i64, y: self.v.y },
                };
                (sib, BoundingBox2d { u: self.u, v: sib.v })
            }
        } else {
            let dif = (self.v.y - self.u.y) as i64;
            if self.grows_down(self.u.y, self.v.y) {
                let sib = BoundingBox2d {
                    u: Vec2 { x: self.u.x, y: (self.u.y - dif) as i64 },
                    v: Vec2 { x: self.v.x, y: (self.v.y - dif) as i64 },
                };
                (sib, BoundingBox2d { u: sib.u, v: self.v })
            } else {
                let sib = BoundingBox2d {
                    u: Vec2 { x: self.u.x, y: (self.u.y + dif) as i64 },
                    v: Vec2 { x: self.v.x, y: (self.v.y + dif) as i64 },
                };
                (sib, BoundingBox2d { u: self.u, v: sib.v })
            }
        }
    }

    /// Whether growth is possible: the diagonal is under the ceiling, the
    /// chosen axis has positive extent (so growth makes progress), and the
    /// grown box stays within the coordinate range.
    pub open spec fn can_extend2(self) -> bool {
        &&& self.diag_sq() <= MAX_GROW_DIAG_SQ
        &&& (if self.narrow_is_x() {
            self.v.x - self.u.x >= 1
        } else {
            self.v.y - self.u.y >= 1
        })
        &&& self.spec_extend2().0.wf_box()
    }

    fn get_most_narrow_dimension(&self) -> (d: usize)
        requires
            self.wf_box(),
        ensures
            (d == 0) == self.narrow_is_x(),
            d <= 1,
    {
        let dif = self.v.sub_v(&self.u);

        if dif.x < dif.y {
            0
        } else {
            1
        }
    }

    fn get_widest_dimension(&self) -> (d: usize)
        requires
            self.wf_box(),
        ensures
            d == 0 ==> self.v.x - self.u.x > self.v.y - self.u.y,
            d == 1 ==> self.v.x - self.u.x <= self.v.y - self.u.y,
            d <= 1,
    {
        let dif = self.v.sub_v(&self.u);

        if dif.x > dif.y {
            0
        } else {
            1
        }
    }
}

impl BoundingBoxTrait for BoundingBox2d {
    type Pt = Point2d;

    open spec fn wf(&self) -> bool {
        self.wf_box()
    }

    open spec fn covers(&self, p: Point2d) -> bool {
        self.covers_pt(p)
    }

    open spec fn measure(&self) -> nat {
        self.box_measure()
    }

    open spec fn grow_fuel(&self) -> nat {
        self.grow_fuel_spec()
    }

    open spec fn can_partition(&self) -> bool {
        self.v.x - self.u.x >= 2 || self.v.y - self.u.y >= 2
    }

    open spec fn spec_partition(&self) -> (Self, Self) {
        self.spec_partition2()
    }

    open spec fn spec_default_box() -> Self {
        BoundingBox2d { u: Vec2 { x: 0i64, y: 0i64 }, v: Vec2 { x: 1i64, y: 1i64 } }
    }

    open spec fn can_extend(&self) -> bool {
        self.can_extend2()
    }

    open spec fn spec_extend(&self) -> (Self, Self) {
        self.spec_extend2()
    }

    open spec fn spec_sub_scale(&self, other: &Self) -> bool {
        self.diag_sq() <= other.diag_sq()
    }

    proof fn lemma_nonempty(&self) {
        lemma_box_nonempty_2d(*self);
        assert(self.covers(self.u));
    }

    proof fn lemma_extend_fuel(&self) {
        let (sib, par) = self.spec_extend2();
        let dx = self.v.x - self.u.x;
        let dy = self.v.y - self.u.y;
        let d: int = if self.narrow_is_x() {
            dx
        } else {
            dy
        };
        assert((2 * d) * (2 * d) == 4 * (d * d)) by (nonlinear_arith);
        assert(d * d >= 1) by (nonlinear_arith)
            requires
                d >= 1,
        ;
        assert(dx * dx >= 0 && dy * dy >= 0) by (nonlinear_arith);
        assert(par.diag_sq() == self.diag_sq() + 3 * (d * d));
        assert(d * d <= self.diag_sq());
    }

    open spec fn grow_ready(&self) -> bool {
        let ex = self.v.x - self.u.x;
        let ey = self.v.y - self.u.y;
        let mx: int = if -self.u.x <= self.v.x {
            -self.u.x
        } else {
            self.v.x as int
        };
        let my: int = if -self.u.y <= self.v.y {
            -self.u.y
        } else {
            self.v.y as int
        };
        &&& self.wf_box()
        &&& self.u.x <= 0 <= self.v.x
        &&& self.u.y <= 0 <= self.v.y
        &&& 1 <= ex && 1 <= ey
        &&& ex <= 2 * ey
        &&& ey <= 2 * ex
        &&& ex <= 4 * mx + 2
        &&& ey <= 4 * my + 2
    }

    proof fn lemma_extend_grow_ready(&self) {
        let (sib, par) = self.spec_extend2();
        assert(par.grow_ready());
    }

    proof fn lemma_default_grow_ready() {
        assert(Self::spec_default_box().grow_ready());
    }

    /// Splits along the widest axis at the midpoint; fails exactly when no
    /// axis is at least two units long, the degenerate case at integer
    /// resolution. The halves are disjoint except on the shared splitting
    /// plane, and tile the box exactly (inherited tiling clause).
    fn partition(&self) -> (r: Option<(Self, Self)>)
        ensures
            r matches Some((a, b)) ==> a.u == self.u && b.v == self.v && forall|p: Point2d|
                a.covers_pt(p) && b.covers_pt(p) ==> (a.v.x == b.u.x && p.x == a.v.x) || (a.v.y
                    == b.u.y && p.y == a.v.y),
    {
        let dif = self.v.sub_v(&self.u);
        let widest = if dif.x > dif.y {
            dif.x
        } else {
            dif.y
        };
        if widest < 2 {
            return None;
        }
        let dim = self.get_widest_dimension();

        if dim == 0 {
            let half = (((self.v.x - self.u.x) as u64) / 2) as i64;
            let midpoint = self.u.x + half;
            let a = BoundingBox2d { u: self.u, v: Vec2::new(midpoint, self.v.y) };
            let b = BoundingBox2d { u: Vec2::new(midpoint, self.u.y), v: self.v };
            Some((a, b))
        } else {
            let half = (((self.v.y - self.u.y) as u64) / 2) as i64;
            let midpoint = self.u.y + half;
            let a = BoundingBox2d { u: self.u, v: Vec2::new(self.v.x, midpoint) };
            let b = BoundingBox2d { u: Vec2::new(self.u.x, midpoint), v: self.v };
            Some((a, b))
        }
    }

    /// Grows along the narrowest axis, toward whichever side of the origin
    /// the box extends less past, doubling that axis. Fails exactly when the
    /// diagonal exceeds the growth ceiling, when the narrowest axis has zero
    /// extent, or when the grown box would leave the coordinate range. The
    /// sibling and the original are disjoint except on the shared plane.
    fn extend(&self) -> (r: Option<(Self, Self)>)
        ensures
            r matches Some((o, par)) ==> forall|p: Point2d|
                o.covers_pt(p) && self.covers_pt(p) ==> (o.v.x == self.u.x && p.x == self.u.x) || (
                o.u.x == self.v.x && p.x == self.v.x) || (o.v.y == self.u.y && p.y == self.u.y) || (
                o.u.y == self.v.y && p.y == self.v.y),
    {
        let dv = self.v.sub_v(&self.u);
        proof {
            lemma_sq_sum_bounded_2d(dv.x as int, dv.y as int);
        }
        let dsq = dv.x * dv.x + dv.y * dv.y;
        if dsq > MAX_GROW_DIAG_SQ {
            proof {
                assert(!self.can_extend2());
            }
            return None;
        }
        let dim = self.get_most_narrow_dimension();
        let not_nan_zero: i64 = 0;

        let right = if dim == 0 {
            self.v.x
        } else {
            self.v.y
        };
        let left = if dim == 0 {
            self.u.x
        } else {
            self.u.y
        };
        let dif = right - left;
        if dif == 0 {
            return None;
        }
        let left_clamped = if left < not_nan_zero {
            left
        } else {
            not_nan_zero
        };
        let right_clamped = if right > not_nan_zero {
            right
        } else {
            not_nan_zero
        };

        if -left_clamped < right_clamped {
            if left - dif < -COORD_LIMIT {
                return None;
            }
            let template = if dim == 0 {
                BoundingBox2d {
                    u: Vec2::new(self.u.x - dif, self.u.y),
                    v: Vec2::new(self.v.x - dif, self.v.y),
                }
            } else {
                BoundingBox2d {
                    u: Vec2::new(self.u.x, self.u.y - dif),
                    v: Vec2::new(self.v.x, self.v.y - dif),
                }
            };
            let parent = Self { u: template.u, v: self.v };
            Some((template, parent))
        } else {
            if right + dif > COORD_LIMIT {
                return None;
            }
            let template = if dim == 0 {
                BoundingBox2d {
                    u: Vec2::new(self.u.x + dif, self.u.y),
                    v: Vec2::new(self.v.x + dif, self.v.y),
                }
            } else {
                BoundingBox2d {
                    u: Vec2::new(self.u.x, self.u.y + dif),
                    v: Vec2::new(self.v.x, self.v.y + dif),
                }
            };
            let parent = Self { u: self.u, v: template.v };
            Some((template, parent))
        }
    }

    fn is_contained(&self, other: &Self) -> (r: bool) {
        let r = other.u.x <= self.u.x && self.v.x <= other.v.x && other.u.y <= self.u.y
            && self.v.y <= other.v.y;
        proof {
            lemma_inside_iff_all_pts_2d(*self, *other);
            if r {
                assert forall|p: Point2d| self.covers(p) implies other.covers(p) by {
                    assert(self.covers_pt(p) ==> other.covers_pt(p));
                }
            } else {
                assert(exists|p: Point2d| self.covers_pt(p) && !other.covers_pt(p));
                let p = choose|p: Point2d| self.covers_pt(p) && !other.covers_pt(p);
                assert(self.covers(p) && !other.covers(p));
            }
        }
        r
    }

    fn intersects(&self, other: &Self) -> (r: bool) {
        let r = self.intersects(other);
        proof {
            if r {
                let p = choose|p: Point2d| self.covers_pt(p) && other.covers_pt(p);
                assert(self.covers(p) && other.covers(p));
            } else {
                assert forall|p: Point2d| !(self.covers(p) && other.covers(p)) by {
                    assert(!(self.covers_pt(p) && other.covers_pt(p)));
                }
            }
        }
        r
    }

    fn is_sub_scale(&self, other: &Self) -> (r: bool) {
        let d1 = self.v.sub_v(&self.u);
        let d2 = other.v.sub_v(&other.u);
        proof {
            lemma_sq_sum_bounded_2d(d1.x as int, d1.y as int);
            lemma_sq_sum_bounded_2d(d2.x as int, d2.y as int);
        }
        d1.x * d1.x + d1.y * d1.y <= d2.x * d2.x + d2.y * d2.y
    }

    fn default_box() -> (r: Self) {
        BoundingBox2d { u: Vec2::new(0, 0), v: Vec2::new(1, 1) }
    }
}

/// The squared sums the geometry forms stay far within the `i64` range when
/// each term is within twice the coordinate limit.
proof fn lemma_sq_sum_bounded_2d(a: int, b: int)
    requires
        -2 * COORD_LIMIT <= a <= 2 * COORD_LIMIT,
        -2 * COORD_LIMIT <= b <= 2 * COORD_LIMIT,
    ensures
        0 <= a * a <= 0x1000000000000000,
        0 <= b * b <= 0x1000000000000000,
        a * a + b * b <= i64::MAX,
{
    assert(0 <= a * a <= 0x1000000000000000 && 0 <= b * b <= 0x1000000000000000)
        by (nonlinear_arith)
        requires
            -2 * COORD_LIMIT <= a <= 2 * COORD_LIMIT,
            -2 * COORD_LIMIT <= b <= 2 * COORD_LIMIT,
            COORD_LIMIT == 536870912,
    ;
}

impl KdTreeContent<BoundingBox2d> for Point2d {
    open spec fn spec_bounding_box(&self) -> BoundingBox2d {
        BoundingBox2d { u: *self, v: *self }
    }

    fn get_bounding_box(&self) -> (r: BoundingBox2d) {
        BoundingBox2d { u: *self, v: *self }
    }

    fn duplicate(&self) -> (r: Self) {
        *self
    }

    fn equals(&self, other: &Self) -> (r: bool) {
        self.x == other.x && self.y == other.y
    }
}


impl BoundingBox3d {
    /// The narrowest axis (0, 1 or 2), by the comparison chain the growth
    /// code uses; on equal extents the later axis is chosen.
    pub open spec fn narrow_dim3(self) -> int {
        let dx = self.v.x - self.u.x;
        let dy = self.v.y - self.u.y;
        let dz = self.v.z - self.u.z;
        if dx < dy && dx < dz {
            0
        } else if dy < dz {
            1
        } else {
            2
        }
    }

    /// Whether growth goes toward the negative side: the box extends less
    /// past the origin there than on the positive side.
    pub open spec fn grows_down(self, left: i64, right: i64) -> bool {
        let lc: i64 = if left < 0 {
            left
        } else {
            0
        };
        let rc: i64 = if right > 0 {
            right
        } else {
            0
        };
        -lc < rc
    }

    /// The lower corner coordinate on the given axis.
    pub open spec fn lo_at(self, d: int) -> i64 {
        if d == 0 {
            self.u.x
        } else if d == 1 {
            self.u.y
        } else {
            self.u.z
        }
    }

    /// The upper corner coordinate on the given axis.
    pub open spec fn hi_at(self, d: int) -> i64 {
        if d == 0 {
            self.v.x
        } else if d == 1 {
            self.v.y
        } else {
            self.v.z
        }
    }

    /// The box shifted by `s` along axis `d`.
    pub open spec fn shifted(self, d: int, s: int) -> Self {
        if d == 0 {
            BoundingBox3d {
                u: Vec3 { x: (self.u.x + s) as i64, y: self.u.y, z: self.u.z },
                v: Vec3 { x: (self.v.x + s) as i64, y: self.v.y, z: self.v.z },
            }
        } else if d == 1 {
            BoundingBox3d {
                u: Vec3 { x: self.u.x, y: (self.u.y + s) as i64, z: self.u.z },
                v: Vec3 { x: self.v.x, y: (self.v.y + s) as i64, z: self.v.z },
            }
        } else {
            BoundingBox3d {
                u: Vec3 { x: self.u.x, y: self.u.y, z: (self.u.z + s) as i64 },
                v: Vec3 { x: self.v.x, y: self.v.y, z: (self.v.z + s) as i64 },
            }
        }
    }

    /// The pair of halves splitting produces: the box cut at the integer
    /// midpoint of its widest axis; on equal extents the comparison chain
    /// picks the later axis.
    pub open spec fn spec_partition3(self) -> (Self, Self) {
        let dx = self.v.x - self.u.x;
        let dy = self.v.y - self.u.y;
        let dz = self.v.z - self.u.z;
        if dx > dy && dx > dz {
            let midpoint = (self.u.x + dx / 2) as i64;
            (
                BoundingBox3d { u: self.u, v: Vec3 { x: midpoint, y: self.v.y, z: self.v.z } },
                BoundingBox3d { u: Vec3 { x: midpoint, y: self.u.y, z: self.u.z }, v: self.v },
            )
        } else if dy > dz {
            let midpoint = (self.u.y + dy / 2) as i64;
            (
                BoundingBox3d { u: self.u, v: Vec3 { x: self.v.x, y: midpoint, z: self.v.z } },
                BoundingBox3d { u: Vec3 { x: self.u.x, y: midpoint, z: self.u.z }, v: self.v },
            )
        } else {
            let midpoint = (self.u.z + dz / 2) as i64;
            (
                BoundingBox3d { u: self.u, v: Vec3 { x: self.v.x, y: self.v.y, z: midpoint } },
                BoundingBox3d { u: Vec3 { x: self.u.x, y: self.u.y, z: midpoint }, v: self.v },
            )
        }
    }

    /// The `(sibling, parent)` pair growth produces.
    pub open spec fn spec_extend3(self) -> (Self, Self) {
        let d = self.narrow_dim3();
        let dif = self.hi_at(d) - self.lo_at(d);
        if self.grows_down(self.lo_at(d), self.hi_at(d)) {
            let sib = self.shifted(d, -dif);
            (sib, BoundingBox3d { u: sib.u, v: self.v })
        } else {
            let sib = self.shifted(d, dif);
            (sib, BoundingBox3d { u: self.u, v: sib.v })
        }
    }

    /// Whether growth is possible: the diagonal is under the ceiling, the
    /// chosen axis has positive extent (so growth makes progress), and the
    /// grown box stays within the coordinate range.
    pub open spec fn can_extend3(self) -> bool {
        &&& self.diag_sq() <= MAX_GROW_DIAG_SQ
        &&& self.hi_at(self.narrow_dim3()) - self.lo_at(self.narrow_dim3()) >= 1
        &&& self.spec_extend3().0.wf_box()
    }

    fn get_most_narrow_dimension(&self) -> (d: usize)
        requires
            self.wf_box(),
        ensures
            d == self.narrow_dim3(),
            d <= 2,
    {
        let dif = self.v.sub_v(&self.u);

        if dif.x < dif.y && dif.x < dif.z {
            0
        } else if dif.y < dif.z {
            1
        } else {
            2
        }
    }

    fn get_widest_dimension(&self) -> (d: usize)
        requires
            self.wf_box(),
        ensures
            d == 0 ==> self.v.x - self.u.x > self.v.y - self.u.y && self.v.x - self.u.x > self.v.z
                - self.u.z,
            d == 1 ==> self.v.y - self.u.y >= self.v.x - self.u.x && self.v.y - self.u.y > self.v.z
                - self.u.z,
            d == 2 ==> self.v.z - self.u.z >= self.v.x - self.u.x && self.v.z - self.u.z >= self.v.y
                - self.u.y,
            d <= 2,
    {
        let dif = self.v.sub_v(&self.u);

        if dif.x > dif.y && dif.x > dif.z {
            0
        } else if dif.y > dif.z {
            1
        } else {
            2
        }
    }
}

impl BoundingBoxTrait for BoundingBox3d {
    type Pt = Point3d;

    open spec fn wf(&self) -> bool {
        self.wf_box()
    }

    open spec fn covers(&self, p: Point3d) -> bool {
        self.covers_pt(p)
    }

    open spec fn measure(&self) -> nat {
        self.box_measure()
    }

    open spec fn grow_fuel(&self) -> nat {
        self.grow_fuel_spec()
    }

    open spec fn can_partition(&self) -> bool {
        self.v.x - self.u.x >= 2 || self.v.y - self.u.y >= 2 || self.v.z - self.u.z >= 2
    }

    open spec fn spec_partition(&self) -> (Self, Self) {
        self.spec_partition3()
    }

    open spec fn spec_default_box() -> Self {
        BoundingBox3d {
            u: Vec3 { x: 0i64, y: 0i64, z: 0i64 },
            v: Vec3 { x: 1i64, y: 1i64, z: 1i64 },
        }
    }

    open spec fn can_extend(&self) -> bool {
        self.can_extend3()
    }

    open spec fn spec_extend(&self) -> (Self, Self) {
        self.spec_extend3()
    }

    open spec fn spec_sub_scale(&self, other: &Self) -> bool {
        self.diag_sq() <= other.diag_sq()
    }

    proof fn lemma_nonempty(&self) {
        lemma_box_nonempty_3d(*self);
        assert(self.covers(self.u));
    }

    proof fn lemma_extend_fuel(&self) {
        let (sib, par) = self.spec_extend3();
        let dx = self.v.x - self.u.x;
        let dy = self.v.y - self.u.y;
        let dz = self.v.z - self.u.z;
        let d: int = self.hi_at(self.narrow_dim3()) - self.lo_at(self.narrow_dim3());
        assert((2 * d) * (2 * d) == 4 * (d * d)) by (nonlinear_arith);
        assert(d * d >= 1) by (nonlinear_arith)
            requires
                d >= 1,
        ;
        assert(dx * dx >= 0 && dy * dy >= 0 && dz * dz >= 0) by (nonlinear_arith);
        assert(par.diag_sq() == self.diag_sq() + 3 * (d * d));
        assert(d * d <= self.diag_sq());
    }

    open spec fn grow_ready(&self) -> bool {
        let ex = self.v.x - self.u.x;
        let ey = self.v.y - self.u.y;
        let ez = self.v.z - self.u.z;
        let mx: int = if -self.u.x <= self.v.x {
            -self.u.x
        } else {
            self.v.x as int
        };
        let my: int = if -self.u.y <= self.v.y {
            -self.u.y
        } else {
            self.v.y as int
        };
        let mz: int = if -self.u.z <= self.v.z {
            -self.u.z
        } else {
            self.v.z as int
        };
        &&& self.wf_box()
        &&& self.u.x <= 0 <= self.v.x
        &&& self.u.y <= 0 <= self.v.y
        &&& self.u.z <= 0 <= self.v.z
        &&& 1 <= ex && 1 <= ey && 1 <= ez
        &&& ex <= 2 * ey && ey <= 2 * ex
        &&& ex <= 2 * ez && ez <= 2 * ex
        &&& ey <= 2 * ez && ez <= 2 * ey
        &&& ex <= 4 * mx + 2
        &&& ey <= 4 * my + 2
        &&& ez <= 4 * mz + 2
    }

    proof fn lemma_extend_grow_ready(&self) {
        let (sib, par) = self.spec_extend3();
        assert(par.grow_ready());
    }

    proof fn lemma_default_grow_ready() {
        assert(Self::spec_default_box().grow_ready());
    }

    /// Splits along the widest axis at the midpoint; fails exactly when no
    /// axis is at least two units long, the degenerate case at integer
    /// resolution. The halves are disjoint except on the shared splitting
    /// plane, and tile the box exactly (inherited tiling clause).
    fn partition(&self) -> (r: Option<(Self, Self)>)
        ensures
            r matches Some((a, b)) ==> a.u == self.u && b.v == self.v && forall|p: Point3d|
                a.covers_pt(p) && b.covers_pt(p) ==> (a.v.x == b.u.x && p.x == a.v.x) || (a.v.y
                    == b.u.y && p.y == a.v.y) || (a.v.z == b.u.z && p.z == a.v.z),
    {
        let dif = self.v.sub_v(&self.u);
        let mut widest = dif.x;
        if dif.y > widest {
            widest = dif.y;
        }
        if dif.z > widest {
            widest = dif.z;
        }
        if widest < 2 {
            return None;
        }
        let dim = self.get_widest_dimension();

        if dim == 0 {
            let half = (((self.v.x - self.u.x) as u64) / 2) as i64;
            let midpoint = self.u.x + half;
            let a = BoundingBox3d { u: self.u, v: Vec3::new(midpoint, self.v.y, self.v.z) };
            let b = BoundingBox3d { u: Vec3::new(midpoint, self.u.y, self.u.z), v: self.v };
            Some((a, b))
        } else if dim == 1 {
            let half = (((self.v.y - self.u.y) as u64) / 2) as i64;
            let midpoint = self.u.y + half;
            let a = BoundingBox3d { u: self.u, v: Vec3::new(self.v.x, midpoint, self.v.z) };
            let b = BoundingBox3d { u: Vec3::new(self.u.x, midpoint, self.u.z), v: self.v };
            Some((a, b))
        } else {
            let half = (((self.v.z - self.u.z) as u64) / 2) as i64;
            let midpoint = self.u.z + half;
            let a = BoundingBox3d { u: self.u, v: Vec3::new(self.v.x, self.v.y, midpoint) };
            let b = BoundingBox3d { u: Vec3::new(self.u.x, self.u.y, midpoint), v: self.v };
            Some((a, b))
        }
    }

    /// Grows along the narrowest axis, toward whichever side of the origin
    /// the box extends less past, doubling that axis. Fails exactly when the
    /// diagonal exceeds the growth ceiling, when the narrowest axis has zero
    /// extent, or when the grown box would leave the coordinate range. The
    /// sibling and the original are disjoint except on the shared plane.
    #[verifier::rlimit(40)]
    fn extend(&self) -> (r: Option<(Self, Self)>)
        ensures
            r matches Some((o, par)) ==> forall|p: Point3d|
                o.covers_pt(p) && self.covers_pt(p) ==> (o.v.x == self.u.x && p.x == self.u.x) || (
                o.u.x == self.v.x && p.x == self.v.x) || (o.v.y == self.u.y && p.y == self.u.y) || (
                o.u.y == self.v.y && p.y == self.v.y) || (o.v.z == self.u.z && p.z == self.u.z) || (
                o.u.z == self.v.z && p.z == self.v.z),
    {
        let dv = self.v.sub_v(&self.u);
        proof {
            lemma_sq_sum_bounded_3d(dv.x as int, dv.y as int, dv.z as int);
        }
        let dsq = dv.x * dv.x + dv.y * dv.y + dv.z * dv.z;
        if dsq > MAX_GROW_DIAG_SQ {
            proof {
                assert(!self.can_extend3());
            }
            return None;
        }
        let dim = self.get_most_narrow_dimension();
        let not_nan_zero: i64 = 0;

        let right = if dim == 0 {
            self.v.x
        } else if dim == 1 {
            self.v.y
        } else {
            self.v.z
        };
        let left = if dim == 0 {
            self.u.x
        } else if dim == 1 {
            self.u.y
        } else {
            self.u.z
        };
        let dif = right - left;
        if dif == 0 {
            return None;
        }
        let left_clamped = if left < not_nan_zero {
            left
        } else {
            not_nan_zero
        };
        let right_clamped = if right > not_nan_zero {
            right
        } else {
            not_nan_zero
        };

        if -left_clamped < right_clamped {
            if left - dif < -COORD_LIMIT {
                return None;
            }
            let template = if dim == 0 {
                BoundingBox3d {
                    u: Vec3::new(self.u.x - dif, self.u.y, self.u.z),
                    v: Vec3::new(self.v.x - dif, self.v.y, self.v.z),
                }
            } else if dim == 1 {
                BoundingBox3d {
                    u: Vec3::new(self.u.x, self.u.y - dif, self.u.z),
                    v: Vec3::new(self.v.x, self.v.y - dif, self.v.z),
                }
            } else {
                BoundingBox3d {
                    u: Vec3::new(self.u.x, self.u.y, self.u.z - dif),
                    v: Vec3::new(self.v.x, self.v.y, self.v.z - dif),
                }
            };
            let parent = Self { u: template.u, v: self.v };
            Some((template, parent))
        } else {
            if right + dif > COORD_LIMIT {
                return None;
            }
            let template = if dim == 0 {
                BoundingBox3d {
                    u: Vec3::new(self.u.x + dif, self.u.y, self.u.z),
                    v: Vec3::new(self.v.x + dif, self.v.y, self.v.z),
                }
            } else if dim == 1 {
                BoundingBox3d {
                    u: Vec3::new(self.u.x, self.u.y + dif, self.u.z),
                    v: Vec3::new(self.v.x, self.v.y + dif, self.v.z),
                }
            } else {
                BoundingBox3d {
                    u: Vec3::new(self.u.x, self.u.y, self.u.z + dif),
                    v: Vec3::new(self.v.x, self.v.y, self.v.z + dif),
                }
            };
            let parent = Self { u: self.u, v: template.v };
            Some((template, parent))
        }
    }

    fn is_contained(&self, other: &Self) -> (r: bool) {
        let r = other.u.x <= self.u.x && self.v.x <= other.v.x && other.u.y <= self.u.y
            && self.v.y <= other.v.y && other.u.z <= self.u.z && self.v.z <= other.v.z;
        proof {
            lemma_inside_iff_all_pts_3d(*self, *other);
            if r {
                assert forall|p: Point3d| self.covers(p) implies other.covers(p) by {
                    assert(self.covers_pt(p) ==> other.covers_pt(p));
                }
            } else {
                assert(exists|p: Point3d| self.covers_pt(p) && !other.covers_pt(p));
                let p = choose|p: Point3d| self.covers_pt(p) && !other.covers_pt(p);
                assert(self.covers(p) && !other.covers(p));
            }
        }
        r
    }

    fn intersects(&self, other: &Self) -> (r: bool) {
        let r = self.intersects(other);
        proof {
            if r {
                let p = choose|p: Point3d| self.covers_pt(p) && other.covers_pt(p);
                assert(self.covers(p) && other.covers(p));
            } else {
                assert forall|p: Point3d| !(self.covers(p) && other.covers(p)) by {
                    assert(!(self.covers_pt(p) && other.covers_pt(p)));
                }
            }
        }
        r
    }

    fn is_sub_scale(&self, other: &Self) -> (r: bool) {
        let d1 = self.v.sub_v(&self.u);
        let d2 = other.v.sub_v(&other.u);
        proof {
            lemma_sq_sum_bounded_3d(d1.x as int, d1.y as int, d1.z as int);
            lemma_sq_sum_bounded_3d(d2.x as int, d2.y as int, d2.z as int);
        }
        d1.x * d1.x + d1.y * d1.y + d1.z * d1.z <= d2.x * d2.x + d2.y * d2.y + d2.z * d2.z
    }

    fn default_box() -> (r: Self) {
        BoundingBox3d { u: Vec3::new(0, 0, 0), v: Vec3::new(1, 1, 1) }
    }
}

/// The squared sums the geometry forms stay far within the `i64` range when
/// each term is within twice the coordinate limit.
proof fn lemma_sq_sum_bounded_3d(a: int, b: int, c: int)
    requires
        -2 * COORD_LIMIT <= a <= 2 * COORD_LIMIT,
        -2 * COORD_LIMIT <= b <= 2 * COORD_LIMIT,
        -2 * COORD_LIMIT <= c <= 2 * COORD_LIMIT,
    ensures
        0 <= a * a <= 0x1000000000000000,
        0 <= b * b <= 0x1000000000000000,
        0 <= c * c <= 0x1000000000000000,
        a * a + b * b + c * c <= i64::MAX,
{
    assert(0 <= a * a <= 0x1000000000000000 && 0 <= b * b <= 0x1000000000000000 && 0 <= c * c
        <= 0x1000000000000000) by (nonlinear_arith)
        requires
            -2 * COORD_LIMIT <= a <= 2 * COORD_LIMIT,
            -2 * COORD_LIMIT <= b <= 2 * COORD_LIMIT,
            -2 * COORD_LIMIT <= c <= 2 * COORD_LIMIT,
            COORD_LIMIT == 536870912,
    ;
}

/// A ray separated from a box by an axis its direction is parallel to never
/// reaches the box, so a miss prunes soundly.
proof fn lemma_separated_axis_faithful_3d(b: BoundingBox3d, cray: ConstrainedRay3d)
    requires
        b.wf_box(),
        cray.wf_cray(),
        (cray.ray.direction.x == 0 && (cray.ray.origin.x < b.u.x || cray.ray.origin.x > b.v.x)) || (
        cray.ray.direction.y == 0 && (cray.ray.origin.y < b.u.y || cray.ray.origin.y > b.v.y)) || (
        cray.ray.direction.z == 0 && (cray.ray.origin.z < b.u.z || cray.ray.origin.z > b.v.z)),
    ensures
        b.hit_faithful(cray),
{
    assert forall|t: i64|
        cray.range.0 <= t <= cray.range.1 && b.covers_pt(
            #[trigger] <BoundingBox3d as HittableBoundingBoxTrait>::ray_pt(cray, t),
        ) implies !(b.spec_hit(cray) is Miss) && (b.spec_hit(cray) matches HitBoxResult::Outside(
        near,
        far,
    ) ==> near.spec_le_int(t)) by {
        let p = <BoundingBox3d as HittableBoundingBoxTrait>::ray_pt(cray, t);
        if cray.ray.direction.x == 0 && (cray.ray.origin.x < b.u.x || cray.ray.origin.x > b.v.x) {
            assert(p.x == cray.ray.origin.x);
            assert(false);
        } else if cray.ray.direction.y == 0 && (cray.ray.origin.y < b.u.y || cray.ray.origin.y
            > b.v.y) {
            assert(p.y == cray.ray.origin.y);
            assert(false);
        } else {
            assert(p.z == cray.ray.origin.z);
            assert(false);
        }
    }
}

/// A box whose slab interval on some axis lies entirely before or after the
/// ray's range holds no in-range ray point, so a miss prunes soundly.
proof fn lemma_range_separated_faithful_3d(b: BoundingBox3d, cray: ConstrainedRay3d, j: int)
    requires
        b.wf_box(),
        cray.wf_cray(),
        0 <= j <= 2,
        BoundingBox3d::direction_at(cray, j) != 0,
        ({
            let f0 = b.crossing_frac(cray, j, 0);
            let f1 = b.crossing_frac(cray, j, 1);
            (!f0.spec_ge_int(cray.range.0) && !f1.spec_ge_int(cray.range.0)) || (!f0.spec_le_int(
                cray.range.1,
            ) && !f1.spec_le_int(cray.range.1))
        }),
    ensures
        b.hit_faithful(cray),
{
    let f0 = b.crossing_frac(cray, j, 0);
    let f1 = b.crossing_frac(cray, j, 1);
    let o = BoundingBox3d::origin_at(cray, j);
    let d = BoundingBox3d::direction_at(cray, j);
    let lo = b.plane_at(j, 0);
    let hi = b.plane_at(j, 1);
    assert(f0.den > 0 && f1.den > 0);

    assert forall|t: i64|
        cray.range.0 <= t <= cray.range.1 && b.covers_pt(
            #[trigger] <BoundingBox3d as HittableBoundingBoxTrait>::ray_pt(cray, t),
        ) implies !(b.spec_hit(cray) is Miss) && (b.spec_hit(cray) matches HitBoxResult::Outside(
        near,
        far,
    ) ==> near.spec_le_int(t)) by {
        let p = <BoundingBox3d as HittableBoundingBoxTrait>::ray_pt(cray, t);
        lemma_prod_bound(d as int, t as int, COORD_LIMIT as int, 2 * COORD_LIMIT as int);
        let pk: int = o + d * t;
        if j == 0 {
            assert(p.x == pk);
        } else if j == 1 {
            assert(p.y == pk);
        } else {
            assert(p.z == pk);
        }
        assert(lo <= pk <= hi);
        // the point lies inside the axis slab, so t lies within the slab's
        // parametric interval, which the hypothesis puts outside the range
        if d > 0 {
            assert(f0.spec_le_int(t) && t * f1.den <= f1.num) by (nonlinear_arith)
                requires
                    f0.num == lo - o,
                    f0.den == d,
                    f1.num == hi - o,
                    f1.den == d,
                    d > 0,
                    lo <= o + d * t <= hi,
            ;
            assert(false) by (nonlinear_arith)
                requires
                    f0.den > 0,
                    f1.den > 0,
                    f0.num <= t * f0.den,
                    t * f1.den <= f1.num,
                    cray.range.0 <= t <= cray.range.1,
                    (f0.num < cray.range.0 * f0.den && f1.num < cray.range.0 * f1.den) || (
                    cray.range.1 * f0.den < f0.num && cray.range.1 * f1.den < f1.num),
            ;
        } else {
            assert(f1.spec_le_int(t) && t * f0.den <= f0.num) by (nonlinear_arith)
                requires
                    f0.num == o - lo,
                    f0.den == -d,
                    f1.num == o - hi,
                    f1.den == -d,
                    d < 0,
                    lo <= o + d * t <= hi,
            ;
            assert(false) by (nonlinear_arith)
                requires
                    f0.den > 0,
                    f1.den > 0,
                    f1.num <= t * f1.den,
                    t * f0.den <= f0.num,
                    cray.range.0 <= t <= cray.range.1,
                    (f0.num < cray.range.0 * f0.den && f1.num < cray.range.0 * f1.den) || (
                    cray.range.1 * f0.den < f0.num && cray.range.1 * f1.den < f1.num),
            ;
        }
    }
}

/// When exactly the two bounding planes of one axis are crossed within
/// range, the earlier crossing is an entry: no in-range ray point inside the
/// box lies before it, so the reported near distance prunes soundly.
proof fn lemma_same_axis_pair_faithful_3d(b: BoundingBox3d, cray: ConstrainedRay3d, k: int)
    requires
        b.wf_box(),
        cray.wf_cray(),
        0 <= k <= 2,
        b.crossings(cray) == seq![b.crossing_frac(cray, k, 0), b.crossing_frac(cray, k, 1)],
        b.crossing_ok(cray, k, 0),
        b.crossing_ok(cray, k, 1),
    ensures
        b.hit_faithful(cray),
{
    let f0 = b.crossing_frac(cray, k, 0);
    let f1 = b.crossing_frac(cray, k, 1);
    let o = BoundingBox3d::origin_at(cray, k);
    let d = BoundingBox3d::direction_at(cray, k);
    let lo = b.plane_at(k, 0);
    let hi = b.plane_at(k, 1);
    assert(d != 0);
    assert(f0.den > 0 && f1.den > 0);

    assert forall|t: i64|
        cray.range.0 <= t <= cray.range.1 && b.covers_pt(
            #[trigger] <BoundingBox3d as HittableBoundingBoxTrait>::ray_pt(cray, t),
        ) implies !(b.spec_hit(cray) is Miss) && (b.spec_hit(cray) matches HitBoxResult::Outside(
        near,
        far,
    ) ==> near.spec_le_int(t)) by {
        let p = <BoundingBox3d as HittableBoundingBoxTrait>::ray_pt(cray, t);
        lemma_prod_bound(d as int, t as int, COORD_LIMIT as int, 2 * COORD_LIMIT as int);
        let pk: int = o + d * t;
        if k == 0 {
            assert(p.x == pk);
        } else if k == 1 {
            assert(p.y == pk);
        } else {
            assert(p.z == pk);
        }
        assert(lo <= pk <= hi);
        if d > 0 {
            assert(f0.spec_le_int(t)) by (nonlinear_arith)
                requires
                    f0.num == lo - o,
                    f0.den == d,
                    lo <= o + d * t,
            ;
            if !f0.spec_lt(f1) {
                assert(f1.spec_le_int(t)) by (nonlinear_arith)
                    requires
                        f0.den > 0,
                        f1.den > 0,
                        !(f0.num * f1.den < f1.num * f0.den),
                        f0.num <= t * f0.den,
                ;
            }
        } else {
            assert(f1.spec_le_int(t)) by (nonlinear_arith)
                requires
                    f1.num == o - hi,
                    f1.den == -d,
                    d < 0,
                    o + d * t <= hi,
            ;
            if f0.spec_lt(f1) {
                assert(f0.spec_le_int(t)) by (nonlinear_arith)
                    requires
                        f0.den > 0,
                        f1.den > 0,
                        f0.num * f1.den < f1.num * f0.den,
                        f1.num <= t * f1.den,
                ;
            }
        }
    }
}

impl KdTreeContent<BoundingBox3d> for Point3d {
    open spec fn spec_bounding_box(&self) -> BoundingBox3d {
        BoundingBox3d { u: *self, v: *self }
    }

    fn get_bounding_box(&self) -> (r: BoundingBox3d) {
        BoundingBox3d { u: *self, v: *self }
    }

    fn duplicate(&self) -> (r: Self) {
        *self
    }

    fn equals(&self, other: &Self) -> (r: bool) {
        self.x == other.x && self.y == other.y && self.z == other.z
    }
}

} // verus!
