//! Three-component vectors over a [`Scalar`] element type.

use crate::traits::{isqrt, Norm, Scalar};
use crate::vec2::{isqrt_spec, lemma_isqrt_unique, Vec2};
use vstd::prelude::*;

verus! {

/// A vector with three components.
#[derive(Copy, Clone, Debug, PartialEq, Eq, Hash)]
pub struct Vec3<T> {
    pub x: T,
    pub y: T,
    pub z: T,
}

impl<T: Copy> Vec3<T> {
    pub fn new(x: T, y: T, z: T) -> (r: Self)
        ensures
            r == (Vec3 { x, y, z }),
    {
        Vec3 { x, y, z }
    }

    /// The projection onto the first two components.
    pub fn as_vec2(&self) -> (r: Vec2<T>)
        ensures
            r == (Vec2 { x: self.x, y: self.y }),
    {
        Vec2::new(self.x, self.y)
    }
}

impl<T: Scalar> Scalar for Vec3<T> {
    open spec fn add_ok(self, other: Self) -> bool {
        self.x.add_ok(other.x) && self.y.add_ok(other.y) && self.z.add_ok(other.z)
    }

    open spec fn spec_sum(self, other: Self) -> Self {
        Vec3 {
            x: self.x.spec_sum(other.x),
            y: self.y.spec_sum(other.y),
            z: self.z.spec_sum(other.z),
        }
    }

    fn add_el(self, other: Self) -> (r: Self) {
        Vec3 { x: self.x.add_el(other.x), y: self.y.add_el(other.y), z: self.z.add_el(other.z) }
    }

    open spec fn sub_ok(self, other: Self) -> bool {
        self.x.sub_ok(other.x) && self.y.sub_ok(other.y) && self.z.sub_ok(other.z)
    }

    open spec fn spec_diff(self, other: Self) -> Self {
        Vec3 {
            x: self.x.spec_diff(other.x),
            y: self.y.spec_diff(other.y),
            z: self.z.spec_diff(other.z),
        }
    }

    fn sub_el(self, other: Self) -> (r: Self) {
        Vec3 { x: self.x.sub_el(other.x), y: self.y.sub_el(other.y), z: self.z.sub_el(other.z) }
    }

    open spec fn mul_ok(self, other: Self) -> bool {
        self.x.mul_ok(other.x) && self.y.mul_ok(other.y) && self.z.mul_ok(other.z)
    }

    open spec fn spec_prod(self, other: Self) -> Self {
        Vec3 {
            x: self.x.spec_prod(other.x),
            y: self.y.spec_prod(other.y),
            z: self.z.spec_prod(other.z),
        }
    }

    fn mul_el(self, other: Self) -> (r: Self) {
        Vec3 { x: self.x.mul_el(other.x), y: self.y.mul_el(other.y), z: self.z.mul_el(other.z) }
    }

    open spec fn neg_ok(self) -> bool {
        self.x.neg_ok() && self.y.neg_ok() && self.z.neg_ok()
    }

    open spec fn spec_negated(self) -> Self {
        Vec3 { x: self.x.spec_negated(), y: self.y.spec_negated(), z: self.z.spec_negated() }
    }

    fn neg_el(self) -> (r: Self) {
        Vec3 { x: self.x.neg_el(), y: self.y.neg_el(), z: self.z.neg_el() }
    }

    open spec fn div_ok(self, other: Self) -> bool {
        self.x.div_ok(other.x) && self.y.div_ok(other.y) && self.z.div_ok(other.z)
    }

    open spec fn spec_quot(self, other: Self) -> Self {
        Vec3 {
            x: self.x.spec_quot(other.x),
            y: self.y.spec_quot(other.y),
            z: self.z.spec_quot(other.z),
        }
    }

    fn div_el(self, other: Self) -> (r: Self) {
        Vec3 { x: self.x.div_el(other.x), y: self.y.div_el(other.y), z: self.z.div_el(other.z) }
    }
}

impl<T: Scalar> Vec3<T> {
    /// When all three components may be squared and the squares summed.
    pub open spec fn sq_len_ok(self) -> bool {
        &&& self.x.mul_ok(self.x)
        &&& self.y.mul_ok(self.y)
        &&& self.z.mul_ok(self.z)
        &&& self.x.spec_prod(self.x).add_ok(self.y.spec_prod(self.y))
        &&& self.x.spec_prod(self.x).spec_sum(self.y.spec_prod(self.y)).add_ok(
            self.z.spec_prod(self.z),
        )
    }

    pub open spec fn spec_sq_len(self) -> T {
        self.x.spec_prod(self.x).spec_sum(self.y.spec_prod(self.y)).spec_sum(
            self.z.spec_prod(self.z),
        )
    }

    pub fn squared_length(&self) -> (r: T)
        requires
            self.sq_len_ok(),
        ensures
            r == self.spec_sq_len(),
    {
        self.x.mul_el(self.x).add_el(self.y.mul_el(self.y)).add_el(self.z.mul_el(self.z))
    }

    /// When the products of corresponding components may be formed and summed.
    pub open spec fn dot_ok(self, other: Self) -> bool {
        &&& self.x.mul_ok(other.x)
        &&& self.y.mul_ok(other.y)
        &&& self.z.mul_ok(other.z)
        &&& self.x.spec_prod(other.x).add_ok(self.y.spec_prod(other.y))
        &&& self.x.spec_prod(other.x).spec_sum(self.y.spec_prod(other.y)).add_ok(
            self.z.spec_prod(other.z),
        )
    }

    pub open spec fn spec_dot(self, other: Self) -> T {
        self.x.spec_prod(other.x).spec_sum(self.y.spec_prod(other.y)).spec_sum(
            self.z.spec_prod(other.z),
        )
    }

    pub fn dot(&self, other: &Vec3<T>) -> (r: T)
        requires
            self.dot_ok(*other),
        ensures
            r == self.spec_dot(*other),
    {
        self.x.mul_el(other.x).add_el(self.y.mul_el(other.y)).add_el(self.z.mul_el(other.z))
    }

    /// When all products and differences of the cross product are representable.
    pub open spec fn cross_ok(self, other: Self) -> bool {
        &&& self.y.mul_ok(other.z) && self.z.mul_ok(other.y) && self.y.spec_prod(other.z).sub_ok(
            self.z.spec_prod(other.y),
        )
        &&& self.z.mul_ok(other.x) && self.x.mul_ok(other.z) && self.z.spec_prod(other.x).sub_ok(
            self.x.spec_prod(other.z),
        )
        &&& self.x.mul_ok(other.y) && self.y.mul_ok(other.x) && self.x.spec_prod(other.y).sub_ok(
            self.y.spec_prod(other.x),
        )
    }

    pub open spec fn spec_cross(self, other: Self) -> Self {
        Vec3 {
            x: self.y.spec_prod(other.z).spec_diff(self.z.spec_prod(other.y)),
            y: self.z.spec_prod(other.x).spec_diff(self.x.spec_prod(other.z)),
            z: self.x.spec_prod(other.y).spec_diff(self.y.spec_prod(other.x)),
        }
    }

    /// The cross product.
    pub fn cross(&self, other: &Vec3<T>) -> (r: Vec3<T>)
        requires
            self.cross_ok(*other),
        ensures
            r == self.spec_cross(*other),
    {
        Vec3 {
            x: self.y.mul_el(other.z).sub_el(self.z.mul_el(other.y)),
            y: self.z.mul_el(other.x).sub_el(self.x.mul_el(other.z)),
            z: self.x.mul_el(other.y).sub_el(self.y.mul_el(other.x)),
        }
    }

    /// Componentwise negation.
    pub fn neg_v(&self) -> (r: Self)
        requires
            self.neg_ok(),
        ensures
            r == self.spec_negated(),
    {
        self.neg_el()
    }

    /// Componentwise sum.
    pub fn add_v(&self, rhs: &Vec3<T>) -> (r: Self)
        requires
            self.add_ok(*rhs),
        ensures
            r == self.spec_sum(*rhs),
    {
        self.add_el(*rhs)
    }

    pub fn add_assign_v(&mut self, rhs: &Vec3<T>)
        requires
            old(self).add_ok(*rhs),
        ensures
            *final(self) == old(self).spec_sum(*rhs),
    {
        *self = self.add_el(*rhs);
    }

    /// Componentwise difference.
    pub fn sub_v(&self, rhs: &Vec3<T>) -> (r: Self)
        requires
            self.sub_ok(*rhs),
        ensures
            r == self.spec_diff(*rhs),
    {
        self.sub_el(*rhs)
    }

    pub fn sub_assign_v(&mut self, rhs: &Vec3<T>)
        requires
            old(self).sub_ok(*rhs),
        ensures
            *final(self) == old(self).spec_diff(*rhs),
    {
        *self = self.sub_el(*rhs);
    }

    /// Componentwise product.
    pub fn mul_v(&self, rhs: &Vec3<T>) -> (r: Self)
        requires
            self.mul_ok(*rhs),
        ensures
            r == self.spec_prod(*rhs),
    {
        self.mul_el(*rhs)
    }

    pub fn mul_assign_v(&mut self, rhs: &Vec3<T>)
        requires
            old(self).mul_ok(*rhs),
        ensures
            *final(self) == old(self).spec_prod(*rhs),
    {
        *self = self.mul_el(*rhs);
    }

    /// When each component may be multiplied by the scalar `s`.
    pub open spec fn scale_ok(self, s: T) -> bool {
        self.x.mul_ok(s) && self.y.mul_ok(s) && self.z.mul_ok(s)
    }

    pub open spec fn spec_scaled(self, s: T) -> Self {
        Vec3 { x: self.x.spec_prod(s), y: self.y.spec_prod(s), z: self.z.spec_prod(s) }
    }

    /// Multiplication of every component by a scalar.
    pub fn scale(&self, s: T) -> (r: Self)
        requires
            self.scale_ok(s),
        ensures
            r == self.spec_scaled(s),
    {
        Vec3 { x: self.x.mul_el(s), y: self.y.mul_el(s), z: self.z.mul_el(s) }
    }

    pub fn scale_assign(&mut self, s: T)
        requires
            old(self).scale_ok(s),
        ensures
            *final(self) == old(self).spec_scaled(s),
    {
        *self = self.scale(s);
    }

    /// When each component may be divided by the scalar `s`.
    pub open spec fn div_scale_ok(self, s: T) -> bool {
        self.x.div_ok(s) && self.y.div_ok(s) && self.z.div_ok(s)
    }

    pub open spec fn spec_div_scaled(self, s: T) -> Self {
        Vec3 { x: self.x.spec_quot(s), y: self.y.spec_quot(s), z: self.z.spec_quot(s) }
    }

    /// Division of every component by a scalar.
    pub fn div_scale(&self, s: T) -> (r: Self)
        requires
            self.div_scale_ok(s),
        ensures
            r == self.spec_div_scaled(s),
    {
        Vec3 { x: self.x.div_el(s), y: self.y.div_el(s), z: self.z.div_el(s) }
    }

    pub fn div_scale_assign(&mut self, s: T)
        requires
            old(self).div_scale_ok(s),
        ensures
            *final(self) == old(self).spec_div_scaled(s),
    {
        *self = self.div_scale(s);
    }
}

impl<T: Scalar> Vec3<T> where Vec3<T>: Norm<Length = T> {
    /// A copy of this vector with every component divided by the length.
    pub fn get_normalized(&self) -> (r: Self)
        requires
            self.length_ok(),
            self.div_scale_ok(self.spec_length()),
        ensures
            r == self.spec_div_scaled(self.spec_length()),
    {
        let mut result = *self;
        let len = self.length();
        result.div_scale_assign(len);
        result
    }

    /// Divides every component by the length, in place.
    pub fn normalize(&mut self)
        requires
            old(self).length_ok(),
            old(self).div_scale_ok(old(self).spec_length()),
        ensures
            *final(self) == old(self).spec_div_scaled(old(self).spec_length()),
    {
        let len = self.length();
        self.div_scale_assign(len);
    }
}

/// A three-dimensional point or direction with exact integer coordinates.
pub type Vec3d = Vec3<i64>;

impl Vec3d {
    pub fn new_raw(x: i64, y: i64, z: i64) -> (r: Self)
        ensures
            r == (Vec3 { x, y, z }),
    {
        Vec3d::new(x, y, z)
    }
}

impl Norm for Vec3<i64> {
    type Length = i64;

    open spec fn length_ok(&self) -> bool {
        self.sq_len_ok()
    }

    open spec fn spec_length(&self) -> i64 {
        isqrt_spec(self.spec_sq_len() as int) as i64
    }

    /// The integer square root of the squared length.
    fn length(&self) -> (r: i64) {
        let sq = self.squared_length();
        proof {
            assert(sq >= 0) by (nonlinear_arith)
                requires
                    sq == self.x * self.x + self.y * self.y + self.z * self.z,
            ;
        }
        let root = isqrt(sq as u64);
        proof {
            lemma_isqrt_unique(sq as int, root as int);
        }
        root as i64
    }
}

} // verus!
