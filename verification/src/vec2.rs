//! Two-component vectors over a [`Scalar`] element type.
//!
//! `Vec2<T>` itself implements [`Scalar`] componentwise, so vectors nest
//! (`Vec2<Vec2<T>>` is the row pair of a two-by-two matrix) and every
//! operation of the algebra is available one level up.

use crate::traits::{abs_int, isqrt, Norm, Scalar};
use vstd::prelude::*;

verus! {

/// A vector with two components.
#[derive(Copy, Clone, Debug, PartialEq, Eq, Hash)]
pub struct Vec2<T> {
    pub x: T,
    pub y: T,
}

impl<T: Copy> Vec2<T> {
    pub fn new(x: T, y: T) -> (r: Self)
        ensures
            r == (Vec2 { x, y }),
    {
        Vec2 { x, y }
    }
}

impl<T: Scalar> Scalar for Vec2<T> {
    open spec fn add_ok(self, other: Self) -> bool {
        self.x.add_ok(other.x) && self.y.add_ok(other.y)
    }

    open spec fn spec_sum(self, other: Self) -> Self {
        Vec2 { x: self.x.spec_sum(other.x), y: self.y.spec_sum(other.y) }
    }

    fn add_el(self, other: Self) -> (r: Self) {
        Vec2 { x: self.x.add_el(other.x), y: self.y.add_el(other.y) }
    }

    open spec fn sub_ok(self, other: Self) -> bool {
        self.x.sub_ok(other.x) && self.y.sub_ok(other.y)
    }

    open spec fn spec_diff(self, other: Self) -> Self {
        Vec2 { x: self.x.spec_diff(other.x), y: self.y.spec_diff(other.y) }
    }

    fn sub_el(self, other: Self) -> (r: Self) {
        Vec2 { x: self.x.sub_el(other.x), y: self.y.sub_el(other.y) }
    }

    open spec fn mul_ok(self, other: Self) -> bool {
        self.x.mul_ok(other.x) && self.y.mul_ok(other.y)
    }

    open spec fn spec_prod(self, other: Self) -> Self {
        Vec2 { x: self.x.spec_prod(other.x), y: self.y.spec_prod(other.y) }
    }

    fn mul_el(self, other: Self) -> (r: Self) {
        Vec2 { x: self.x.mul_el(other.x), y: self.y.mul_el(other.y) }
    }

    open spec fn neg_ok(self) -> bool {
        self.x.neg_ok() && self.y.neg_ok()
    }

    open spec fn spec_negated(self) -> Self {
        Vec2 { x: self.x.spec_negated(), y: self.y.spec_negated() }
    }

    fn neg_el(self) -> (r: Self) {
        Vec2 { x: self.x.neg_el(), y: self.y.neg_el() }
    }

    open spec fn div_ok(self, other: Self) -> bool {
        self.x.div_ok(other.x) && self.y.div_ok(other.y)
    }

    open spec fn spec_quot(self, other: Self) -> Self {
        Vec2 { x: self.x.spec_quot(other.x), y: self.y.spec_quot(other.y) }
    }

    fn div_el(self, other: Self) -> (r: Self) {
        Vec2 { x: self.x.div_el(other.x), y: self.y.div_el(other.y) }
    }
}

impl<T: Scalar> Vec2<T> {
    /// When both components may be squared and the squares summed.
    pub open spec fn sq_len_ok(self) -> bool {
        &&& self.x.mul_ok(self.x)
        &&& self.y.mul_ok(self.y)
        &&& self.x.spec_prod(self.x).add_ok(self.y.spec_prod(self.y))
    }

    pub open spec fn spec_sq_len(self) -> T {
        self.x.spec_prod(self.x).spec_sum(self.y.spec_prod(self.y))
    }

    pub fn squared_length(&self) -> (r: T)
        requires
            self.sq_len_ok(),
        ensures
            r == self.spec_sq_len(),
    {
        self.x.mul_el(self.x).add_el(self.y.mul_el(self.y))
    }

    /// When the products of corresponding components may be formed and summed.
    pub open spec fn dot_ok(self, other: Self) -> bool {
        &&& self.x.mul_ok(other.x)
        &&& self.y.mul_ok(other.y)
        &&& self.x.spec_prod(other.x).add_ok(self.y.spec_prod(other.y))
    }

    pub open spec fn spec_dot(self, other: Self) -> T {
        self.x.spec_prod(other.x).spec_sum(self.y.spec_prod(other.y))
    }

    pub fn dot(&self, other: &Vec2<T>) -> (r: T)
        requires
            self.dot_ok(*other),
        ensures
            r == self.spec_dot(*other),
    {
        self.x.mul_el(other.x).add_el(self.y.mul_el(other.y))
    }

    /// Componentwise negation.
    pub fn neg_v(&self) -> (r: Self)
        requires
            self.neg_ok(),
        ensures
            r == self.spec_negated(),
    {
        self.neg_el()
    }

    /// Componentwise sum.
    pub fn add_v(&self, rhs: &Vec2<T>) -> (r: Self)
        requires
            self.add_ok(*rhs),
        ensures
            r == self.spec_sum(*rhs),
    {
        self.add_el(*rhs)
    }

    pub fn add_assign_v(&mut self, rhs: &Vec2<T>)
        requires
            old(self).add_ok(*rhs),
        ensures
            *final(self) == old(self).spec_sum(*rhs),
    {
        *self = self.add_el(*rhs);
    }

    /// Componentwise difference.
    pub fn sub_v(&self, rhs: &Vec2<T>) -> (r: Self)
        requires
            self.sub_ok(*rhs),
        ensures
            r == self.spec_diff(*rhs),
    {
        self.sub_el(*rhs)
    }

    pub fn sub_assign_v(&mut self, rhs: &Vec2<T>)
        requires
            old(self).sub_ok(*rhs),
        ensures
            *final(self) == old(self).spec_diff(*rhs),
    {
        *self = self.sub_el(*rhs);
    }

    /// Componentwise product.
    pub fn mul_v(&self, rhs: &Vec2<T>) -> (r: Self)
        requires
            self.mul_ok(*rhs),
        ensures
            r == self.spec_prod(*rhs),
    {
        self.mul_el(*rhs)
    }

    pub fn mul_assign_v(&mut self, rhs: &Vec2<T>)
        requires
            old(self).mul_ok(*rhs),
        ensures
            *final(self) == old(self).spec_prod(*rhs),
    {
        *self = self.mul_el(*rhs);
    }

    /// When each component may be multiplied by the scalar `s`.
    pub open spec fn scale_ok(self, s: T) -> bool {
        self.x.mul_ok(s) && self.y.mul_ok(s)
    }

    pub open spec fn spec_scaled(self, s: T) -> Self {
        Vec2 { x: self.x.spec_prod(s), y: self.y.spec_prod(s) }
    }

    /// Multiplication of every component by a scalar.
    pub fn scale(&self, s: T) -> (r: Self)
        requires
            self.scale_ok(s),
        ensures
            r == self.spec_scaled(s),
    {
        Vec2 { x: self.x.mul_el(s), y: self.y.mul_el(s) }
    }

    pub fn scale_assign(&mut self, s: T)
        requires
            old(self).scale_ok(s),
        ensures
            *final(self) == old(self).spec_scaled(s),
    {
        *self = self.scale(s);
    }

    /// When each component may be divided by the scalar `s`.
    pub open spec fn div_scale_ok(self, s: T) -> bool {
        self.x.div_ok(s) && self.y.div_ok(s)
    }

    pub open spec fn spec_div_scaled(self, s: T) -> Self {
        Vec2 { x: self.x.spec_quot(s), y: self.y.spec_quot(s) }
    }

    /// Division of every component by a scalar.
    pub fn div_scale(&self, s: T) -> (r: Self)
        requires
            self.div_scale_ok(s),
        ensures
            r == self.spec_div_scaled(s),
    {
        Vec2 { x: self.x.div_el(s), y: self.y.div_el(s) }
    }

    pub fn div_scale_assign(&mut self, s: T)
        requires
            old(self).div_scale_ok(s),
        ensures
            *final(self) == old(self).spec_div_scaled(s),
    {
        *self = self.div_scale(s);
    }
}

impl<T: Scalar> Vec2<T> where Vec2<T>: Norm<Length = T> {
    /// A copy of this vector with every component divided by the length.
    pub fn get_normalized(&self) -> (r: Self)
        requires
            self.length_ok(),
            self.div_scale_ok(self.spec_length()),
        ensures
            r == self.spec_div_scaled(self.spec_length()),
    {
        let mut result = *self;
        let len = self.length();
        result.div_scale_assign(len);
        result
    }

    /// Divides every component by the length, in place.
    pub fn normalize(&mut self)
        requires
            old(self).length_ok(),
            old(self).div_scale_ok(old(self).spec_length()),
        ensures
            *final(self) == old(self).spec_div_scaled(old(self).spec_length()),
    {
        let len = self.length();
        self.div_scale_assign(len);
    }
}

/// A two-dimensional point or direction with exact integer coordinates.
pub type Vec2d = Vec2<i64>;

impl Vec2d {
    pub fn new_raw(x: i64, y: i64) -> (r: Self)
        ensures
            r == (Vec2 { x, y }),
    {
        Vec2d::new(x, y)
    }
}

/// The nonnegative integer square root, over mathematical integers.
pub open spec fn isqrt_spec(n: int) -> int {
    choose|r: int| r >= 0 && #[trigger] (r * r) <= n < (r + 1) * (r + 1)
}

/// The integer square root is unique, so `isqrt_spec` is pinned down for
/// nonnegative arguments.
pub proof fn lemma_isqrt_unique(n: int, r: int)
    requires
        r >= 0,
        r * r <= n < (r + 1) * (r + 1),
    ensures
        isqrt_spec(n) == r,
{
    let w = choose|w: int| w >= 0 && #[trigger] (w * w) <= n < (w + 1) * (w + 1);
    assert(w >= 0 && w * w <= n < (w + 1) * (w + 1));
    assert(w == r) by (nonlinear_arith)
        requires
            r >= 0,
            w >= 0,
            r * r <= n < (r + 1) * (r + 1),
            w * w <= n < (w + 1) * (w + 1),
    ;
}

impl Norm for Vec2<i64> {
    type Length = i64;

    open spec fn length_ok(&self) -> bool {
        self.sq_len_ok()
    }

    open spec fn spec_length(&self) -> i64 {
        isqrt_spec(self.spec_sq_len() as int) as i64
    }

    /// The integer square root of the squared length.
    fn length(&self) -> (r: i64) {
        let sq = self.squared_length();
        proof {
            assert(sq >= 0) by (nonlinear_arith)
                requires
                    sq == self.x * self.x + self.y * self.y,
            ;
        }
        let root = isqrt(sq as u64);
        proof {
            lemma_isqrt_unique(sq as int, root as int);
        }
        root as i64
    }
}

} // verus!
