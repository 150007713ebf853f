//! Two-by-two matrices over a [`Scalar`] element type, stored as a pair of rows.

use crate::traits::Scalar;
use crate::vec2::Vec2;
use vstd::prelude::*;

verus! {

/// A two-by-two matrix; `r.x` is the first row and `r.y` the second.
#[derive(Copy, Clone, Debug, PartialEq, Eq, Hash)]
pub struct Mat2<T> {
    pub r: Vec2<Vec2<T>>,
}

impl<T: Copy> Mat2<T> {
    pub fn new(row1: Vec2<T>, row2: Vec2<T>) -> (m: Self)
        ensures
            m.r.x == row1,
            m.r.y == row2,
    {
        Self { r: Vec2::<Vec2<T>>::new(row1, row2) }
    }
}

impl<T: Scalar> Mat2<T> {
    /// Componentwise negation.
    pub fn neg_m(&self) -> (m: Self)
        requires
            self.r.neg_ok(),
        ensures
            m.r == self.r.spec_negated(),
    {
        Mat2 { r: self.r.neg_el() }
    }

    /// Componentwise sum.
    pub fn add_m(&self, rhs: &Mat2<T>) -> (m: Self)
        requires
            self.r.add_ok(rhs.r),
        ensures
            m.r == self.r.spec_sum(rhs.r),
    {
        Mat2 { r: self.r.add_el(rhs.r) }
    }

    pub fn add_assign_m(&mut self, rhs: &Mat2<T>)
        requires
            old(self).r.add_ok(rhs.r),
        ensures
            final(self).r == old(self).r.spec_sum(rhs.r),
    {
        *self = self.add_m(rhs);
    }

    /// Componentwise difference.
    pub fn sub_m(&self, rhs: &Mat2<T>) -> (m: Self)
        requires
            self.r.sub_ok(rhs.r),
        ensures
            m.r == self.r.spec_diff(rhs.r),
    {
        Mat2 { r: self.r.sub_el(rhs.r) }
    }

    pub fn sub_assign_m(&mut self, rhs: &Mat2<T>)
        requires
            old(self).r.sub_ok(rhs.r),
        ensures
            final(self).r == old(self).r.spec_diff(rhs.r),
    {
        *self = self.sub_m(rhs);
    }

    /// The first column of the matrix.
    pub open spec fn spec_col0(self) -> Vec2<T> {
        Vec2 { x: self.r.x.x, y: self.r.y.x }
    }

    /// The second column of the matrix.
    pub open spec fn spec_col1(self) -> Vec2<T> {
        Vec2 { x: self.r.x.y, y: self.r.y.y }
    }

    /// When every row/column dot product of the matrix product is representable.
    pub open spec fn mul_m_ok(self, rhs: Self) -> bool {
        &&& self.r.x.dot_ok(rhs.spec_col0())
        &&& self.r.x.dot_ok(rhs.spec_col1())
        &&& self.r.y.dot_ok(rhs.spec_col0())
        &&& self.r.y.dot_ok(rhs.spec_col1())
    }

    pub open spec fn spec_mul_m(self, rhs: Self) -> Self {
        Mat2 {
            r: Vec2 {
                x: Vec2 {
                    x: self.r.x.spec_dot(rhs.spec_col0()),
                    y: self.r.x.spec_dot(rhs.spec_col1()),
                },
                y: Vec2 {
                    x: self.r.y.spec_dot(rhs.spec_col0()),
                    y: self.r.y.spec_dot(rhs.spec_col1()),
                },
            },
        }
    }

    /// The matrix product.
    pub fn mul_m(&self, rhs: &Mat2<T>) -> (m: Self)
        requires
            self.mul_m_ok(*rhs),
        ensures
            m == self.spec_mul_m(*rhs),
    {
        let rhs_col0 = Vec2::<T>::new(rhs.r.x.x, rhs.r.y.x);
        let rhs_col1 = Vec2::<T>::new(rhs.r.x.y, rhs.r.y.y);

        Mat2::<T>::new(
            Vec2::<T>::new(self.r.x.dot(&rhs_col0), self.r.x.dot(&rhs_col1)),
            Vec2::<T>::new(self.r.y.dot(&rhs_col0), self.r.y.dot(&rhs_col1)),
        )
    }

    pub fn mul_assign_m(&mut self, rhs: &Mat2<T>)
        requires
            old(self).mul_m_ok(*rhs),
        ensures
            *final(self) == old(self).spec_mul_m(*rhs),
    {
        *self = self.mul_m(rhs);
    }

    /// The matrix applied to a vector.
    pub fn mul_vec(&self, rhs: &Vec2<T>) -> (v: Vec2<T>)
        requires
            self.r.x.dot_ok(*rhs),
            self.r.y.dot_ok(*rhs),
        ensures
            v == (Vec2 { x: self.r.x.spec_dot(*rhs), y: self.r.y.spec_dot(*rhs) }),
    {
        Vec2::<T>::new(self.r.x.dot(rhs), self.r.y.dot(rhs))
    }

    /// When every entry may be multiplied by the scalar `s`.
    pub open spec fn scale_m_ok(self, s: T) -> bool {
        self.r.x.scale_ok(s) && self.r.y.scale_ok(s)
    }

    pub open spec fn spec_scaled_m(self, s: T) -> Self {
        Mat2 { r: Vec2 { x: self.r.x.spec_scaled(s), y: self.r.y.spec_scaled(s) } }
    }

    /// Multiplication of every entry by a scalar.
    pub fn scale_m(&self, s: T) -> (m: Self)
        requires
            self.scale_m_ok(s),
        ensures
            m == self.spec_scaled_m(s),
    {
        Mat2 { r: Vec2::new(self.r.x.scale(s), self.r.y.scale(s)) }
    }

    pub fn scale_assign_m(&mut self, s: T)
        requires
            old(self).scale_m_ok(s),
        ensures
            *final(self) == old(self).spec_scaled_m(s),
    {
        *self = self.scale_m(s);
    }

    /// When every entry may be divided by the scalar `s`.
    pub open spec fn div_m_ok(self, s: T) -> bool {
        self.r.x.div_scale_ok(s) && self.r.y.div_scale_ok(s)
    }

    pub open spec fn spec_div_m(self, s: T) -> Self {
        Mat2 { r: Vec2 { x: self.r.x.spec_div_scaled(s), y: self.r.y.spec_div_scaled(s) } }
    }

    /// Division of every entry by a scalar.
    pub fn div_m(&self, s: T) -> (m: Self)
        requires
            self.div_m_ok(s),
        ensures
            m == self.spec_div_m(s),
    {
        Mat2::<T>::new(self.r.x.div_scale(s), self.r.y.div_scale(s))
    }

    pub fn div_assign_m(&mut self, s: T)
        requires
            old(self).div_m_ok(s),
        ensures
            *final(self) == old(self).spec_div_m(s),
    {
        *self = self.div_m(s);
    }
}

/// A two-by-two matrix with exact integer entries.
pub type Mat2d = Mat2<i64>;

impl Mat2d {
    /// The quarter-turn rotation matrix: rows `(0, -1)` and `(1, 0)`.
    pub fn new_rot90() -> (m: Self)
        ensures
            m.r.x == (Vec2 { x: 0i64, y: -1i64 }),
            m.r.y == (Vec2 { x: 1i64, y: 0i64 }),
    {
        Mat2d::new(Vec2::new(0, -1), Vec2::new(1, 0))
    }
}

} // verus!
