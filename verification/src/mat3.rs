//! Three-by-three matrices over a [`Scalar`] element type, stored as a triple of rows.

use crate::traits::Scalar;
use crate::vec3::Vec3;
use vstd::prelude::*;

verus! {

/// A three-by-three matrix; `r.x`, `r.y` and `r.z` are the rows.
#[derive(Copy, Clone, Debug, PartialEq, Eq, Hash)]
pub struct Mat3<T> {
    pub r: Vec3<Vec3<T>>,
}

impl<T: Copy> Mat3<T> {
    pub fn new(row1: Vec3<T>, row2: Vec3<T>, row3: Vec3<T>) -> (m: Self)
        ensures
            m.r.x == row1,
            m.r.y == row2,
            m.r.z == row3,
    {
        Self { r: Vec3::<Vec3<T>>::new(row1, row2, row3) }
    }
}

impl<T: Scalar> Mat3<T> {
    /// Componentwise negation.
    pub fn neg_m(&self) -> (m: Self)
        requires
            self.r.neg_ok(),
        ensures
            m.r == self.r.spec_negated(),
    {
        Mat3 { r: self.r.neg_el() }
    }

    /// Componentwise sum.
    pub fn add_m(&self, rhs: &Mat3<T>) -> (m: Self)
        requires
            self.r.add_ok(rhs.r),
        ensures
            m.r == self.r.spec_sum(rhs.r),
    {
        Mat3 { r: self.r.add_el(rhs.r) }
    }

    pub fn add_assign_m(&mut self, rhs: &Mat3<T>)
        requires
            old(self).r.add_ok(rhs.r),
        ensures
            final(self).r == old(self).r.spec_sum(rhs.r),
    {
        *self = self.add_m(rhs);
    }

    /// Componentwise difference.
    pub fn sub_m(&self, rhs: &Mat3<T>) -> (m: Self)
        requires
            self.r.sub_ok(rhs.r),
        ensures
            m.r == self.r.spec_diff(rhs.r),
    {
        Mat3 { r: self.r.sub_el(rhs.r) }
    }

    pub fn sub_assign_m(&mut self, rhs: &Mat3<T>)
        requires
            old(self).r.sub_ok(rhs.r),
        ensures
            final(self).r == old(self).r.spec_diff(rhs.r),
    {
        *self = self.sub_m(rhs);
    }

    /// The first column of the matrix.
    pub open spec fn spec_col0(self) -> Vec3<T> {
        Vec3 { x: self.r.x.x, y: self.r.y.x, z: self.r.z.x }
    }

    /// The second column of the matrix.
    pub open spec fn spec_col1(self) -> Vec3<T> {
        Vec3 { x: self.r.x.y, y: self.r.y.y, z: self.r.z.y }
    }

    /// The third column of the matrix.
    pub open spec fn spec_col2(self) -> Vec3<T> {
        Vec3 { x: self.r.x.z, y: self.r.y.z, z: self.r.z.z }
    }

    /// When every row/column dot product of the matrix product is representable.
    pub open spec fn mul_m_ok(self, rhs: Self) -> bool {
        &&& self.r.x.dot_ok(rhs.spec_col0())
        &&& self.r.x.dot_ok(rhs.spec_col1())
        &&& self.r.x.dot_ok(rhs.spec_col2())
        &&& self.r.y.dot_ok(rhs.spec_col0())
        &&& self.r.y.dot_ok(rhs.spec_col1())
        &&& self.r.y.dot_ok(rhs.spec_col2())
        &&& self.r.z.dot_ok(rhs.spec_col0())
        &&& self.r.z.dot_ok(rhs.spec_col1())
        &&& self.r.z.dot_ok(rhs.spec_col2())
    }

    pub open spec fn spec_mul_m(self, rhs: Self) -> Self {
        Mat3 {
            r: Vec3 {
                x: Vec3 {
                    x: self.r.x.spec_dot(rhs.spec_col0()),
                    y: self.r.x.spec_dot(rhs.spec_col1()),
                    z: self.r.x.spec_dot(rhs.spec_col2()),
                },
                y: Vec3 {
                    x: self.r.y.spec_dot(rhs.spec_col0()),
                    y: self.r.y.spec_dot(rhs.spec_col1()),
                    z: self.r.y.spec_dot(rhs.spec_col2()),
                },
                z: Vec3 {
                    x: self.r.z.spec_dot(rhs.spec_col0()),
                    y: self.r.z.spec_dot(rhs.spec_col1()),
                    z: self.r.z.spec_dot(rhs.spec_col2()),
                },
            },
        }
    }

    /// The matrix product.
    pub fn mul_m(&self, rhs: &Mat3<T>) -> (m: Self)
        requires
            self.mul_m_ok(*rhs),
        ensures
            m == self.spec_mul_m(*rhs),
    {
        let rhs_col0 = Vec3::<T>::new(rhs.r.x.x, rhs.r.y.x, rhs.r.z.x);
        let rhs_col1 = Vec3::<T>::new(rhs.r.x.y, rhs.r.y.y, rhs.r.z.y);
        let rhs_col2 = Vec3::<T>::new(rhs.r.x.z, rhs.r.y.z, rhs.r.z.z);

        Mat3::<T>::new(
            Vec3::<T>::new(self.r.x.dot(&rhs_col0), self.r.x.dot(&rhs_col1), self.r.x.dot(&rhs_col2)),
            Vec3::<T>::new(self.r.y.dot(&rhs_col0), self.r.y.dot(&rhs_col1), self.r.y.dot(&rhs_col2)),
            Vec3::<T>::new(self.r.z.dot(&rhs_col0), self.r.z.dot(&rhs_col1), self.r.z.dot(&rhs_col2)),
        )
    }

    pub fn mul_assign_m(&mut self, rhs: &Mat3<T>)
        requires
            old(self).mul_m_ok(*rhs),
        ensures
            *final(self) == old(self).spec_mul_m(*rhs),
    {
        *self = self.mul_m(rhs);
    }

    /// The matrix applied to a vector.
    pub fn mul_vec(&self, rhs: &Vec3<T>) -> (v: Vec3<T>)
        requires
            self.r.x.dot_ok(*rhs),
            self.r.y.dot_ok(*rhs),
            self.r.z.dot_ok(*rhs),
        ensures
            v == (Vec3 {
                x: self.r.x.spec_dot(*rhs),
                y: self.r.y.spec_dot(*rhs),
                z: self.r.z.spec_dot(*rhs),
            }),
    {
        Vec3::<T>::new(self.r.x.dot(rhs), self.r.y.dot(rhs), self.r.z.dot(rhs))
    }

    /// When every entry may be multiplied by the scalar `s`.
    pub open spec fn scale_m_ok(self, s: T) -> bool {
        self.r.x.scale_ok(s) && self.r.y.scale_ok(s) && self.r.z.scale_ok(s)
    }

    pub open spec fn spec_scaled_m(self, s: T) -> Self {
        Mat3 {
            r: Vec3 {
                x: self.r.x.spec_scaled(s),
                y: self.r.y.spec_scaled(s),
                z: self.r.z.spec_scaled(s),
            },
        }
    }

    /// Multiplication of every entry by a scalar.
    pub fn scale_m(&self, s: T) -> (m: Self)
        requires
            self.scale_m_ok(s),
        ensures
            m == self.spec_scaled_m(s),
    {
        Mat3 { r: Vec3::new(self.r.x.scale(s), self.r.y.scale(s), self.r.z.scale(s)) }
    }

    pub fn scale_assign_m(&mut self, s: T)
        requires
            old(self).scale_m_ok(s),
        ensures
            *final(self) == old(self).spec_scaled_m(s),
    {
        *self = self.scale_m(s);
    }

    /// When every entry may be divided by the scalar `s`.
    pub open spec fn div_m_ok(self, s: T) -> bool {
        self.r.x.div_scale_ok(s) && self.r.y.div_scale_ok(s) && self.r.z.div_scale_ok(s)
    }

    pub open spec fn spec_div_m(self, s: T) -> Self {
        Mat3 {
            r: Vec3 {
                x: self.r.x.spec_div_scaled(s),
                y: self.r.y.spec_div_scaled(s),
                z: self.r.z.spec_div_scaled(s),
            },
        }
    }

    /// Division of every entry by a scalar.
    pub fn div_m(&self, s: T) -> (m: Self)
        requires
            self.div_m_ok(s),
        ensures
            m == self.spec_div_m(s),
    {
        Mat3::<T>::new(self.r.x.div_scale(s), self.r.y.div_scale(s), self.r.z.div_scale(s))
    }

    pub fn div_assign_m(&mut self, s: T)
        requires
            old(self).div_m_ok(s),
        ensures
            *final(self) == old(self).spec_div_m(s),
    {
        *self = self.div_m(s);
    }
}

/// A three-by-three matrix with exact integer entries.
pub type Mat3d = Mat3<i64>;

} // verus!
