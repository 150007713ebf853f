//! Scalar arithmetic and vector length capabilities.
//!
//! [`Scalar`] is the numeric vocabulary the vectors and matrices are generic
//! over: addition, subtraction, negation, componentwise multiplication and
//! division, each guarded by a predicate that rules out overflow, and each with
//! an exact specification-level counterpart. [`Norm`] supplies a length notion
//! for vector types.

use vstd::prelude::*;

verus! {

/// An element type for the vector and matrix algebra.
///
/// Every operation has a guard (`add_ok`, ...) saying when the operation is
/// representable, and a specification-level value (`spec_sum`, ...) that the
/// executable method is proved to return.
pub trait Scalar: Sized + Copy {
    spec fn add_ok(self, other: Self) -> bool;

    spec fn spec_sum(self, other: Self) -> Self;

    fn add_el(self, other: Self) -> (r: Self)
        requires
            self.add_ok(other),
        ensures
            r == self.spec_sum(other),
    ;

    spec fn sub_ok(self, other: Self) -> bool;

    spec fn spec_diff(self, other: Self) -> Self;

    fn sub_el(self, other: Self) -> (r: Self)
        requires
            self.sub_ok(other),
        ensures
            r == self.spec_diff(other),
    ;

    spec fn mul_ok(self, other: Self) -> bool;

    spec fn spec_prod(self, other: Self) -> Self;

    fn mul_el(self, other: Self) -> (r: Self)
        requires
            self.mul_ok(other),
        ensures
            r == self.spec_prod(other),
    ;

    spec fn neg_ok(self) -> bool;

    spec fn spec_negated(self) -> Self;

    fn neg_el(self) -> (r: Self)
        requires
            self.neg_ok(),
        ensures
            r == self.spec_negated(),
    ;

    spec fn div_ok(self, other: Self) -> bool;

    spec fn spec_quot(self, other: Self) -> Self;

    fn div_el(self, other: Self) -> (r: Self)
        requires
            self.div_ok(other),
        ensures
            r == self.spec_quot(other),
    ;
}

/// Truncating (round-toward-zero) integer division, the behaviour of `/` on
/// Rust's signed integers, expressed over mathematical integers.
pub open spec fn trunc_div(a: int, b: int) -> int {
    let m = abs_int(a) / abs_int(b);
    if (a < 0) != (b < 0) {
        -m
    } else {
        m
    }
}

/// Absolute value over mathematical integers.
pub open spec fn abs_int(a: int) -> int {
    if a < 0 {
        -a
    } else {
        a
    }
}

impl Scalar for i64 {
    open spec fn add_ok(self, other: Self) -> bool {
        i64::MIN <= self + other <= i64::MAX
    }

    open spec fn spec_sum(self, other: Self) -> Self {
        (self + other) as i64
    }

    fn add_el(self, other: Self) -> (r: Self) {
        self + other
    }

    open spec fn sub_ok(self, other: Self) -> bool {
        i64::MIN <= self - other <= i64::MAX
    }

    open spec fn spec_diff(self, other: Self) -> Self {
        (self - other) as i64
    }

    fn sub_el(self, other: Self) -> (r: Self) {
        self - other
    }

    open spec fn mul_ok(self, other: Self) -> bool {
        i64::MIN <= self * other <= i64::MAX
    }

    open spec fn spec_prod(self, other: Self) -> Self {
        (self * other) as i64
    }

    fn mul_el(self, other: Self) -> (r: Self) {
        self * other
    }

    open spec fn neg_ok(self) -> bool {
        self != i64::MIN
    }

    open spec fn spec_negated(self) -> Self {
        (-self) as i64
    }

    fn neg_el(self) -> (r: Self) {
        -self
    }

    open spec fn div_ok(self, other: Self) -> bool {
        other != 0 && !(self == i64::MIN && other == -1)
    }

    open spec fn spec_quot(self, other: Self) -> Self {
        trunc_div(self as int, other as int) as i64
    }

    fn div_el(self, other: Self) -> (r: Self) {
        let q = self.checked_div(other);
        proof {
            let x = self as int;
            let d = other as int;
            let ax = abs_int(x);
            let ad = abs_int(d);
            let m = ax / ad;
            assert(0 <= m <= ax) by (nonlinear_arith)
                requires
                    ax >= 0,
                    ad >= 1,
                    m == ax / ad,
            ;
            if ad >= 2 {
                assert(2 * m <= ax) by (nonlinear_arith)
                    requires
                        ax >= 0,
                        ad >= 2,
                        m == ax / ad,
                ;
            }
        }
        q.unwrap()
    }
}

impl Scalar for i32 {
    open spec fn add_ok(self, other: Self) -> bool {
        i32::MIN <= self + other <= i32::MAX
    }

    open spec fn spec_sum(self, other: Self) -> Self {
        (self + other) as i32
    }

    fn add_el(self, other: Self) -> (r: Self) {
        self + other
    }

    open spec fn sub_ok(self, other: Self) -> bool {
        i32::MIN <= self - other <= i32::MAX
    }

    open spec fn spec_diff(self, other: Self) -> Self {
        (self - other) as i32
    }

    fn sub_el(self, other: Self) -> (r: Self) {
        self - other
    }

    open spec fn mul_ok(self, other: Self) -> bool {
        i32::MIN <= self * other <= i32::MAX
    }

    open spec fn spec_prod(self, other: Self) -> Self {
        (self * other) as i32
    }

    fn mul_el(self, other: Self) -> (r: Self) {
        self * other
    }

    open spec fn neg_ok(self) -> bool {
        self != i32::MIN
    }

    open spec fn spec_negated(self) -> Self {
        (-self) as i32
    }

    fn neg_el(self) -> (r: Self) {
        -self
    }

    open spec fn div_ok(self, other: Self) -> bool {
        other != 0 && !(self == i32::MIN && other == -1)
    }

    open spec fn spec_quot(self, other: Self) -> Self {
        trunc_div(self as int, other as int) as i32
    }

    fn div_el(self, other: Self) -> (r: Self) {
        let q = self.checked_div(other);
        proof {
            let x = self as int;
            let d = other as int;
            let ax = abs_int(x);
            let ad = abs_int(d);
            let m = ax / ad;
            assert(0 <= m <= ax) by (nonlinear_arith)
                requires
                    ax >= 0,
                    ad >= 1,
                    m == ax / ad,
            ;
            if ad >= 2 {
                assert(2 * m <= ax) by (nonlinear_arith)
                    requires
                        ax >= 0,
                        ad >= 2,
                        m == ax / ad,
                ;
            }
        }
        q.unwrap()
    }
}

/// A length notion for vector types, the analogue of a Euclidean norm over
/// exact integers: the integer square root of the squared length.
pub trait Norm {
    type Length;

    /// When the squared length is representable, so that `length` may be called.
    spec fn length_ok(&self) -> bool;

    spec fn spec_length(&self) -> Self::Length;

    fn length(&self) -> (r: Self::Length)
        requires
            self.length_ok(),
        ensures
            r == self.spec_length(),
    ;
}

/// The integer square root: the greatest `r` with `r * r <= n`.
pub fn isqrt(n: u64) -> (r: u64)
    ensures
        r * r <= n < (r + 1) * (r + 1),
{
    let mut lo: u64 = 0;
    let mut hi: u64 = 4294967296;
    proof {
        assert(hi * hi > n) by (nonlinear_arith)
            requires
                hi == 4294967296u64,
                n <= u64::MAX,
        ;
    }
    while lo + 1 < hi
        invariant
            lo < hi <= 4294967296,
            lo * lo <= n,
            hi * hi > n,
        decreases hi - lo,
    {
        let mid = lo + (hi - lo) / 2;
        assert(lo < mid < hi);
        assert(mid * mid <= u64::MAX) by (nonlinear_arith)
            requires
                mid < 4294967296u64,
        ;
        if mid * mid <= n {
            lo = mid;
        } else {
            hi = mid;
        }
    }
    proof {
        assert((lo + 1) * (lo + 1) >= hi * hi) by (nonlinear_arith)
            requires
                lo + 1 >= hi,
                lo >= 0,
        ;
    }
    lo
}


} // verus!
