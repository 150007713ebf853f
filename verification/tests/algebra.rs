use kd_tree::mat2::Mat2;
use kd_tree::mat3::Mat3;
use kd_tree::traits::isqrt;
use kd_tree::traits::Norm;
use kd_tree::traits::Scalar;
use kd_tree::vec2::Vec2;
use kd_tree::vec2::Vec2d;
use kd_tree::vec3::Vec3;
use kd_tree::vec3::Vec3d;

#[test]
fn test_vector_multiplication_scalar() {
    let vec1 = Vec2::<i32>::new(0, 1);
    let vec2 = Vec2::<i32>::new(-2, 3);

    {
        let mut result = vec1;
        let scalar = 0;

        result.scale_assign(scalar);
        assert_eq!(result, Vec2::new(0, 0));
    }

    {
        let scalar = 0;
        let result = vec1.scale(scalar);
        assert_eq!(result, Vec2::new(0, 0));
    }

    {
        let scalar = 0;
        let result = (&vec1).scale(scalar);
        assert_eq!(result, Vec2::new(0, 0));
    }

    {
        let mut result = vec2;
        let scalar = 4;

        result.scale_assign(scalar);
        assert_eq!(result, Vec2::new(-8, 12));
    }

    {
        let scalar = 5;
        let result = vec2.scale(scalar);
        assert_eq!(result, Vec2::new(-10, 15));
    }

    {
        let scalar = 7;
        let result = (&vec2).scale(scalar);
        assert_eq!(result, Vec2::new(-14, 21));
    }
}

#[test]
fn test_addassign_nested() {
    let mut x: Vec2<Vec2<i32>> = Vec2::new(Vec2::new(1, 2), Vec2::new(3, 4));
    let y: Vec2<Vec2<i32>> = Vec2::new(Vec2::new(4, 5), Vec2::new(6, 7));

    let sum: Vec2<Vec2<i32>> = Vec2::new(Vec2::new(5, 7), Vec2::new(9, 11));

    x.add_assign_v(&y);
    assert_eq!(x, sum);
}

#[test]
fn test_vec2_ops() {
    let a = Vec2d::new_raw(3, -4);
    let b = Vec2d::new_raw(-1, 2);
    assert_eq!(a.add_v(&b), Vec2d::new_raw(2, -2));
    assert_eq!(a.sub_v(&b), Vec2d::new_raw(4, -6));
    assert_eq!(a.mul_v(&b), Vec2d::new_raw(-3, -8));
    assert_eq!(a.neg_v(), Vec2d::new_raw(-3, 4));
    assert_eq!(a.squared_length(), 25);
    assert_eq!(a.dot(&b), -11);
    assert_eq!(a.div_scale(2), Vec2d::new_raw(1, -2));
}

#[test]
fn test_vec2_div_truncates_toward_zero() {
    let a = Vec2d::new_raw(-7, 7);
    assert_eq!(a.div_scale(2), Vec2d::new_raw(-3, 3));
    assert_eq!(a.div_scale(-2), Vec2d::new_raw(3, -3));
    assert_eq!((-7i64).div_el(2), -3);
}

#[test]
fn test_vec3_ops() {
    let a = Vec3d::new_raw(1, 2, 3);
    let b = Vec3d::new_raw(4, -5, 6);
    assert_eq!(a.add_v(&b), Vec3d::new_raw(5, -3, 9));
    assert_eq!(a.sub_v(&b), Vec3d::new_raw(-3, 7, -3));
    assert_eq!(a.dot(&b), 12);
    assert_eq!(a.squared_length(), 14);
    assert_eq!(a.as_vec2(), Vec2d::new_raw(1, 2));
    let mut c = a;
    c.sub_assign_v(&b);
    assert_eq!(c, Vec3d::new_raw(-3, 7, -3));
    let mut d = a;
    d.mul_assign_v(&b);
    assert_eq!(d, Vec3d::new_raw(4, -10, 18));
}

#[test]
fn test_vec3_cross() {
    let x = Vec3::<i64>::new(1, 0, 0);
    let y = Vec3::<i64>::new(0, 1, 0);
    assert_eq!(x.cross(&y), Vec3::new(0, 0, 1));
    let a = Vec3::<i64>::new(2, 3, 4);
    let b = Vec3::<i64>::new(5, 6, 7);
    assert_eq!(a.cross(&b), Vec3::new(-3, 6, -3));
}

#[test]
fn test_isqrt_and_length() {
    assert_eq!(isqrt(0), 0);
    assert_eq!(isqrt(15), 3);
    assert_eq!(isqrt(16), 4);
    assert_eq!(isqrt(10_000_000_001), 100000);
    assert_eq!(Vec2d::new_raw(3, 4).length(), 5);
    assert_eq!(Vec3d::new_raw(2, 3, 6).length(), 7);
}

#[test]
fn test_normalize() {
    let v = Vec2d::new_raw(5, 0);
    assert_eq!(v.get_normalized(), Vec2d::new_raw(1, 0));
    let mut w = Vec3d::new_raw(0, -7, 0);
    w.normalize();
    assert_eq!(w, Vec3d::new_raw(0, -1, 0));
}

#[test]
fn test_mat2_mul() {
    let a = Mat2::<i64>::new(Vec2::new(1, 2), Vec2::new(3, 4));
    let b = Mat2::<i64>::new(Vec2::new(5, 6), Vec2::new(7, 8));
    let c = a.mul_m(&b);
    assert_eq!(c.r.x, Vec2::new(19, 22));
    assert_eq!(c.r.y, Vec2::new(43, 50));
    let v = a.mul_vec(&Vec2::new(10, 100));
    assert_eq!(v, Vec2::new(210, 430));
}

#[test]
fn test_mat2_elementwise() {
    let a = Mat2::<i64>::new(Vec2::new(1, 2), Vec2::new(3, 4));
    let b = Mat2::<i64>::new(Vec2::new(5, 6), Vec2::new(7, 8));
    let s = a.add_m(&b);
    assert_eq!(s.r.x, Vec2::new(6, 8));
    assert_eq!(s.r.y, Vec2::new(10, 12));
    let d = b.sub_m(&a);
    assert_eq!(d.r.x, Vec2::new(4, 4));
    let n = a.neg_m();
    assert_eq!(n.r.y, Vec2::new(-3, -4));
    let mut m = a;
    m.scale_assign_m(3);
    assert_eq!(m.r.x, Vec2::new(3, 6));
    assert_eq!(b.div_m(2).r.x, Vec2::new(2, 3));
}

#[test]
fn test_mat3_mul() {
    let a = Mat3::<i64>::new(Vec3::new(1, 2, 3), Vec3::new(4, 5, 6), Vec3::new(7, 8, 9));
    let b = Mat3::<i64>::new(Vec3::new(9, 8, 7), Vec3::new(6, 5, 4), Vec3::new(3, 2, 1));
    let c = a.mul_m(&b);
    assert_eq!(c.r.x, Vec3::new(30, 24, 18));
    assert_eq!(c.r.y, Vec3::new(84, 69, 54));
    assert_eq!(c.r.z, Vec3::new(138, 114, 90));
    let mut m = a;
    m.add_assign_m(&b);
    assert_eq!(m.r.x, Vec3::new(10, 10, 10));
}
