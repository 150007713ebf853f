use kd_tree::kd_tree_traits::BoundingBoxTrait;
use kd_tree::ray_box::{
    BoundingBox2d, BoundingBox3d, ConstrainedRay2d, ConstrainedRay3d, Frac, HitBoxResult, Ray2d,
    Ray3d,
};
use kd_tree::vec2::Vec2d;
use kd_tree::vec3::Vec3d;

#[test]
fn test_partition_tiles_widest_axis() {
    let b = BoundingBox2d::new(Vec2d::new_raw(0, 0), Vec2d::new_raw(4, 2));
    let (a, c) = b.partition().unwrap();
    assert_eq!(a.u, Vec2d::new_raw(0, 0));
    assert_eq!(a.v, Vec2d::new_raw(2, 2));
    assert_eq!(c.u, Vec2d::new_raw(2, 0));
    assert_eq!(c.v, Vec2d::new_raw(4, 2));
}

#[test]
fn test_partition_degenerate_box_fails() {
    let p = BoundingBox2d::new(Vec2d::new_raw(3, 3), Vec2d::new_raw(3, 3));
    assert!(p.partition().is_none());
    let tiny = BoundingBox2d::new(Vec2d::new_raw(0, 0), Vec2d::new_raw(1, 1));
    assert!(tiny.partition().is_none());
}

#[test]
fn test_partition_3d() {
    let b = BoundingBox3d::new(Vec3d::new_raw(0, 0, 0), Vec3d::new_raw(2, 2, 6));
    let (a, c) = b.partition().unwrap();
    assert_eq!(a.v, Vec3d::new_raw(2, 2, 3));
    assert_eq!(c.u, Vec3d::new_raw(0, 0, 3));
}

#[test]
fn test_extend_grows_narrowest_axis() {
    let b = BoundingBox2d::new(Vec2d::new_raw(0, 0), Vec2d::new_raw(1, 1));
    let (sibling, parent) = b.extend().unwrap();
    // the y axis is chosen (ties go to the later axis) and the box extends
    // less past the origin on the negative side, so it grows downward
    assert_eq!(sibling.u, Vec2d::new_raw(0, -1));
    assert_eq!(sibling.v, Vec2d::new_raw(1, 0));
    assert_eq!(parent.u, Vec2d::new_raw(0, -1));
    assert_eq!(parent.v, Vec2d::new_raw(1, 1));
}

#[test]
fn test_extend_hits_growth_ceiling() {
    let b = BoundingBox2d::new(Vec2d::new_raw(0, 0), Vec2d::new_raw(100000000, 100000000));
    assert!(b.extend().is_none());
    let b3 = BoundingBox3d::new(Vec3d::new_raw(0, 0, 0), Vec3d::new_raw(100000000, 100000000, 1));
    assert!(b3.extend().is_none());
}

#[test]
fn test_containment_and_overlap() {
    let outer = BoundingBox2d::new(Vec2d::new_raw(0, 0), Vec2d::new_raw(10, 10));
    let inner = BoundingBox2d::new(Vec2d::new_raw(2, 2), Vec2d::new_raw(5, 5));
    let apart = BoundingBox2d::new(Vec2d::new_raw(11, 11), Vec2d::new_raw(12, 12));
    let corner = BoundingBox2d::new(Vec2d::new_raw(10, 10), Vec2d::new_raw(12, 12));
    assert!(inner.is_contained(&outer));
    assert!(!outer.is_contained(&inner));
    assert!(inner.intersects(&outer));
    assert!(!apart.intersects(&inner));
    assert!(!apart.intersects(&outer));
    // boxes touching only at a corner still overlap (closed boxes)
    assert!(corner.intersects(&outer));
    assert!(inner.is_sub_scale(&outer));
    assert!(!outer.is_sub_scale(&inner));
}

#[test]
fn test_frac_order() {
    let half = Frac { num: 1, den: 2 };
    let two_thirds = Frac { num: 2, den: 3 };
    assert!(half.lt(&two_thirds));
    assert!(!two_thirds.lt(&half));
    assert!(half.ge_int(0));
    assert!(half.le_int(1));
    assert!(!half.ge_int(1));
}

#[test]
fn test_ray_box_2d_outside() {
    let b = BoundingBox2d::new(Vec2d::new_raw(0, 0), Vec2d::new_raw(10, 10));
    let cray = ConstrainedRay2d {
        ray: Ray2d::new(Vec2d::new_raw(-5, 5), Vec2d::new_raw(1, 0)),
        range: (0, 100),
    };
    match b.is_hit_by_ray(&cray) {
        HitBoxResult::Outside(near, far) => {
            assert_eq!(near.num, 5);
            assert_eq!(near.den, 1);
            assert_eq!(far.num, 15);
            assert_eq!(far.den, 1);
        }
        _ => panic!("expected two crossings"),
    }
}

#[test]
fn test_ray_box_2d_inside_and_miss() {
    let b = BoundingBox2d::new(Vec2d::new_raw(0, 0), Vec2d::new_raw(10, 10));
    let inside = ConstrainedRay2d {
        ray: Ray2d::new(Vec2d::new_raw(5, 5), Vec2d::new_raw(1, 0)),
        range: (0, 100),
    };
    match b.is_hit_by_ray(&inside) {
        HitBoxResult::Inside(exit) => {
            assert_eq!(exit.num, 5);
            assert_eq!(exit.den, 1);
        }
        _ => panic!("expected an exit crossing"),
    }
    let miss = ConstrainedRay2d {
        ray: Ray2d::new(Vec2d::new_raw(-5, 50), Vec2d::new_raw(1, 0)),
        range: (0, 100),
    };
    assert!(matches!(b.is_hit_by_ray(&miss), HitBoxResult::Miss));
}

#[test]
fn test_ray_box_3d() {
    let b = BoundingBox3d::new(Vec3d::new_raw(0, 0, 0), Vec3d::new_raw(10, 10, 10));
    let cray = ConstrainedRay3d {
        ray: Ray3d::new(Vec3d::new_raw(5, 5, -10), Vec3d::new_raw(0, 0, 2)),
        range: (0, 100),
    };
    match b.is_hit_by_ray(&cray) {
        HitBoxResult::Outside(near, far) => {
            // entry at t = 10/2, exit at t = 20/2
            assert_eq!(near.num, 10);
            assert_eq!(near.den, 2);
            assert_eq!(far.num, 20);
            assert_eq!(far.den, 2);
        }
        _ => panic!("expected two crossings"),
    }
}

#[test]
fn test_ray2d_intersect() {
    let r1 = Ray2d::new(Vec2d::new_raw(10, 0), Vec2d::new_raw(0, 5));
    let r2 = Ray2d::new(Vec2d::new_raw(0, 20), Vec2d::new_raw(1, 0));
    let alpha1 = r1.get_intersection(&r2).unwrap();
    let alpha2 = r2.get_intersection(&r1).unwrap();
    assert_eq!(alpha1.num, 4 * alpha1.den);
    assert_eq!(alpha2.num, 10 * alpha2.den);

    assert_eq!(r1.at(alpha1.num / alpha1.den), r2.at(alpha2.num / alpha2.den));
}

#[test]
fn test_ray2d_parallel_rays_do_not_intersect() {
    let r1 = Ray2d::new(Vec2d::new_raw(0, 0), Vec2d::new_raw(2, 1));
    let r2 = Ray2d::new(Vec2d::new_raw(5, 5), Vec2d::new_raw(4, 2));
    assert!(r1.get_intersection(&r2).is_none());
}

#[test]
fn test_ray_between_points() {
    let p1 = Vec2d::new_raw(0, 0);
    let p2 = Vec2d::new_raw(4, 2);
    let r = Ray2d::get_ray_between_points(&p1, &p2);
    assert_eq!(r.origin, Vec2d::new_raw(2, 1));
    assert_eq!(r.direction, Vec2d::new_raw(-2, 4));
}

#[test]
fn test_ray3d_at() {
    let r = Ray3d::new(Vec3d::new_raw(1, 2, 3), Vec3d::new_raw(0, 0, 2));
    assert_eq!(r.at(5), Vec3d::new_raw(1, 2, 13));
}
