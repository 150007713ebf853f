use kd_tree::kd_tree::KdTree;
use kd_tree::ray_box::{BoundingBox2d, BoundingBox3d, ConstrainedRay3d, Point2d, Point3d, Ray3d};
use kd_tree::vec3::Vec3d;

#[test]
fn test_kd_tree_with_points_2d() {
    let mut kd_tree = KdTree::<BoundingBox2d, Point2d>::new();

    kd_tree.add(Point2d::new_raw(0, 30));
    kd_tree.add(Point2d::new_raw(10, 120));
    kd_tree.add(Point2d::new_raw(50, 20));
    kd_tree.add(Point2d::new_raw(-30, 20));
    kd_tree.add(Point2d::new_raw(33, -10));
    kd_tree.add(Point2d::new_raw(33, 30));
    assert_eq!(kd_tree.size(), 6);

    {
        let result = kd_tree.get_intersection(&BoundingBox2d {
            u: Point2d::new_raw(0, 0),
            v: Point2d::new_raw(40, 40),
        });
        println!("{:?}", result);
        assert_eq!(result.len(), 2);
    }

    {
        let result = kd_tree.get_intersection(&BoundingBox2d {
            u: Point2d::new_raw(20, 20),
            v: Point2d::new_raw(60, 60),
        });
        println!("{:?}", result);
        assert_eq!(result.len(), 2);
    }

    {
        let result = kd_tree.get_intersection(&BoundingBox2d {
            u: Point2d::new_raw(-60, 10),
            v: Point2d::new_raw(60, 40),
        });
        println!("{:?}", result);
        assert_eq!(result.len(), 4);
    }
}

#[test]
fn test_query_exact_membership() {
    let mut tree = KdTree::<BoundingBox2d, Point2d>::new();
    tree.add(Point2d::new_raw(0, 30));
    tree.add(Point2d::new_raw(33, 30));
    tree.add(Point2d::new_raw(50, 20));

    let result = tree.get_intersection(&BoundingBox2d {
        u: Point2d::new_raw(0, 0),
        v: Point2d::new_raw(40, 40),
    });
    assert_eq!(result.len(), 2);
    assert!(result.contains(&Point2d::new_raw(0, 30)));
    assert!(result.contains(&Point2d::new_raw(33, 30)));
    assert!(!result.contains(&Point2d::new_raw(50, 20)));
}

#[test]
fn test_duplicate_insertions_deduplicated_in_query() {
    let mut tree = KdTree::<BoundingBox2d, Point2d>::new();
    for _ in 0..6 {
        tree.add(Point2d::new_raw(3, 3));
    }
    assert_eq!(tree.size(), 6);
    let result = tree.get_intersection(&BoundingBox2d {
        u: Point2d::new_raw(0, 0),
        v: Point2d::new_raw(10, 10),
    });
    assert_eq!(result.len(), 1);
    assert_eq!(result[0], Point2d::new_raw(3, 3));
}

#[test]
fn test_query_twice_same_result() {
    let mut tree = KdTree::<BoundingBox2d, Point2d>::new();
    tree.add(Point2d::new_raw(1, 1));
    tree.add(Point2d::new_raw(7, 2));
    tree.add(Point2d::new_raw(-4, 9));
    let filter = BoundingBox2d { u: Point2d::new_raw(-5, 0), v: Point2d::new_raw(5, 10) };
    let r1 = tree.get_intersection(&filter);
    let r2 = tree.get_intersection(&filter);
    assert_eq!(r1.len(), r2.len());
    for p in &r1 {
        assert!(r2.contains(p));
    }
}

#[test]
fn test_many_insertions_force_splits() {
    let mut tree = KdTree::<BoundingBox2d, Point2d>::new();
    let mut expected: Vec<Point2d> = Vec::new();
    for i in 0..50i64 {
        let p = Point2d::new_raw(i * 7 % 97 - 40, i * 13 % 89 - 40);
        if !expected.contains(&p) {
            expected.push(p);
        }
        tree.add(p);
    }
    assert_eq!(tree.size(), 50);
    let all = tree.get_intersection(&BoundingBox2d {
        u: Point2d::new_raw(-100, -100),
        v: Point2d::new_raw(100, 100),
    });
    assert_eq!(all.len(), expected.len());
    for p in &expected {
        assert!(all.contains(p));
    }
}

#[test]
fn test_kd_tree_3d_points() {
    let mut tree = KdTree::<BoundingBox3d, Point3d>::new();
    tree.add(Point3d::new_raw(0, 0, 5));
    tree.add(Point3d::new_raw(0, 0, 10));
    tree.add(Point3d::new_raw(20, 20, 20));
    let result = tree.get_intersection(&BoundingBox3d {
        u: Point3d::new_raw(-1, -1, 0),
        v: Point3d::new_raw(1, 1, 12),
    });
    assert_eq!(result.len(), 2);
}

#[test]
fn test_get_closest_hit_picks_nearest() {
    let mut tree = KdTree::<BoundingBox3d, Point3d>::new();
    tree.add(Point3d::new_raw(0, 0, 10));
    tree.add(Point3d::new_raw(0, 0, 5));
    tree.add(Point3d::new_raw(0, 0, 25));
    tree.add(Point3d::new_raw(3, 3, 7));

    let cray = ConstrainedRay3d {
        ray: Ray3d::new(Vec3d::new_raw(0, 0, 0), Vec3d::new_raw(0, 0, 1)),
        range: (0, 100),
    };
    // a hit function for points exactly on the ray's axis: the distance is
    // the z coordinate
    let fun = |c: &Point3d, r: &ConstrainedRay3d| {
        if c.x == r.ray.origin.x && c.y == r.ray.origin.y && c.z >= r.range.0 && c.z <= r.range.1 {
            Some(c.z)
        } else {
            None
        }
    };
    let hit = tree.get_closest_hit(&fun, &cray);
    assert_eq!(hit, Some(Point3d::new_raw(0, 0, 5)));
}

#[test]
fn test_get_closest_hit_none_when_no_hits() {
    let mut tree = KdTree::<BoundingBox3d, Point3d>::new();
    tree.add(Point3d::new_raw(4, 4, 4));
    let cray = ConstrainedRay3d {
        ray: Ray3d::new(Vec3d::new_raw(0, 0, 0), Vec3d::new_raw(0, 0, 1)),
        range: (0, 100),
    };
    let fun = |_c: &Point3d, _r: &ConstrainedRay3d| None;
    assert_eq!(tree.get_closest_hit(&fun, &cray), None);
}

#[test]
fn test_get_closest_hit_many_points_with_splits() {
    let mut tree = KdTree::<BoundingBox3d, Point3d>::new();
    for i in 1..30i64 {
        tree.add(Point3d::new_raw(i % 5, i % 7, i));
    }
    let cray = ConstrainedRay3d {
        ray: Ray3d::new(Vec3d::new_raw(0, 0, 0), Vec3d::new_raw(0, 0, 1)),
        range: (0, 100),
    };
    // a hit function for points exactly on the ray's axis; no inserted point
    // lies on it, so there is no hit
    let fun = |c: &Point3d, r: &ConstrainedRay3d| {
        if c.x == 0 && c.y == 0 && c.z >= r.range.0 && c.z <= r.range.1 {
            Some(c.z)
        } else {
            None
        }
    };
    assert_eq!(tree.get_closest_hit(&fun, &cray), None);

    // a tree of points on the axis: the query returns the nearest of them
    let mut axis_tree = KdTree::<BoundingBox3d, Point3d>::new();
    for i in 1..30i64 {
        axis_tree.add(Point3d::new_raw(0, 0, i));
    }
    let hit = axis_tree.get_closest_hit(&fun, &cray);
    assert_eq!(hit, Some(Point3d::new_raw(0, 0, 1)));
}

#[test]
fn test_growth_covers_far_points() {
    let mut tree = KdTree::<BoundingBox2d, Point2d>::new();
    tree.add(Point2d::new_raw(1000, -1000));
    tree.add(Point2d::new_raw(-2000, 3000));
    let all = tree.get_intersection(&BoundingBox2d {
        u: Point2d::new_raw(-5000, -5000),
        v: Point2d::new_raw(5000, 5000),
    });
    assert_eq!(all.len(), 2);
}

#[test]
fn test_ray_checks() {
    let mut tree = KdTree::<BoundingBox3d, Point3d>::new();
    for i in 1..30i64 {
        tree.add(Point3d::new_raw(0, 0, i));
    }
    // an axis-parallel ray: every enclosure records at most two crossings and
    // every pruning decision is provably sound
    let cray = ConstrainedRay3d {
        ray: Ray3d::new(Vec3d::new_raw(0, 0, 0), Vec3d::new_raw(0, 0, 1)),
        range: (0, 100),
    };
    assert!(tree.check_ray_ok(&cray));
    assert!(tree.check_ray_faithful(&cray));
}
