use bvh::aabb::Aabb;
use bvh::utility::max_axis;
use bvh::utility::max_vec3;
use bvh::utility::min_vec3;
use bvh::utility::Ray;
use bvh::utility::Vec3;

fn v(x: i32, y: i32, z: i32) -> Vec3 {
    Vec3::new(x, y, z)
}

// The scenario from the specification, on the fixed-point grid with one
// decimal digit of precision (coordinates scaled by ten).
#[test]
fn merge_aabb() {
    let a = Aabb::new(v(-30, 50, 0), v(-29, 51, 0));
    let b = Aabb::new(v(10, 40, 12), v(11, 41, 13));
    assert_eq!(Aabb::merge(a, b), Aabb::new(v(-30, 40, 0), v(11, 51, 13)));
}

#[test]
fn merge_commutative_concrete() {
    let a = Aabb::new(v(-3, -3, -3), v(4, 5, 6));
    let b = Aabb::new(v(0, -10, 2), v(1, 0, 20));
    assert_eq!(Aabb::merge(a, b), Aabb::merge(b, a));
}

#[test]
fn merge_associative_concrete() {
    let a = Aabb::new(v(-3, -3, -3), v(4, 5, 6));
    let b = Aabb::new(v(0, -10, 2), v(1, 0, 20));
    let c = Aabb::new(v(7, 7, 7), v(9, 9, 9));
    assert_eq!(
        Aabb::merge(Aabb::merge(a, b), c),
        Aabb::merge(a, Aabb::merge(b, c))
    );
}

#[test]
fn merge_idempotent_concrete() {
    let a = Aabb::new(v(-3, -3, -3), v(4, 5, 6));
    assert_eq!(Aabb::merge(a, a), a);
}

#[test]
fn extend_contains_grows_and_starts() {
    let mut acc: Option<Aabb> = None;
    Aabb::extend_contains(&mut acc, v(1, 2, 3));
    assert_eq!(acc, Some(Aabb::new(v(1, 2, 3), v(1, 2, 3))));
    Aabb::extend_contains(&mut acc, v(-1, 5, 0));
    assert_eq!(acc, Some(Aabb::new(v(-1, 2, 0), v(1, 5, 3))));
}

#[test]
fn centroid_extent_surface_area_exact() {
    let a = Aabb::new(v(0, 0, 0), v(4, 6, 8));
    assert_eq!(a.centroid(), v(2, 3, 4));
    assert_eq!(a.extent(), v(4, 6, 8));
    // 2 * (4*6 + 4*8 + 6*8) = 2 * 104
    assert_eq!(a.surface_area(), 208);
    // a flat box still has the area of its two large faces
    let flat = Aabb::new(v(0, 0, 0), v(10, 20, 0));
    assert_eq!(flat.surface_area(), 400);
}

#[test]
fn centroid_rounds_down() {
    let a = Aabb::new(v(0, 0, 0), v(3, 1, 1));
    assert_eq!(a.centroid(), v(1, 0, 0));
    let b = Aabb::new(v(-3, -1, 0), v(0, 0, 0));
    assert_eq!(b.centroid(), v(-2, -1, 0));
}

#[test]
fn componentwise_min_max_and_axis() {
    let a = v(3, -2, 7);
    let b = v(1, 4, 7);
    assert_eq!(min_vec3(&a, &b), v(1, -2, 7));
    assert_eq!(max_vec3(&a, &b), v(3, 4, 7));
    assert_eq!(max_axis(&v(5, 2, 2)), 0);
    assert_eq!(max_axis(&v(2, 5, 2)), 1);
    assert_eq!(max_axis(&v(2, 2, 5)), 2);
    // ties fall through to the later axis
    assert_eq!(max_axis(&v(5, 5, 2)), 1);
    assert_eq!(max_axis(&v(2, 5, 5)), 2);
}

#[test]
fn ray_inside_box_hits_any_direction() {
    let a = Aabb::new(v(-10, -10, -10), v(10, 10, 10));
    let dirs = [
        v(1, 0, 0),
        v(-1, 0, 0),
        v(0, 1, 0),
        v(0, -3, 5),
        v(7, -2, 1),
        v(0, 0, 0),
    ];
    for d in dirs {
        assert!(a.does_int(&Ray::new(v(0, 1, -2), d)));
    }
}

#[test]
fn ray_pointing_away_misses() {
    let a = Aabb::new(v(-10, -10, -10), v(10, 10, 10));
    // strictly outside on x, moving away from the box on every axis
    assert!(!a.does_int(&Ray::new(v(20, 0, 0), v(5, 0, 0))));
    assert!(!a.does_int(&Ray::new(v(20, 20, 20), v(1, 1, 1))));
    // outside and parallel on the separating axis
    assert!(!a.does_int(&Ray::new(v(20, 0, 0), v(0, 1, 0))));
}

#[test]
fn ray_toward_box_hits() {
    let a = Aabb::new(v(-10, -10, -10), v(10, 10, 10));
    assert!(a.does_int(&Ray::new(v(20, 0, 0), v(-1, 0, 0))));
    assert!(a.does_int(&Ray::new(v(30, 30, 30), v(-1, -1, -1))));
}

#[test]
fn tangent_ray_resolves_identically_every_time() {
    let a = Aabb::new(v(-10, -10, -10), v(10, 10, 10));
    // grazing along the x = 10 face
    let tangent = Ray::new(v(10, 0, -20), v(0, 0, 1));
    let first = a.does_int(&tangent);
    for _ in 0..100 {
        assert_eq!(a.does_int(&tangent), first);
    }
}
