use wolf_gang::aabb::{bounding_box, AABB};
use wolf_gang::point::Point;

#[test]
fn test_intersection() {
    let aabb1 = AABB::from_extents(Point::new(0, 0, 0), Point::new(3, 3, 3));
    let aabb2 = AABB::from_extents(Point::new(-1, -1, -1), Point::new(2, 2, 2));

    assert_eq!(AABB::from_extents(Point::new(0, 0, 0), Point::new(2, 2, 2)), aabb1.get_intersection(aabb2));
}

#[test]
fn from_extents_exact_center_and_dimensions() {
    let aabb = AABB::from_extents(Point::new(0, 0, 0), Point::new(9, 9, 9));
    assert_eq!(aabb.center, Point::new(5, 5, 5));
    assert_eq!(aabb.dimensions, Point::new(10, 10, 10));
    let odd = AABB::from_extents(Point::new(-2, 1, 4), Point::new(2, 1, 6));
    assert_eq!(odd.center, Point::new(0, 1, 5));
    assert_eq!(odd.dimensions, Point::new(5, 1, 3));
}

#[test]
fn extents_round_trip() {
    let min = Point::new(-7, 3, 0);
    let max = Point::new(4, 3, 12);
    let aabb = AABB::from_extents(min, max);
    assert_eq!(aabb.get_min(), min);
    assert_eq!(aabb.get_max(), max);
}

#[test]
fn negative_dimensions_count_as_their_size() {
    let aabb = AABB::new(Point::new(0, 0, 0), Point::new(-4, 4, -4));
    assert_eq!(aabb.get_min(), Point::new(-2, -2, -2));
    assert_eq!(aabb.get_max(), Point::new(1, 1, 1));
}

#[test]
fn intersection_holds_points_of_both() {
    let a = AABB::from_extents(Point::new(0, 0, 0), Point::new(5, 5, 5));
    let b = AABB::from_extents(Point::new(3, -2, 4), Point::new(8, 2, 9));
    let c = a.get_intersection(b);
    for x in -3..10 {
        for y in -3..10 {
            for z in -3..10 {
                let p = Point::new(x, y, z);
                assert_eq!(c.contains_point(p), a.contains_point(p) && b.contains_point(p));
            }
        }
    }
}

#[test]
fn intersects_bounds_touching_and_apart() {
    let a = AABB::from_extents(Point::new(0, 0, 0), Point::new(2, 2, 2));
    let touching = AABB::from_extents(Point::new(2, 0, 0), Point::new(4, 2, 2));
    let apart = AABB::from_extents(Point::new(3, 0, 0), Point::new(4, 2, 2));
    assert!(a.intersects_bounds(touching));
    assert!(!a.intersects_bounds(apart));
}

#[test]
fn bounding_box_spans_all_points() {
    let pts = vec![Point::new(1, 5, -2), Point::new(-3, 2, 4), Point::new(0, 7, 0)];
    let b = bounding_box(&pts);
    assert_eq!(b.get_min(), Point::new(-3, 2, -2));
    assert_eq!(b.get_max(), Point::new(1, 7, 4));
    let single = bounding_box(&vec![Point::new(2, 2, 2)]);
    assert_eq!(single, AABB::from_extents(Point::new(2, 2, 2), Point::new(2, 2, 2)));
}
