use wolf_gang::aabb::AABB;
use wolf_gang::level_map::TileData;
use wolf_gang::octree::{InsertionErrorType, Octree, DEFAULT_MAX};
use wolf_gang::point::Point;

fn fill_octree(aabb: AABB, octree: &mut Octree, count: &mut usize) {
    let min = aabb.get_min();
    let max = aabb.get_max();

    for z in min.z..max.z + 1 {
        for y in min.y..max.y + 1 {
            for x in min.x..max.x + 1 {
                *count += 1;
                match octree.insert(TileData::new(Point::new(x, y, z))) {
                    Ok(_) => {}
                    Err(err) => {
                        panic!("{:?}", err);
                    }
                }
            }
        }
    }
}

#[test]
fn even_subdivision() {
    let aabb = AABB::new(Point::new(1, 1, 1), Point::new(4, 4, 4));

    let mut octree = Octree::new(aabb, DEFAULT_MAX);

    let mut count = 0;
    fill_octree(aabb, &mut octree, &mut count);

    assert_eq!(octree.count(), count);
}

#[test]
fn odd_subdivision() {
    let aabb = AABB::new(Point::new(1, 1, 1), Point::new(5, 5, 5));

    println!("{:?} {:?}", aabb.get_min(), aabb.get_max());

    let mut octree = Octree::new(aabb, DEFAULT_MAX);

    let mut count = 0;
    fill_octree(aabb, &mut octree, &mut count);

    assert_eq!(octree.count(), count);
}

#[test]
fn tiny_test() {
    let aabb = AABB::from_extents(Point::new(2, -1, 2), Point::new(3, 0, 3));

    let mut octree = Octree::new(aabb, DEFAULT_MAX);

    let mut count = 0;
    fill_octree(aabb, &mut octree, &mut count);

    assert_eq!(octree.count(), count);
}

#[test]
fn large_test() {
    let aabb = AABB::from_extents(Point::new(0, 0, 0), Point::new(9, 9, 9));

    let mut octree = Octree::new(aabb, DEFAULT_MAX);

    let mut count = 0;
    fill_octree(aabb, &mut octree, &mut count);

    assert_eq!(octree.count(), count);
}

#[test]
fn contains_point() {
    let aabb = AABB::new(Point::new(-5, 5, 5), Point::new(-10, 10, 10));

    println!("min {:?} max {:?}", aabb.get_min(), aabb.get_max());
    assert!(!aabb.contains_point(Point::zeros()));
}

#[test]
fn from_extents() {
    let min = Point::new(0, 0, 0);
    let max = Point::new(9, 9, 9);

    println!("min {:?} max {:?}", min, max);

    let aabb = AABB::from_extents(min, max);
    let other = AABB::new(Point::new(5, 5, 5), Point::new(10, 10, 10));
    assert_eq!(aabb.get_min(), other.get_min());
    assert_eq!(aabb.get_max(), other.get_max());
    assert_eq!(aabb.center, other.center);
}

#[test]
fn volume_one() {
    let aabb = AABB::new(Point::zeros(), Point::new(1, 1, 1));

    println!("min {:?} max {:?}", aabb.get_min(), aabb.get_max());
    assert!(aabb.contains_point(Point::zeros()));
}

#[test]
fn overwrite_element() {
    let aabb = AABB::new(Point::new(0, 0, 0), Point::new(4, 4, 4));

    let mut octree = Octree::new(aabb, DEFAULT_MAX);

    let mut count = 0;
    fill_octree(aabb, &mut octree, &mut count);

    assert!(octree.insert(TileData::new(Point::zeros())).is_ok());
}

#[test]
fn query_point() {
    let aabb = AABB::new(Point::new(0, 0, 0), Point::new(4, 4, 4));

    let mut octree = Octree::new(aabb, DEFAULT_MAX);

    let mut count = 0;
    fill_octree(aabb, &mut octree, &mut count);

    assert!(octree.get_aabb().contains_point(Point::new(0, 1, 0)));
    assert!(octree.query_point(Point::new(0, 1, 0)).is_some());
    assert!(octree.query_point(Point::new(0, 3, 0)).is_none());
}

#[test]
fn remove_element() {
    let aabb = AABB::new(Point::new(0, 0, 0), Point::new(7, 7, 7));

    let mut octree = Octree::new(aabb, DEFAULT_MAX);

    fill_octree(aabb, &mut octree, &mut 0);

    let range = AABB::from_extents(Point::new(0, 0, 0), Point::new(0, 0, 0));

    assert!(octree.query_point(Point::new(0, 0, 0)).is_some());
    octree.remove_range(range);
    assert!(octree.query_point(Point::new(0, 0, 0)).is_none());
}

#[test]
fn overwrite_keeps_one_tile_per_position() {
    let aabb = AABB::from_extents(Point::new(0, 0, 0), Point::new(3, 3, 3));
    let mut octree = Octree::new(aabb, 2);
    let mut count = 0;
    fill_octree(aabb, &mut octree, &mut count);
    fill_octree(aabb, &mut octree, &mut count);
    assert_eq!(octree.count(), 64);
}

#[test]
fn insert_out_of_bounds_is_refused() {
    let aabb = AABB::from_extents(Point::new(0, 0, 0), Point::new(3, 3, 3));
    let mut octree = Octree::new(aabb, 4);
    let err = octree.insert(TileData::new(Point::new(4, 0, 0))).unwrap_err();
    assert_eq!(err.error_type, InsertionErrorType::OutOfBounds(aabb));
    assert_eq!(octree.count(), 0);
}

#[test]
fn query_range_finds_exactly_the_tiles_inside() {
    let aabb = AABB::from_extents(Point::new(-4, -4, -4), Point::new(4, 4, 4));
    let mut octree = Octree::new(aabb, 3);
    let mut count = 0;
    fill_octree(aabb, &mut octree, &mut count);
    let range = AABB::from_extents(Point::new(-1, 0, 2), Point::new(1, 2, 6));
    let found = octree.query_range(range);
    assert_eq!(found.len(), 3 * 3 * 3);
    for t in &found {
        assert!(range.contains_point(t.point));
    }
}

#[test]
fn remove_item_then_query_misses() {
    let aabb = AABB::from_extents(Point::new(0, 0, 0), Point::new(5, 5, 5));
    let mut octree = Octree::new(aabb, 2);
    let mut count = 0;
    fill_octree(aabb, &mut octree, &mut count);
    let t = TileData::new(Point::new(3, 4, 5));
    octree.remove_item(&t);
    assert!(octree.query_point(Point::new(3, 4, 5)).is_none());
    assert_eq!(octree.count(), 215);
    assert!(octree.insert(t).is_ok());
    assert_eq!(octree.query_point(Point::new(3, 4, 5)), Some(t));
}

#[test]
fn from_iter_bounds_and_contents() {
    let items = vec![
        TileData::new(Point::new(1, 0, 0)),
        TileData::new(Point::new(0, 1, 0)),
        TileData::new(Point::new(0, 0, -3)),
        TileData::new(Point::new(1, 0, 0)),
    ];
    let octree = Octree::from_iter(items);
    assert_eq!(octree.get_aabb().get_min(), Point::new(0, 0, -3));
    assert_eq!(octree.get_aabb().get_max(), Point::new(1, 1, 0));
    assert_eq!(octree.count(), 3);
    let all = octree.into_iter();
    assert_eq!(all.len(), 3);
}

#[test]
fn from_iter_empty_is_unit_box_at_origin() {
    let octree = Octree::from_iter(Vec::new());
    assert_eq!(octree.get_aabb().get_min(), Point::zeros());
    assert_eq!(octree.get_aabb().get_max(), Point::zeros());
    assert_eq!(octree.count(), 0);
}
