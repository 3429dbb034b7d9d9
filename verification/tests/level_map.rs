use wolf_gang::aabb::AABB;
use wolf_gang::level_map::{
    contains_tile, fill_octree_from_aabb, same_tiles, ChangeError, CoordPos, LevelMap, MapChunkData, TileData,
    CHUNK_SIDE,
};
use wolf_gang::history::History;
use wolf_gang::octree::{Octree, DEFAULT_MAX};
use wolf_gang::point::Point;

fn tile(x: i32, y: i32, z: i32) -> TileData {
    TileData::new(Point::new(x, y, z))
}

#[test]
fn tile_data_and_coord_pos() {
    let t = tile(1, 2, 3);
    assert_eq!(t.get_point(), Point::new(1, 2, 3));
    assert_eq!(CoordPos::default().value, Point::new(0, 0, 0));
    assert_eq!(CHUNK_SIDE, 10);
}

#[test]
fn chunk_point_is_the_corner_over_the_size() {
    let md = MapChunkData::new(AABB::from_extents(Point::new(10, -10, 20), Point::new(19, -1, 29)));
    assert_eq!(md.get_chunk_point(), Point::new(1, -1, 2));
    let md = MapChunkData::new(AABB::from_extents(Point::new(-5, 0, 0), Point::new(4, 9, 9)));
    assert_eq!(md.get_chunk_point(), Point::new(-1, 0, 0));
}

#[test]
fn fill_octree_with_and_without_a_tile() {
    let aabb = AABB::from_extents(Point::new(0, 0, 0), Point::new(2, 1, 1));
    let full = fill_octree_from_aabb(aabb, Some(tile(0, 0, 0)));
    assert_eq!(full.count(), 12);
    assert!(full.query_point(Point::new(2, 1, 1)).is_some());
    assert!(full.query_point(Point::new(3, 1, 1)).is_none());
    let empty = fill_octree_from_aabb(aabb, None);
    assert_eq!(empty.count(), 0);
    assert_eq!(empty.get_aabb(), aabb);
}

#[test]
fn same_tiles_ignores_order_and_repeats() {
    let a = vec![tile(0, 0, 0), tile(1, 0, 0)];
    let b = vec![tile(1, 0, 0), tile(0, 0, 0), tile(1, 0, 0)];
    let c = vec![tile(1, 0, 0)];
    assert!(same_tiles(&a, &b));
    assert!(!same_tiles(&a, &c));
    assert!(contains_tile(&a, &tile(1, 0, 0)));
    assert!(!contains_tile(&c, &tile(0, 0, 0)));
}

#[test]
fn range_sliced_to_chunks_covers_each_chunk_once() {
    let map = LevelMap::default();
    let aabb = AABB::from_extents(Point::new(5, 0, 0), Point::new(14, 0, 0));
    let slices = map.range_sliced_to_chunks(aabb);
    assert_eq!(slices.len(), 2);
    let first = slices.iter().find(|(c, _)| *c == Point::new(0, 0, 0)).unwrap();
    let second = slices.iter().find(|(c, _)| *c == Point::new(1, 0, 0)).unwrap();
    assert_eq!(first.1.get_min(), Point::new(5, 0, 0));
    assert_eq!(first.1.get_max(), Point::new(9, 0, 0));
    assert_eq!(second.1.get_min(), Point::new(10, 0, 0));
    assert_eq!(second.1.get_max(), Point::new(14, 0, 0));
}

#[test]
fn query_chunk_range_and_chunks_in_range() {
    let map = LevelMap::default();
    let mut a = MapChunkData::new(AABB::from_extents(Point::new(0, 0, 0), Point::new(9, 9, 9)));
    a.octree.insert(tile(1, 1, 1)).unwrap();
    a.octree.insert(tile(8, 8, 8)).unwrap();
    let mut b = MapChunkData::new(AABB::from_extents(Point::new(10, 0, 0), Point::new(19, 9, 9)));
    b.octree.insert(tile(12, 1, 1)).unwrap();
    let map_datas = vec![((), a, Point::new(0, 0, 0)), ((), b, Point::new(1, 0, 0))];

    let range = AABB::from_extents(Point::new(0, 0, 0), Point::new(12, 2, 2));
    assert_eq!(map.chunks_in_range(&map_datas, range), vec![0, 1]);
    let found = map.query_chunk_range(&map_datas, range);
    assert!(same_tiles(&found, &vec![tile(1, 1, 1), tile(12, 1, 1)]));

    let small = AABB::from_extents(Point::new(0, 0, 0), Point::new(2, 2, 2));
    assert_eq!(map.chunks_in_range(&map_datas, small), vec![0]);
}

#[test]
fn can_change_refuses_a_change_that_is_already_there() {
    let map = LevelMap::default();
    let mut a = MapChunkData::new(AABB::from_extents(Point::new(0, 0, 0), Point::new(9, 9, 9)));
    let change_box = AABB::from_extents(Point::new(1, 1, 1), Point::new(2, 1, 1));
    a.octree.insert(tile(1, 1, 1)).unwrap();
    a.octree.insert(tile(2, 1, 1)).unwrap();
    let map_datas = vec![((), a, Point::new(0, 0, 0))];

    let same = fill_octree_from_aabb(change_box, Some(tile(0, 0, 0)));
    assert_eq!(map.can_change(&map_datas, same).err(), Some(ChangeError::AlreadyExists));

    let removal = fill_octree_from_aabb(change_box, None);
    let (undo, redo) = map.can_change(&map_datas, removal).unwrap();
    assert_eq!(undo.count(), 2);
    assert!(undo.query_point(Point::new(2, 1, 1)).is_some());
    assert_eq!(redo.count(), 0);
}

#[test]
fn apply_change_writes_only_the_overlap() {
    let mut md = MapChunkData::new(AABB::from_extents(Point::new(0, 0, 0), Point::new(9, 9, 9)));
    md.octree.insert(tile(0, 0, 0)).unwrap();
    md.octree.insert(tile(5, 5, 5)).unwrap();

    let fill = fill_octree_from_aabb(AABB::from_extents(Point::new(8, 0, 0), Point::new(11, 0, 0)), Some(tile(0, 0, 0)));
    assert!(md.apply_change(&fill));
    assert!(md.octree.query_point(Point::new(8, 0, 0)).is_some());
    assert!(md.octree.query_point(Point::new(9, 0, 0)).is_some());
    assert!(md.octree.query_point(Point::new(10, 0, 0)).is_none());
    assert_eq!(md.octree.count(), 4);

    assert!(!md.apply_change(&fill));

    let clear = fill_octree_from_aabb(AABB::from_extents(Point::new(0, 0, 0), Point::new(5, 5, 5)), None);
    assert!(md.apply_change(&clear));
    assert_eq!(md.octree.count(), 2);
    assert!(md.octree.query_point(Point::new(5, 5, 5)).is_none());
}

#[test]
fn octree_round_trip_through_a_vec() {
    let mut octree = Octree::new(AABB::from_extents(Point::new(-5, -5, -5), Point::new(5, 5, 5)), DEFAULT_MAX);
    octree.insert(tile(1, 0, 0)).unwrap();
    octree.insert(tile(0, -1, 0)).unwrap();
    octree.insert(tile(0, 0, 5)).unwrap();
    let items = octree.into_iter();
    assert_eq!(items.len(), 3);
    let rebuilt = Octree::from_iter(items.clone());
    assert_eq!(rebuilt.count(), 3);
    assert!(same_tiles(&rebuilt.into_iter(), &items));
}

#[test]
fn change_writes_the_tiles_and_reads_them_back() {
    let map = LevelMap::default();
    let mut map_datas: Vec<(Option<u32>, MapChunkData, Point)> = Vec::new();
    let aabb = AABB::from_extents(Point::new(5, 0, 0), Point::new(14, 0, 0));

    let out = map.change(&mut map_datas, fill_octree_from_aabb(aabb, Some(tile(0, 0, 0)))).unwrap();
    assert_eq!(map_datas.len(), 2);
    assert!(map_datas.iter().all(|(e, _, _)| e.is_none()));
    let points: Vec<Point> = map_datas.iter().map(|(_, _, p)| *p).collect();
    assert!(points.contains(&Point::new(0, 0, 0)) && points.contains(&Point::new(1, 0, 0)));
    assert_eq!(out.changed.len(), 2);
    assert_eq!(out.undo.count(), 0);
    assert_eq!(out.redo.count(), 10);
    assert_eq!(map.query_chunk_range(&map_datas, aabb).len(), 10);
    let first = map_datas.iter().find(|(_, _, p)| *p == Point::new(0, 0, 0)).unwrap();
    assert_eq!(first.1.octree.get_aabb(), AABB::from_extents(Point::new(0, 0, 0), Point::new(9, 9, 9)));
    assert_eq!(first.1.octree.count(), 5);

    let again = map.change(&mut map_datas, fill_octree_from_aabb(aabb, Some(tile(0, 0, 0))));
    assert_eq!(again.err(), Some(ChangeError::AlreadyExists));
    assert_eq!(map_datas.len(), 2);

    let small = AABB::from_extents(Point::new(8, 0, 0), Point::new(9, 0, 0));
    let out = map.change(&mut map_datas, fill_octree_from_aabb(small, None)).unwrap();
    assert_eq!(out.changed.len(), 1);
    assert_eq!(out.undo.count(), 2);
    assert_eq!(map.query_chunk_range(&map_datas, aabb).len(), 8);
    assert!(map.query_chunk_range(&map_datas, small).is_empty());
}

#[test]
fn octree_from_tiles_spans_their_bounding_box() {
    let tiles = vec![tile(3, -1, 0), tile(-2, 4, 1), tile(0, 0, 5)];
    let octree = Octree::from_iter(tiles);
    assert_eq!(octree.get_aabb().get_min(), Point::new(-2, -1, 0));
    assert_eq!(octree.get_aabb().get_max(), Point::new(3, 4, 5));
    assert_eq!(octree.count(), 3);
    let empty = Octree::from_iter(Vec::new());
    assert_eq!(empty.get_aabb(), AABB::from_extents(Point::new(0, 0, 0), Point::new(0, 0, 0)));
    assert_eq!(empty.count(), 0);
}

#[test]
fn slices_fit_the_chunk_size_in_order() {
    let map = LevelMap::default();
    let aabb = AABB::from_extents(Point::new(0, 0, 0), Point::new(10, 0, 0));
    assert_eq!(
        map.range_sliced_to_chunks(aabb),
        vec![
            (Point::new(0, 0, 0), AABB::from_extents(Point::new(0, 0, 0), Point::new(9, 0, 0))),
            (Point::new(1, 0, 0), AABB::from_extents(Point::new(10, 0, 0), Point::new(10, 0, 0))),
        ]
    );
    let cube = AABB::from_extents(Point::new(5, 5, 5), Point::new(14, 14, 14));
    let points: Vec<Point> = map.range_sliced_to_chunks(cube).into_iter().map(|(c, _)| c).collect();
    assert_eq!(
        points,
        vec![
            Point::new(0, 0, 0),
            Point::new(1, 0, 0),
            Point::new(0, 1, 0),
            Point::new(1, 1, 0),
            Point::new(0, 0, 1),
            Point::new(1, 0, 1),
            Point::new(0, 1, 1),
            Point::new(1, 1, 1),
        ]
    );
}

#[test]
fn octree_copies_hold_the_same_tiles() {
    let mut octree = Octree::new(AABB::from_extents(Point::new(0, 0, 0), Point::new(3, 3, 3)), 2);
    for x in 0..4 {
        octree.insert(tile(x, x, 0)).unwrap();
    }
    let copy = octree.duplicate();
    assert_eq!(copy.get_aabb(), octree.get_aabb());
    assert_eq!(copy.get_max_elements(), 2);
    assert_eq!(copy.count(), 4);
    assert!(same_tiles(&copy.into_iter(), &octree.into_iter()));
}

#[test]
fn accepted_changes_are_recorded_and_undo_restores() {
    let map = LevelMap::default();
    let mut map_datas: Vec<(Option<u32>, MapChunkData, Point)> = Vec::new();
    let mut histories = vec![(7u32, History::new())];
    let aabb = AABB::from_extents(Point::new(1, 1, 1), Point::new(3, 1, 1));
    let changed = map
        .change_with_history(&mut map_datas, &mut histories, fill_octree_from_aabb(aabb, Some(tile(0, 0, 0))), Some(7))
        .unwrap();
    assert_eq!(changed, vec![0]);
    assert_eq!(histories[0].1.len(), 1);
    assert_eq!(map.query_chunk_range(&map_datas, aabb).len(), 3);

    let refused = map.change_with_history(&mut map_datas, &mut histories, fill_octree_from_aabb(aabb, Some(tile(0, 0, 0))), Some(7));
    assert_eq!(refused.err(), Some(ChangeError::AlreadyExists));
    assert_eq!(histories[0].1.len(), 1);

    let i = histories[0].1.move_by_step(-1).unwrap();
    let undo = histories[0].1.change_for_step(i, -1);
    map.change_with_history(&mut map_datas, &mut histories, undo, None).unwrap();
    assert!(map.query_chunk_range(&map_datas, aabb).is_empty());
    assert_eq!(histories[0].1.len(), 1);
}

#[test]
fn a_filled_box_holds_one_tile_per_position() {
    let aabb = AABB::from_extents(Point::new(-1, 0, 2), Point::new(1, 2, 5));
    let filled = fill_octree_from_aabb(aabb, Some(tile(0, 0, 0)));
    assert_eq!(filled.count(), 3 * 3 * 4);
    let empty = fill_octree_from_aabb(aabb, None);
    assert_eq!(empty.count(), 0);
}
