use wolf_gang::aabb::AABB;
use wolf_gang::level_map::{MapChunkData, TileData};
use wolf_gang::mesh::{
    batch_to_chunk_volume, compare_sides, first_batch, contains_point, find_chunk, get_aabb_change_in_range, get_open_sides, get_true_top,
    neighbor_dirs, plan_draw_pass, PendingDraw, SideChange,
};
use wolf_gang::point::Point;

fn chunk(cx: i32, cy: i32, cz: i32) -> MapChunkData {
    MapChunkData::new(AABB::from_extents(
        Point::new(cx * 10, cy * 10, cz * 10),
        Point::new(cx * 10 + 9, cy * 10 + 9, cz * 10 + 9),
    ))
}

fn put(md: &mut MapChunkData, x: i32, y: i32, z: i32) {
    md.octree.insert(TileData::new(Point::new(x, y, z))).unwrap();
}

#[test]
fn neighbor_dirs_are_the_eight_horizontal_offsets() {
    let dirs = neighbor_dirs();
    assert_eq!(dirs.len(), 8);
    for d in dirs.iter() {
        assert_eq!(d.y, 0);
        assert!(d.x != 0 || d.z != 0);
        assert!(d.x.abs() <= 1 && d.z.abs() <= 1);
    }
    assert_eq!(dirs[0], Point::new(1, 0, 0));
    assert_eq!(dirs[7], Point::new(1, 0, -1));
}

#[test]
fn open_sides_of_a_lone_tile_are_all_eight() {
    let mut md = chunk(0, 0, 0);
    put(&mut md, 4, 0, 4);
    let map_datas: Vec<((), MapChunkData, Point)> = Vec::new();
    let sides = get_open_sides(&map_datas, &md, Point::new(4, 0, 4), &Vec::new());
    assert_eq!(sides.len(), 8);
}

#[test]
fn open_sides_skip_neighbours_and_checked_points() {
    let mut md = chunk(0, 0, 0);
    put(&mut md, 4, 0, 4);
    put(&mut md, 5, 0, 4);
    let map_datas: Vec<((), MapChunkData, Point)> = Vec::new();
    let sides = get_open_sides(&map_datas, &md, Point::new(4, 0, 4), &Vec::new());
    assert_eq!(sides.len(), 7);
    assert!(!contains_point(&sides, Point::new(1, 0, 0)));
    assert!(contains_point(&sides, Point::new(-1, 0, 0)));

    let checked = vec![Point::new(3, 0, 4)];
    let sides = get_open_sides(&map_datas, &md, Point::new(4, 0, 4), &checked);
    assert_eq!(sides.len(), 6);
    assert!(!contains_point(&sides, Point::new(-1, 0, 0)));
}

#[test]
fn open_sides_look_into_the_neighbouring_chunk() {
    let mut md = chunk(0, 0, 0);
    put(&mut md, 9, 0, 4);
    let mut right = chunk(1, 0, 0);
    put(&mut right, 10, 0, 4);
    let right_point = right.get_chunk_point();
    assert_eq!(right_point, Point::new(1, 0, 0));
    let map_datas = vec![((), right, right_point)];
    let sides = get_open_sides(&map_datas, &md, Point::new(9, 0, 4), &Vec::new());
    assert_eq!(sides.len(), 7);
    assert!(!contains_point(&sides, Point::new(1, 0, 0)));
    assert!(contains_point(&sides, Point::new(1, 0, 1)));

    let no_neighbours: Vec<((), MapChunkData, Point)> = Vec::new();
    let sides = get_open_sides(&no_neighbours, &md, Point::new(9, 0, 4), &Vec::new());
    assert_eq!(sides.len(), 8);
}

#[test]
fn find_chunk_gives_the_first_match() {
    let a = chunk(0, 0, 0);
    let b = chunk(0, 1, 0);
    let c = chunk(0, 1, 0);
    let map_datas = vec![((), a, Point::new(0, 0, 0)), ((), b, Point::new(0, 1, 0)), ((), c, Point::new(0, 1, 0))];
    assert_eq!(find_chunk(&map_datas, Point::new(0, 1, 0)), Some(1));
    assert_eq!(find_chunk(&map_datas, Point::new(5, 5, 5)), None);
}

#[test]
fn true_top_within_one_chunk() {
    let mut md = chunk(0, 0, 0);
    for y in 0..5 {
        put(&mut md, 2, y, 3);
    }
    put(&mut md, 2, 6, 3);
    let map_datas = vec![((), chunk(0, 0, 0), Point::new(0, 0, 0))];
    assert_eq!(get_true_top(Point::new(2, 1, 3), &map_datas, &md), Point::new(2, 5, 3));
    assert_eq!(get_true_top(Point::new(2, -4, 3), &map_datas, &md), Point::new(2, 5, 3));
    assert_eq!(get_true_top(Point::new(2, 6, 3), &map_datas, &md), Point::new(2, 7, 3));
    assert_eq!(get_true_top(Point::new(2, 30, 3), &map_datas, &md), Point::new(2, 30, 3));
}

#[test]
fn true_top_continues_into_the_chunk_above() {
    let mut low = chunk(0, 0, 0);
    for y in 0..10 {
        put(&mut low, 2, y, 3);
    }
    let mut high = chunk(0, 1, 0);
    for y in 10..13 {
        put(&mut high, 2, y, 3);
    }
    let high_point = high.get_chunk_point();
    let map_datas = vec![((), high, high_point)];
    assert_eq!(get_true_top(Point::new(2, 4, 3), &map_datas, &low), Point::new(2, 13, 3));

    let alone: Vec<((), MapChunkData, Point)> = Vec::new();
    assert_eq!(get_true_top(Point::new(2, 4, 3), &alone, &low), Point::new(2, 10, 3));
}

#[test]
fn change_range_grows_by_one_and_stays_in_the_chunk() {
    let aabb = AABB::from_extents(Point::new(0, 0, 0), Point::new(9, 9, 9));
    let change = AABB::from_extents(Point::new(2, 2, 2), Point::new(3, 3, 3));
    let r = get_aabb_change_in_range(change, aabb);
    assert_eq!(r, AABB::from_extents(Point::new(1, 1, 1), Point::new(4, 4, 4)));

    let corner = AABB::from_extents(Point::new(0, 9, 0), Point::new(0, 9, 0));
    let r = get_aabb_change_in_range(corner, aabb);
    assert_eq!(r.get_min(), Point::new(0, 8, 0));
    assert_eq!(r.get_max(), Point::new(1, 9, 1));
}

#[test]
fn compare_sides_as_sets() {
    let a = vec![Point::new(1, 0, 0), Point::new(0, 0, 1)];
    let b = vec![Point::new(0, 0, 1), Point::new(1, 0, 0)];
    let c = vec![Point::new(0, 0, 1)];
    let d = vec![Point::new(0, 0, 1), Point::new(-1, 0, 0)];
    assert_eq!(compare_sides(&a, &b), SideChange::Same);
    assert_eq!(compare_sides(&a, &c), SideChange::Covered);
    assert_eq!(compare_sides(&a, &d), SideChange::Uncovered);
    assert_eq!(compare_sides(&c, &a), SideChange::Uncovered);
}

#[test]
fn drawing_batches_stay_within_a_chunk() {
    assert_eq!(batch_to_chunk_volume(&vec![600, 300, 400], 1000), 2);
    assert_eq!(batch_to_chunk_volume(&vec![600, 300, 100], 1000), 3);
    assert_eq!(batch_to_chunk_volume(&vec![2000, 10], 1000), 1);
    assert_eq!(batch_to_chunk_volume(&vec![2000], 1000), 1);
    assert_eq!(batch_to_chunk_volume(&vec![], 1000), 0);
}

#[test]
fn the_earliest_batch_is_drawn_first() {
    assert_eq!(first_batch(&vec![3, 1, 2, 1]), vec![1, 3]);
    assert_eq!(first_batch(&vec![5]), vec![0]);
    assert_eq!(first_batch(&vec![]), Vec::<usize>::new());
}

#[test]
fn a_drawing_pass_takes_the_earliest_batch_within_a_chunk() {
    use_plan();
}

fn use_plan() {
    let pending = vec![
        PendingDraw { batch: 2, tiles: 10 },
        PendingDraw { batch: 1, tiles: 600 },
        PendingDraw { batch: 1, tiles: 300 },
        PendingDraw { batch: 3, tiles: 5 },
        PendingDraw { batch: 1, tiles: 400 },
    ];
    let pass = plan_draw_pass(&pending, 1000);
    assert_eq!(pass.drawn, vec![1, 2]);
    assert_eq!(pass.still_pending, vec![0, 3, 4]);
    let pass = plan_draw_pass(&Vec::new(), 1000);
    assert!(pass.drawn.is_empty() && pass.still_pending.is_empty());
    let big = vec![PendingDraw { batch: 0, tiles: 5000 }, PendingDraw { batch: 0, tiles: 1 }];
    let pass = plan_draw_pass(&big, 1000);
    assert_eq!(pass.drawn, vec![0]);
    assert_eq!(pass.still_pending, vec![1]);
}
