use wolf_gang::aabb::AABB;
use wolf_gang::level_map::{CoordPos, LevelMap, MapChange, MapChunkData, TileData};
use wolf_gang::point::Point;
use wolf_gang::selection_box::{
    adjust_expansion, adjust_movement, apply_update_bounds, expansion_movement_helper, plan_expansion,
    plan_movement, tile_tool_change, Direction, SelectionBox, UpdateBounds,
};

#[test]
fn new_selection_box_is_a_unit_box_at_the_origin() {
    let b = SelectionBox::new();
    assert_eq!(b.aabb.center, Point::new(0, 0, 0));
    assert_eq!(b.aabb.dimensions, Point::new(1, 1, 1));
    let aabb = AABB::new(Point::new(2, 3, 4), Point::new(5, 6, 7));
    assert_eq!(SelectionBox::from_aabb(aabb).aabb, aabb);
}

#[test]
fn direction_steps() {
    assert_eq!(Direction::Forward.step(), Point::new(0, 0, 1));
    assert_eq!(Direction::Back.step(), Point::new(0, 0, -1));
    assert_eq!(Direction::Left.step(), Point::new(-1, 0, 0));
    assert_eq!(Direction::Right.step(), Point::new(1, 0, 0));
    assert_eq!(Direction::Up.step(), Point::new(0, 1, 0));
    assert_eq!(Direction::Down.step(), Point::new(0, -1, 0));
}

#[test]
fn movement_follows_the_camera() {
    // Camera looking along +z with right along +x: nothing changes.
    assert_eq!(adjust_movement(Point::new(0, 0, 1), 0, 1, 1, 0), Point::new(0, 0, 1));
    // Camera looking along +x with right along -z.
    assert_eq!(adjust_movement(Point::new(0, 0, 1), 1, 0, 0, -1), Point::new(1, 0, 0));
    assert_eq!(adjust_movement(Point::new(1, 0, 0), 1, 0, 0, -1), Point::new(0, 0, -1));
    assert_eq!(adjust_movement(Point::new(0, -1, 0), 1, 0, 0, -1), Point::new(0, -1, 0));
}

#[test]
fn expansion_ignores_the_sign_of_the_camera_axes() {
    assert_eq!(adjust_expansion(Point::new(1, 0, 0), 1, 0, 0, -1), Point::new(0, 0, 1));
    assert_eq!(adjust_expansion(Point::new(0, 0, -1), -1, 0, 0, 1), Point::new(-1, 0, 0));
}

#[test]
fn expansion_helper_grows_the_box_and_gives_the_shift() {
    let mut aabb = AABB::new(Point::new(0, 0, 0), Point::new(1, 1, 1));
    let diff = expansion_movement_helper(Point::new(1, 0, 0), false, false, &mut aabb);
    assert_eq!(aabb.dimensions, Point::new(2, 1, 1));
    assert_eq!(diff, Point::new(-1, 0, 0));

    let mut flipped = AABB::new(Point::new(0, 0, 0), Point::new(1, 1, 1));
    let diff = expansion_movement_helper(Point::new(1, 0, 0), true, false, &mut flipped);
    assert_eq!(flipped.dimensions, Point::new(2, 1, 1));
    assert_eq!(diff, Point::new(0, 0, 0));
}

#[test]
fn expansion_helper_passes_through_zero() {
    let mut aabb = AABB::new(Point::new(0, 0, 0), Point::new(1, 1, 1));
    let diff = expansion_movement_helper(Point::new(-1, 0, 0), false, false, &mut aabb);
    assert_eq!(aabb.dimensions, Point::new(-2, 1, 1));
    assert_eq!(diff, Point::new(0, 0, 0));
}

#[test]
fn planning_a_move() {
    let aabb = AABB::new(Point::new(0, 0, 0), Point::new(2, 1, 1));
    let plan = plan_movement(None, Point::new(3, 0, 3), aabb, Point::new(0, 0, 1));
    assert_eq!(plan.pending, UpdateBounds { coord_pos: Point::new(3, 0, 4), aabb });
    assert_eq!(plan.message, plan.pending);

    let other = AABB::new(Point::new(1, 1, 1), Point::new(3, 3, 3));
    let existing = UpdateBounds { coord_pos: Point::new(5, 5, 5), aabb: other };
    let plan = plan_movement(Some(existing), Point::new(3, 0, 3), aabb, Point::new(-1, 0, 0));
    assert_eq!(plan.pending, UpdateBounds { coord_pos: Point::new(4, 5, 5), aabb: other });
    assert_eq!(plan.message, UpdateBounds { coord_pos: Point::new(4, 5, 5), aabb });
}

#[test]
fn planning_a_growth() {
    let aabb = AABB::new(Point::new(0, 0, 0), Point::new(1, 1, 1));
    let plan = plan_expansion(None, Point::new(3, 0, 3), aabb, Point::new(1, 0, 0), false, false);
    assert_eq!(plan.pending.coord_pos, Point::new(4, 0, 3));
    assert_eq!(plan.pending.aabb, AABB::new(Point::new(0, 0, 0), Point::new(2, 1, 1)));
    assert_eq!(plan.message, plan.pending);

    let existing = UpdateBounds { coord_pos: Point::new(5, 5, 5), aabb: AABB::new(Point::new(1, 1, 1), Point::new(3, 3, 3)) };
    let plan = plan_expansion(Some(existing), Point::new(3, 0, 3), aabb, Point::new(1, 0, 0), false, false);
    assert_eq!(plan.pending.coord_pos, Point::new(6, 5, 5));
    assert_eq!(plan.pending.aabb, AABB::new(Point::new(1, 1, 1), Point::new(4, 3, 3)));
}

#[test]
fn applying_bounds_to_the_active_box_only() {
    let update = UpdateBounds { coord_pos: Point::new(7, 0, 7), aabb: AABB::new(Point::new(0, 0, 0), Point::new(2, 2, 2)) };
    let mut pos = CoordPos::default();
    let mut active_box = SelectionBox::new();
    apply_update_bounds(update, true, &mut pos, &mut active_box);
    assert_eq!(pos.value, Point::new(7, 0, 7));
    assert_eq!(active_box.aabb, update.aabb);

    let mut pos = CoordPos::default();
    let mut idle_box = SelectionBox::new();
    apply_update_bounds(update, false, &mut pos, &mut idle_box);
    assert_eq!(pos.value, Point::new(7, 0, 7));
    assert_eq!(idle_box.aabb, SelectionBox::new().aabb);
}

#[test]
fn tile_tool_asks_only_for_real_changes() {
    let map = LevelMap::default();
    let mut md = MapChunkData::new(AABB::from_extents(Point::new(0, 0, 0), Point::new(9, 9, 9)));
    md.octree.insert(TileData::new(Point::new(3, 3, 3))).unwrap();
    let map_datas = vec![((), md, Point::new(0, 0, 0))];
    let selection = SelectionBox::new();
    let here = AABB::new(Point::new(3, 3, 3), Point::new(1, 1, 1));

    assert_eq!(tile_tool_change(&map, &map_datas, Point::new(3, 3, 3), &selection, true), None);
    assert_eq!(
        tile_tool_change(&map, &map_datas, Point::new(3, 3, 3), &selection, false),
        Some(MapChange::MapRemoval(here))
    );
    let there = AABB::new(Point::new(5, 3, 3), Point::new(1, 1, 1));
    assert_eq!(
        tile_tool_change(&map, &map_datas, Point::new(5, 3, 3), &selection, true),
        Some(MapChange::MapInsertion { aabb: there, tile_data: TileData::new(Point::new(0, 0, 0)) })
    );
    assert_eq!(tile_tool_change(&map, &map_datas, Point::new(5, 3, 3), &selection, false), None);
}
