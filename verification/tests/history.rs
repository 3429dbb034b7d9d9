use wolf_gang::aabb::AABB;
use wolf_gang::history::{record_change, signum, CurrentHistoricalStep, History, HistoryError, StepType};
use wolf_gang::level_map::{fill_octree_from_aabb, TileData};
use wolf_gang::octree::{Octree, DEFAULT_MAX};
use wolf_gang::point::Point;

fn step() -> StepType {
    let aabb = AABB::from_extents(Point::new(0, 0, 0), Point::new(1, 1, 1));
    StepType::MapChange((Octree::new(aabb, DEFAULT_MAX), Octree::new(aabb, DEFAULT_MAX)))
}

#[test]
fn defaults() {
    assert_eq!(CurrentHistoricalStep::default().0, 1);
    assert_eq!(signum(-7), -1);
    assert_eq!(signum(0), 0);
    assert_eq!(signum(3), 1);
}

#[test]
fn new_history_has_nothing_to_undo_or_redo() {
    let mut h = History::new();
    assert_eq!(h.len(), 0);
    assert_eq!(h.can_undo().err(), Some(HistoryError::NotFound));
    assert_eq!(h.can_redo().err(), Some(HistoryError::NotFound));
    assert_eq!(h.move_by_step(-1), None);
    assert_eq!(h.move_by_step(1), None);
}

#[test]
fn undo_then_redo_reach_the_same_step() {
    let mut h = History::new();
    h.add_step(step());
    h.add_step(step());
    assert_eq!(h.len(), 2);
    assert!(h.can_redo().is_err());
    assert!(h.can_undo().is_ok());
    assert_eq!(h.move_by_step(-1), Some(1));
    assert_eq!(h.move_by_step(-1), Some(0));
    assert_eq!(h.move_by_step(-1), None);
    assert_eq!(h.move_by_step(1), Some(0));
    assert_eq!(h.move_by_step(1), Some(1));
    assert_eq!(h.move_by_step(1), None);
    assert_eq!(h.move_by_step(-1), Some(1));
}

#[test]
fn adding_a_step_drops_the_undone_ones() {
    let mut h = History::new();
    h.add_step(step());
    h.add_step(step());
    h.add_step(step());
    assert_eq!(h.move_by_step(-1), Some(2));
    assert_eq!(h.move_by_step(-1), Some(1));
    h.add_step(step());
    assert_eq!(h.len(), 2);
    assert!(h.can_redo().is_err());
    assert_eq!(h.move_by_step(-1), Some(1));
}

#[test]
fn adding_after_undo_and_redo_keeps_the_redone_step() {
    let mut h = History::new();
    h.add_step(step());
    h.add_step(step());
    assert_eq!(h.move_by_step(-1), Some(1));
    assert_eq!(h.move_by_step(1), Some(1));
    h.add_step(step());
    assert_eq!(h.len(), 3);
    assert!(h.can_undo().is_ok());
    assert!(h.can_redo().is_err());
    assert_eq!(h.move_by_step(-1), Some(2));
    assert_eq!(h.move_by_step(-1), Some(1));
    assert_eq!(h.move_by_step(-1), Some(0));
    assert_eq!(h.move_by_step(-1), None);
}

#[test]
fn steps_apply_their_undo_or_redo_side() {
    let aabb = AABB::from_extents(Point::new(0, 0, 0), Point::new(1, 0, 0));
    let undo = fill_octree_from_aabb(aabb, None);
    let redo = fill_octree_from_aabb(aabb, Some(TileData::new(Point::new(0, 0, 0))));
    let mut h = History::new();
    h.add_step(StepType::MapChange((undo, redo)));
    let i = h.move_by_step(-1).unwrap();
    assert_eq!(h.change_for_step(i, -1).count(), 0);
    let i = h.move_by_step(1).unwrap();
    let side = h.change_for_step(i, 1);
    assert_eq!(side.count(), 2);
    assert_eq!(side.get_aabb(), aabb);
}

#[test]
fn changes_are_recorded_in_the_named_clients_history() {
    let mut histories = vec![(3u32, History::new()), (5u32, History::new()), (5u32, History::new())];
    assert_eq!(record_change(&mut histories, 5, step()), Some(1));
    assert_eq!(histories[0].1.len(), 0);
    assert_eq!(histories[1].1.len(), 1);
    assert_eq!(histories[2].1.len(), 0);
    assert_eq!(record_change(&mut histories, 9, step()), None);
    assert_eq!(histories[1].1.len(), 1);
}
