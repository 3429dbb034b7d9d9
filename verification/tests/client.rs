use wolf_gang::aabb::AABB;
use wolf_gang::client::{data_action, ClientData, DataAction};
use wolf_gang::level_map::{MapChange, TileData};
use wolf_gang::point::Point;

#[test]
fn own_selections_and_moves_are_ignored() {
    let aabb = AABB::new(Point::new(0, 0, 0), Point::new(1, 1, 1));
    let own = Some(2);
    assert!(matches!(
        data_action(ClientData::UpdateSelectionBounds { client_id: 2, coord_pos: Point::new(1, 0, 0), aabb }, own),
        DataAction::Ignore
    ));
    match data_action(ClientData::UpdateSelectionBounds { client_id: 3, coord_pos: Point::new(1, 0, 0), aabb }, own) {
        DataAction::UpdateBounds { client_id, bounds } => {
            assert_eq!(client_id, 3);
            assert_eq!(bounds.coord_pos, Point::new(1, 0, 0));
            assert_eq!(bounds.aabb, aabb);
        }
        _ => panic!("another client's move is queued"),
    }
    assert!(matches!(data_action(ClientData::ActivateActorToolBox { client_id: 2 }, own), DataAction::Ignore));
    assert!(matches!(data_action(ClientData::ActivateActorToolBox { client_id: 4 }, own), DataAction::ActivateActorToolBox(4)));
    assert!(matches!(data_action(ClientData::ActivateTerrainToolBox { client_id: 4 }, None), DataAction::Ignore));
    assert!(matches!(
        data_action(ClientData::ActorToolSelection { client_id: 4, actor_id: 9 }, own),
        DataAction::ChooseActor { client_id: 4, actor_id: 9 }
    ));
}

#[test]
fn map_changes_become_box_changes() {
    let aabb = AABB::new(Point::new(0, 0, 0), Point::new(2, 1, 1));
    let tile = TileData::new(Point::new(0, 0, 0));
    match data_action(ClientData::MapChange { change: MapChange::MapInsertion { aabb, tile_data: tile }, store_history: Some(5) }, Some(1)) {
        DataAction::ChangeBox { aabb: a, tile: t, store_history } => {
            assert_eq!(a, aabb);
            assert_eq!(t, Some(tile));
            assert_eq!(store_history, Some(5));
        }
        _ => panic!("an insertion fills its box"),
    }
    match data_action(ClientData::MapChange { change: MapChange::MapRemoval(aabb), store_history: None }, Some(1)) {
        DataAction::ChangeBox { aabb: a, tile: t, store_history } => {
            assert_eq!(a, aabb);
            assert_eq!(t, None);
            assert_eq!(store_history, None);
        }
        _ => panic!("a removal empties its box"),
    }
    assert!(matches!(
        data_action(ClientData::HistoryStep { amount: -1, client_id: 5 }, Some(1)),
        DataAction::MoveHistory { client_id: 5, amount: -1 }
    ));
    assert!(matches!(data_action(ClientData::MapNew, Some(1)), DataAction::ResetMap));
    assert!(matches!(data_action(ClientData::NewConnection(8), None), DataAction::NoteConnection(8)));
}
