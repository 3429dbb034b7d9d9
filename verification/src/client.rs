use vstd::prelude::*;
use crate::aabb::AABB;
use crate::level_map::{MapChange, TileData};
use crate::octree::Octree;
use crate::point::Point;
use crate::selection_box::{ToolBoxType, UpdateBounds};

verus! {

/// What a client receives from the server, once decoded (pieces of larger messages are put
/// together first, by a `FragmentBuffer`).
pub enum ClientData {
    NewConnection(u32),
    Disconnection(u32),
    /// Tells a new client about the selection box of another.
    CreateSelectionBox { client_id: u32, box_type: ToolBoxType, active: bool, coord_pos: Point, aabb: AABB },
    ActivateTerrainToolBox { client_id: u32 },
    ActivateActorToolBox { client_id: u32 },
    ActorToolSelection { client_id: u32, actor_id: u32 },
    /// An actor, as its own serialized bytes, to place or replace.
    ActorInsertion(Vec<u8>),
    ActorRemoval(u128),
    /// Tiles to write into the map, as the server holds them.
    MapInput(Octree),
    /// A change to the map; `store_history` names the client whose history keeps it.
    MapChange { change: MapChange, store_history: Option<u32> },
    MapNew,
    HistoryStep { amount: i32, client_id: u32 },
    UpdateSelectionBounds { client_id: u32, coord_pos: Point, aabb: AABB },
}

/// What the client does with what it received.
pub enum DataAction {
    Ignore,
    /// Note the connection or disconnection of a client for the game to handle.
    NoteConnection(u32),
    NoteDisconnection(u32),
    CreateSelectionBox { client_id: u32, box_type: ToolBoxType, active: bool, coord_pos: Point, aabb: AABB },
    ActivateTerrainToolBox(u32),
    ActivateActorToolBox(u32),
    ChooseActor { client_id: u32, actor_id: u32 },
    InsertActor(Vec<u8>),
    RemoveActor(u128),
    /// Write these tiles into the map, recording nothing.
    WriteTiles(Octree),
    /// Fill the box with the tile (`Some`) or empty it (`None`), recording the change in the
    /// history of the client named, if any.
    ChangeBox { aabb: AABB, tile: Option<TileData>, store_history: Option<u32> },
    ResetMap,
    /// Move the history of the client by `amount` steps.
    MoveHistory { client_id: u32, amount: i32 },
    /// Queue a move of another client's selection box.
    UpdateBounds { client_id: u32, bounds: UpdateBounds },
}

/// The message comes from some client other than this one (a client with no id yet acts on
/// none of them).
pub open spec fn from_other(sender: u32, own_id: Option<u32>) -> bool {
    match own_id {
        Some(own) => own != sender,
        None => false,
    }
}

/// What a client does with `data` when its own id is `own_id`: selections and selection
/// moves come back to their sender too, which has already acted on them, so only those of
/// other clients are acted on; a map insertion or removal fills or empties its box, keeping
/// the history it names; a history step moves that client's history; the rest is passed on.
pub open spec fn spec_data_action(data: ClientData, own_id: Option<u32>) -> DataAction {
    match data {
        ClientData::NewConnection(id) => DataAction::NoteConnection(id),
        ClientData::Disconnection(id) => DataAction::NoteDisconnection(id),
        ClientData::CreateSelectionBox { client_id, box_type, active, coord_pos, aabb } =>
            DataAction::CreateSelectionBox { client_id, box_type, active, coord_pos, aabb },
        ClientData::ActivateTerrainToolBox { client_id } =>
            if from_other(client_id, own_id) { DataAction::ActivateTerrainToolBox(client_id) } else { DataAction::Ignore },
        ClientData::ActivateActorToolBox { client_id } =>
            if from_other(client_id, own_id) { DataAction::ActivateActorToolBox(client_id) } else { DataAction::Ignore },
        ClientData::ActorToolSelection { client_id, actor_id } =>
            if from_other(client_id, own_id) { DataAction::ChooseActor { client_id, actor_id } } else { DataAction::Ignore },
        ClientData::ActorInsertion(bytes) => DataAction::InsertActor(bytes),
        ClientData::ActorRemoval(id) => DataAction::RemoveActor(id),
        ClientData::MapInput(o) => DataAction::WriteTiles(o),
        ClientData::MapChange { change, store_history } => match change {
            MapChange::MapInsertion { aabb, tile_data } =>
                DataAction::ChangeBox { aabb, tile: Some(tile_data), store_history },
            MapChange::MapRemoval(aabb) => DataAction::ChangeBox { aabb, tile: None, store_history },
        },
        ClientData::MapNew => DataAction::ResetMap,
        ClientData::HistoryStep { amount, client_id } => DataAction::MoveHistory { client_id, amount },
        ClientData::UpdateSelectionBounds { client_id, coord_pos, aabb } =>
            if from_other(client_id, own_id) {
                DataAction::UpdateBounds { client_id, bounds: UpdateBounds { coord_pos, aabb } }
            } else {
                DataAction::Ignore
            },
    }
}

/// The box a map change concerns.
pub open spec fn changed_box(change: MapChange) -> AABB {
    match change {
        MapChange::MapInsertion { aabb, .. } => aabb,
        MapChange::MapRemoval(aabb) => aabb,
    }
}

/// The tile a map change fills its box with: the inserted tile, or none for a removal.
pub open spec fn placed_tile(change: MapChange) -> Option<TileData> {
    match change {
        MapChange::MapInsertion { tile_data, .. } => Some(tile_data),
        MapChange::MapRemoval(_) => None,
    }
}

/// A selection message that this client itself sent, coming back to it.
pub open spec fn echoed(data: ClientData, own_id: Option<u32>) -> bool {
    match data {
        ClientData::ActivateTerrainToolBox { client_id } => !from_other(client_id, own_id),
        ClientData::ActivateActorToolBox { client_id } => !from_other(client_id, own_id),
        ClientData::ActorToolSelection { client_id, .. } => !from_other(client_id, own_id),
        ClientData::UpdateSelectionBounds { client_id, .. } => !from_other(client_id, own_id),
        _ => false,
    }
}

/// `r` is what a client owes `data` as it was sent: a map change, insertion or removal,
/// becomes a change of exactly its box, filled with the inserted tile or emptied, keeping the
/// message's history unchanged so that the history it names can undo it; a history step
/// moves that client's history by the amount sent; tiles sent are written as they are; a
/// selection message coming back to the client that sent it changes nothing, and one from
/// another client is acted on for that client; the rest is passed on with what it carries.
pub open spec fn acts_as_sent(data: ClientData, own_id: Option<u32>, r: DataAction) -> bool {
    match data {
        ClientData::MapChange { change, store_history } => r == (DataAction::ChangeBox {
            aabb: changed_box(change),
            tile: placed_tile(change),
            store_history,
        }),
        ClientData::HistoryStep { amount, client_id } => r == (DataAction::MoveHistory { client_id, amount }),
        ClientData::MapInput(o) => r == DataAction::WriteTiles(o),
        ClientData::MapNew => r == DataAction::ResetMap,
        ClientData::NewConnection(id) => r == DataAction::NoteConnection(id),
        ClientData::Disconnection(id) => r == DataAction::NoteDisconnection(id),
        ClientData::ActorInsertion(bytes) => r == DataAction::InsertActor(bytes),
        ClientData::ActorRemoval(id) => r == DataAction::RemoveActor(id),
        ClientData::CreateSelectionBox { client_id, box_type, active, coord_pos, aabb } =>
            r == (DataAction::CreateSelectionBox { client_id, box_type, active, coord_pos, aabb }),
        ClientData::ActivateTerrainToolBox { client_id } =>
            r == (if echoed(data, own_id) { DataAction::Ignore } else { DataAction::ActivateTerrainToolBox(client_id) }),
        ClientData::ActivateActorToolBox { client_id } =>
            r == (if echoed(data, own_id) { DataAction::Ignore } else { DataAction::ActivateActorToolBox(client_id) }),
        ClientData::ActorToolSelection { client_id, actor_id } => r == (if echoed(data, own_id) {
            DataAction::Ignore
        } else {
            DataAction::ChooseActor { client_id, actor_id }
        }),
        ClientData::UpdateSelectionBounds { client_id, coord_pos, aabb } => r == (if echoed(data, own_id) {
            DataAction::Ignore
        } else {
            DataAction::UpdateBounds { client_id, bounds: UpdateBounds { coord_pos, aabb } }
        }),
    }
}

/// The client's decision on received data is what it owes the data as it was sent.
pub proof fn lemma_data_action_as_sent(data: ClientData, own_id: Option<u32>)
    ensures
        acts_as_sent(data, own_id, spec_data_action(data, own_id)),
{
}

fn is_other(sender: u32, own_id: Option<u32>) -> (r: bool)
    ensures
        r == from_other(sender, own_id),
{
    match own_id {
        Some(own) => own != sender,
        None => false,
    }
}

/// Decides what the client does with what it received.
pub fn data_action(data: ClientData, own_id: Option<u32>) -> (r: DataAction)
    ensures
        r == spec_data_action(data, own_id),
        acts_as_sent(data, own_id, r),
{
    proof {
        lemma_data_action_as_sent(data, own_id);
    }
    match data {
        ClientData::NewConnection(id) => DataAction::NoteConnection(id),
        ClientData::Disconnection(id) => DataAction::NoteDisconnection(id),
        ClientData::CreateSelectionBox { client_id, box_type, active, coord_pos, aabb } =>
            DataAction::CreateSelectionBox { client_id, box_type, active, coord_pos, aabb },
        ClientData::ActivateTerrainToolBox { client_id } =>
            if is_other(client_id, own_id) { DataAction::ActivateTerrainToolBox(client_id) } else { DataAction::Ignore },
        ClientData::ActivateActorToolBox { client_id } =>
            if is_other(client_id, own_id) { DataAction::ActivateActorToolBox(client_id) } else { DataAction::Ignore },
        ClientData::ActorToolSelection { client_id, actor_id } =>
            if is_other(client_id, own_id) { DataAction::ChooseActor { client_id, actor_id } } else { DataAction::Ignore },
        ClientData::ActorInsertion(bytes) => DataAction::InsertActor(bytes),
        ClientData::ActorRemoval(id) => DataAction::RemoveActor(id),
        ClientData::MapInput(o) => DataAction::WriteTiles(o),
        ClientData::MapChange { change, store_history } => match change {
            MapChange::MapInsertion { aabb, tile_data } =>
                DataAction::ChangeBox { aabb, tile: Some(tile_data), store_history },
            MapChange::MapRemoval(aabb) => DataAction::ChangeBox { aabb, tile: None, store_history },
        },
        ClientData::MapNew => DataAction::ResetMap,
        ClientData::HistoryStep { amount, client_id } => DataAction::MoveHistory { client_id, amount },
        ClientData::UpdateSelectionBounds { client_id, coord_pos, aabb } =>
            if is_other(client_id, own_id) {
                DataAction::UpdateBounds { client_id, bounds: UpdateBounds { coord_pos, aabb } }
            } else {
                DataAction::Ignore
            },
    }
}

} // verus!
