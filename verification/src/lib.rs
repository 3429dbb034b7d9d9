pub mod point;
pub mod aabb;
pub mod octree;
pub mod level_map;
pub mod history;
pub mod lobby;
pub mod networking;
pub mod mesh;
pub mod selection_box;
pub mod actor;
pub mod game_state;
pub mod editor;
pub mod connection;
pub mod client;
pub mod input;
