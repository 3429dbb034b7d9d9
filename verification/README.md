# wolf_gang

The logic of a multiplayer level editor for tile-based 3D maps, verified with Verus.

- `src/` is the library: the grid geometry (`point`, `aabb`), the region octree that holds
  the tiles (`octree`), the map cut into chunks and the changes written into it
  (`level_map`), the undo/redo history and how changes are recorded in it (`history`), the
  selection box and its tools (`selection_box`), the helpers that decide which faces of the
  terrain mesh are open and which chunks are drawn in a pass (`mesh`), the message path
  between peers — compression, fragmentation and reassembly — and the decisions of the server
  and clients (`networking`, `connection`, `client`), whether an input action counts as
  pressed (`input`), and small pieces of game state (`actor`, `editor`, `game_state`, `lobby`).
- Every function of `src/` is verified except four small trusted wrappers around outside
  crates, whose contracts are taken on trust: `random_id` (uuid's random v4 identifier),
  `uuid_from_bytes` (uuid's reading of 16 bytes), and `compress_bytes` / `decompress_bytes`
  (snap's raw encoder and decoder).
- `app/` is ordinary Rust around it: serde forms of the library's values, the bincode encoding
  of messages around the library's compression and cutting, the lobby's host records, the
  floating-point geometry, and the server and client loops (`driver`) that perform what the
  library decides.
- `tests/` runs the library on concrete values.
