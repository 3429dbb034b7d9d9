use vstd::prelude::*;
use crate::point::{Point, fits_i32};
use crate::aabb::{AABB, abs_int};
use crate::level_map::{CoordPos, LevelMap, MapChange, MapChunkData, TileData, existing_tile, fill_octree_from_aabb};

verus! {

/// The two kinds of selection box: one for editing terrain, one for placing actors.
#[derive(Debug, Clone, Copy, PartialEq, Eq, Structural)]
pub enum ToolBoxType {
    TerrainToolBox,
    ActorToolBox,
}

/// The box of grid positions that a player has selected.
#[derive(Debug, Clone, Copy, PartialEq, Eq, Structural)]
pub struct SelectionBox {
    pub aabb: AABB,
}

impl SelectionBox {
    /// A selection box at center (0,0,0) with dimensions of (1,1,1).
    pub fn new() -> (r: SelectionBox)
        ensures
            r.aabb.center == (Point { x: 0, y: 0, z: 0 }),
            r.aabb.dimensions == (Point { x: 1, y: 1, z: 1 }),
    {
        SelectionBox { aabb: AABB::new(Point::new(0, 0, 0), Point::new(1, 1, 1)) }
    }

    pub fn from_aabb(aabb: AABB) -> (r: SelectionBox)
        ensures
            r.aabb == aabb,
    {
        SelectionBox { aabb }
    }
}

/// A pending move of a player's selection box: where its cursor goes and what box it gets.
#[derive(Debug, Clone, Copy, PartialEq, Eq, Structural)]
pub struct UpdateBounds {
    pub coord_pos: Point,
    pub aabb: AABB,
}

/// The six directions in which the selection box is moved or grown, relative to the camera.
#[derive(Debug, Clone, Copy, PartialEq, Eq, Structural)]
pub enum Direction {
    Forward,
    Back,
    Left,
    Right,
    Up,
    Down,
}

impl Direction {
    /// The unit step of the direction, with forward along z and right along x.
    pub open spec fn step_spec(self) -> Point {
        match self {
            Direction::Forward => Point { x: 0, y: 0, z: 1 },
            Direction::Back => Point { x: 0, y: 0, z: -1i32 },
            Direction::Left => Point { x: -1i32, y: 0, z: 0 },
            Direction::Right => Point { x: 1, y: 0, z: 0 },
            Direction::Up => Point { x: 0, y: 1, z: 0 },
            Direction::Down => Point { x: 0, y: -1i32, z: 0 },
        }
    }

    pub fn step(self) -> (r: Point)
        ensures
            r == self.step_spec(),
    {
        match self {
            Direction::Forward => Point::new(0, 0, 1),
            Direction::Back => Point::new(0, 0, -1),
            Direction::Left => Point::new(-1, 0, 0),
            Direction::Right => Point::new(1, 0, 0),
            Direction::Up => Point::new(0, 1, 0),
            Direction::Down => Point::new(0, -1, 0),
        }
    }
}

/// A value in `-1..=1`.
pub open spec fn unit(v: int) -> bool {
    -1 <= v <= 1
}

/// A step whose every component lies in `-1..=1`.
pub open spec fn unit_step(p: Point) -> bool {
    unit(p.x as int) && unit(p.y as int) && unit(p.z as int)
}

/// The grid step of a movement `m` (forward along z, right along x) once turned to the
/// camera, whose forward and right axes, rounded to the grid, are (`fx`, `fz`) and
/// (`rx`, `rz`): forward and right follow the camera, up stays up.
pub open spec fn turned(m: Point, fx: int, fz: int, rx: int, rz: int) -> Point {
    Point {
        x: (fx * m.z + rx * m.x) as i32,
        y: m.y,
        z: (fz * m.z + rz * m.x) as i32,
    }
}

/// Turns a movement of the selection box to the camera.
pub fn adjust_movement(movement: Point, forward_x: i32, forward_z: i32, right_x: i32, right_z: i32) -> (r: Point)
    requires
        unit_step(movement),
        unit(forward_x as int),
        unit(forward_z as int),
        unit(right_x as int),
        unit(right_z as int),
    ensures
        r == turned(movement, forward_x as int, forward_z as int, right_x as int, right_z as int),
{
    assert(-1 <= forward_x * movement.z <= 1) by (nonlinear_arith)
        requires unit(forward_x as int), unit(movement.z as int);
    assert(-1 <= right_x * movement.x <= 1) by (nonlinear_arith)
        requires unit(right_x as int), unit(movement.x as int);
    assert(-1 <= forward_z * movement.z <= 1) by (nonlinear_arith)
        requires unit(forward_z as int), unit(movement.z as int);
    assert(-1 <= right_z * movement.x <= 1) by (nonlinear_arith)
        requires unit(right_z as int), unit(movement.x as int);
    Point::new(
        forward_x * movement.z + right_x * movement.x,
        movement.y,
        forward_z * movement.z + right_z * movement.x,
    )
}

/// Turns a growth of the selection box to the camera: as a movement, but along the
/// camera's axes taken without their sign, so that growing keeps its sense.
pub fn adjust_expansion(expansion: Point, forward_x: i32, forward_z: i32, right_x: i32, right_z: i32) -> (r: Point)
    requires
        unit_step(expansion),
        unit(forward_x as int),
        unit(forward_z as int),
        unit(right_x as int),
        unit(right_z as int),
    ensures
        r == turned(
            expansion,
            abs_int(forward_x as int),
            abs_int(forward_z as int),
            abs_int(right_x as int),
            abs_int(right_z as int),
        ),
{
    let fx: i32 = if forward_x < 0 { -forward_x } else { forward_x };
    let fz: i32 = if forward_z < 0 { -forward_z } else { forward_z };
    let rx: i32 = if right_x < 0 { -right_x } else { right_x };
    let rz: i32 = if right_z < 0 { -right_z } else { right_z };
    adjust_movement(expansion, fx, fz, rx, rz)
}

/// The size along one axis after growing by `e`: a size that would become zero grows on
/// through zero to the other side.
pub open spec fn grown_dim(d: int, e: int) -> int {
    if d + e == 0 {
        d + e + e * 2
    } else {
        d + e
    }
}

/// The box `b` grown by `e`, about the same center.
pub open spec fn grown_box(b: AABB, e: Point) -> AABB {
    AABB {
        center: b.center,
        dimensions: Point {
            x: grown_dim(b.dimensions.x as int, e.x as int) as i32,
            y: grown_dim(b.dimensions.y as int, e.y as int) as i32,
            z: grown_dim(b.dimensions.z as int, e.z as int) as i32,
        },
    }
}

/// How far the cursor of the box moves along one axis as the box changes from bounds
/// `lo..=hi` to `nlo..=nhi` with new size `nd`: the lower bound's shift, or the upper bound's
/// where the new size is negative; `flip` (the camera looks back along the axis) swaps the
/// roles of the two bounds.
pub open spec fn axis_shift(lo: int, hi: int, nlo: int, nhi: int, nd: int, flip: bool) -> int {
    if !flip {
        if nd < 0 {
            nhi - hi
        } else {
            nlo - lo
        }
    } else {
        if nd < 0 {
            nlo - lo
        } else {
            nhi - hi
        }
    }
}

/// Whether the cursor follows the box's lower bound along an axis (rather than its upper
/// one): seen along the axis, a box of positive size grows from its lower bound; seen back
/// along it (`flip`), the camera's right is the axis's left, so a box of negative size does.
pub open spec fn keeps_lower(flip: bool, nd: int) -> bool {
    if flip { nd < 0 } else { nd >= 0 }
}

/// The cursor moves by the change of the bound it follows: of the lower bound where
/// `keeps_lower` holds, of the upper bound otherwise.
pub proof fn lemma_shift_follows_bound(lo: int, hi: int, nlo: int, nhi: int, nd: int, flip: bool)
    ensures
        keeps_lower(flip, nd) ==> axis_shift(lo, hi, nlo, nhi, nd, flip) == nlo - lo,
        !keeps_lower(flip, nd) ==> axis_shift(lo, hi, nlo, nhi, nd, flip) == nhi - hi,
{
}

/// Growing a box moves the cursor, along each axis, by the change of the bound the cursor
/// follows there (`keeps_lower`); y is never flipped.
pub proof fn lemma_expansion_shift_follows_bound(b: AABB, e: Point, flip_x: bool, flip_z: bool)
    ensures
        keeps_lower(flip_x, grown_box(b, e).dimensions.x as int) ==> expansion_shift(b, e, flip_x, flip_z).x
            == (grown_box(b, e).min_x() - b.min_x()) as i32,
        !keeps_lower(flip_x, grown_box(b, e).dimensions.x as int) ==> expansion_shift(b, e, flip_x, flip_z).x
            == (grown_box(b, e).max_x() - b.max_x()) as i32,
        keeps_lower(false, grown_box(b, e).dimensions.y as int) ==> expansion_shift(b, e, flip_x, flip_z).y
            == (grown_box(b, e).min_y() - b.min_y()) as i32,
        !keeps_lower(false, grown_box(b, e).dimensions.y as int) ==> expansion_shift(b, e, flip_x, flip_z).y
            == (grown_box(b, e).max_y() - b.max_y()) as i32,
        keeps_lower(flip_z, grown_box(b, e).dimensions.z as int) ==> expansion_shift(b, e, flip_x, flip_z).z
            == (grown_box(b, e).min_z() - b.min_z()) as i32,
        !keeps_lower(flip_z, grown_box(b, e).dimensions.z as int) ==> expansion_shift(b, e, flip_x, flip_z).z
            == (grown_box(b, e).max_z() - b.max_z()) as i32,
{
}

/// Seen back along an axis, the cursor moves as the mirror image of how it moves, seen along
/// the axis, for the mirrored box: flipping the camera swaps the roles of the two bounds.
pub proof fn lemma_flipped_shift_mirrors(lo: int, hi: int, nlo: int, nhi: int, nd: int)
    ensures
        axis_shift(lo, hi, nlo, nhi, nd, true) == -axis_shift(-hi, -lo, -nhi, -nlo, nd, false),
{
}

/// The box can grow by `e` with every intermediate value in range.
pub open spec fn growth_ok(b: AABB, e: Point) -> bool {
    &&& b.well_sized()
    &&& unit_step(e)
    &&& fits_i32(b.dimensions.x + e.x * 3)
    &&& fits_i32(b.dimensions.y + e.y * 3)
    &&& fits_i32(b.dimensions.z + e.z * 3)
    &&& grown_box(b, e).well_sized()
}

/// Grows `new_aabb` by `expansion` and returns how far the selection cursor has to move
/// back for the box to stay in place on the side the camera sees; `flip_x` and `flip_z`
/// tell that the camera's right axis points toward negative x or negative z.
pub fn expansion_movement_helper(expansion: Point, flip_x: bool, flip_z: bool, new_aabb: &mut AABB) -> (r: Point)
    requires
        growth_ok(*old(new_aabb), expansion),
    ensures
        *final(new_aabb) == grown_box(*old(new_aabb), expansion),
        r.x == axis_shift(
            old(new_aabb).min_x(),
            old(new_aabb).max_x(),
            final(new_aabb).min_x(),
            final(new_aabb).max_x(),
            final(new_aabb).dimensions.x as int,
            flip_x,
        ),
        r.y == axis_shift(
            old(new_aabb).min_y(),
            old(new_aabb).max_y(),
            final(new_aabb).min_y(),
            final(new_aabb).max_y(),
            final(new_aabb).dimensions.y as int,
            false,
        ),
        r.z == axis_shift(
            old(new_aabb).min_z(),
            old(new_aabb).max_z(),
            final(new_aabb).min_z(),
            final(new_aabb).max_z(),
            final(new_aabb).dimensions.z as int,
            flip_z,
        ),
        keeps_lower(flip_x, final(new_aabb).dimensions.x as int) ==> r.x == final(new_aabb).min_x() - old(new_aabb).min_x(),
        !keeps_lower(flip_x, final(new_aabb).dimensions.x as int) ==> r.x == final(new_aabb).max_x() - old(new_aabb).max_x(),
        keeps_lower(false, final(new_aabb).dimensions.y as int) ==> r.y == final(new_aabb).min_y() - old(new_aabb).min_y(),
        !keeps_lower(false, final(new_aabb).dimensions.y as int) ==> r.y == final(new_aabb).max_y() - old(new_aabb).max_y(),
        keeps_lower(flip_z, final(new_aabb).dimensions.z as int) ==> r.z == final(new_aabb).min_z() - old(new_aabb).min_z(),
        !keeps_lower(flip_z, final(new_aabb).dimensions.z as int) ==> r.z == final(new_aabb).max_z() - old(new_aabb).max_z(),
{
    let before = *new_aabb;
    new_aabb.dimensions = new_aabb.dimensions.add(expansion);
    if new_aabb.dimensions.x == 0 {
        new_aabb.dimensions.x = new_aabb.dimensions.x + expansion.x * 2;
    }
    if new_aabb.dimensions.y == 0 {
        new_aabb.dimensions.y = new_aabb.dimensions.y + expansion.y * 2;
    }
    if new_aabb.dimensions.z == 0 {
        new_aabb.dimensions.z = new_aabb.dimensions.z + expansion.z * 2;
    }
    assert(*new_aabb == grown_box(before, expansion));
    let mut min = before.get_min();
    let mut max = before.get_max();
    let mut new_min = new_aabb.get_min();
    let mut new_max = new_aabb.get_max();
    if flip_x {
        let tmp_min = min.x;
        let tmp_new_min = new_min.x;
        min.x = max.x;
        new_min.x = new_max.x;
        max.x = tmp_min;
        new_max.x = tmp_new_min;
    }
    if flip_z {
        let tmp_min = min.z;
        let tmp_new_min = new_min.z;
        min.z = max.z;
        new_min.z = new_max.z;
        max.z = tmp_min;
        new_max.z = tmp_new_min;
    }
    let dx: i32 = if new_aabb.dimensions.x < 0 {
        new_max.x - max.x
    } else {
        new_min.x - min.x
    };
    let dy: i32 = if new_aabb.dimensions.y < 0 {
        new_max.y - max.y
    } else {
        new_min.y - min.y
    };
    let dz: i32 = if new_aabb.dimensions.z < 0 {
        new_max.z - max.z
    } else {
        new_min.z - min.z
    };
    Point::new(dx, dy, dz)
}

/// The shift of the cursor that `expansion_movement_helper` gives when `b` grows by `e`.
pub open spec fn expansion_shift(b: AABB, e: Point, flip_x: bool, flip_z: bool) -> Point {
    let g = grown_box(b, e);
    Point {
        x: axis_shift(b.min_x(), b.max_x(), g.min_x(), g.max_x(), g.dimensions.x as int, flip_x) as i32,
        y: axis_shift(b.min_y(), b.max_y(), g.min_y(), g.max_y(), g.dimensions.y as int, false) as i32,
        z: axis_shift(b.min_z(), b.max_z(), g.min_z(), g.max_z(), g.dimensions.z as int, flip_z) as i32,
    }
}

/// The result of a move or growth of the selection box: the pending update the client keeps,
/// and the update it sends to the other players.
#[derive(Debug, Clone, Copy, PartialEq, Eq, Structural)]
pub struct BoundsPlan {
    pub pending: UpdateBounds,
    pub message: UpdateBounds,
}

/// Plans a move of the selection box by `movement`. A pending update, if there is one, moves
/// on by `movement` and keeps its box, and the message carries its new cursor with the
/// selection's box; otherwise the cursor moves from `coord_pos` and both carry the selection's
/// box.
pub fn plan_movement(existing: Option<UpdateBounds>, coord_pos: Point, aabb: AABB, movement: Point) -> (r: BoundsPlan)
    requires
        fits_i32(coord_pos.x + movement.x),
        fits_i32(coord_pos.y + movement.y),
        fits_i32(coord_pos.z + movement.z),
        existing matches Some(u) ==> {
            &&& fits_i32(u.coord_pos.x + movement.x)
            &&& fits_i32(u.coord_pos.y + movement.y)
            &&& fits_i32(u.coord_pos.z + movement.z)
        },
    ensures
        match existing {
            Some(u) => {
                &&& r.pending.coord_pos.x == u.coord_pos.x + movement.x
                &&& r.pending.coord_pos.y == u.coord_pos.y + movement.y
                &&& r.pending.coord_pos.z == u.coord_pos.z + movement.z
                &&& r.pending.aabb == u.aabb
                &&& r.message == (UpdateBounds { coord_pos: r.pending.coord_pos, aabb })
            },
            None => {
                &&& r.pending.coord_pos.x == coord_pos.x + movement.x
                &&& r.pending.coord_pos.y == coord_pos.y + movement.y
                &&& r.pending.coord_pos.z == coord_pos.z + movement.z
                &&& r.pending.aabb == aabb
                &&& r.message == r.pending
            },
        },
{
    match existing {
        Some(u) => {
            let moved = u.coord_pos.add(movement);
            BoundsPlan {
                pending: UpdateBounds { coord_pos: moved, aabb: u.aabb },
                message: UpdateBounds { coord_pos: moved, aabb },
            }
        },
        None => {
            let moved = coord_pos.add(movement);
            let update = UpdateBounds { coord_pos: moved, aabb };
            BoundsPlan { pending: update, message: update }
        },
    }
}

/// Plans a growth of the selection box by `expansion`. The cursor moves back by the shift
/// that `expansion_movement_helper` gives for the selection's box. A pending update, if there
/// is one, moves back by that shift and its box's size grows by `expansion`; otherwise the
/// cursor moves from `coord_pos` and the box is the grown selection box. Both the pending
/// update and the message carry the result.
pub fn plan_expansion(
    existing: Option<UpdateBounds>,
    coord_pos: Point,
    aabb: AABB,
    expansion: Point,
    flip_x: bool,
    flip_z: bool,
) -> (r: BoundsPlan)
    requires
        growth_ok(aabb, expansion),
        fits_i32(coord_pos.x - expansion_shift(aabb, expansion, flip_x, flip_z).x),
        fits_i32(coord_pos.y - expansion_shift(aabb, expansion, flip_x, flip_z).y),
        fits_i32(coord_pos.z - expansion_shift(aabb, expansion, flip_x, flip_z).z),
        existing matches Some(u) ==> {
            &&& fits_i32(u.coord_pos.x - expansion_shift(aabb, expansion, flip_x, flip_z).x)
            &&& fits_i32(u.coord_pos.y - expansion_shift(aabb, expansion, flip_x, flip_z).y)
            &&& fits_i32(u.coord_pos.z - expansion_shift(aabb, expansion, flip_x, flip_z).z)
            &&& fits_i32(u.aabb.dimensions.x + expansion.x)
            &&& fits_i32(u.aabb.dimensions.y + expansion.y)
            &&& fits_i32(u.aabb.dimensions.z + expansion.z)
        },
    ensures
        r.message == r.pending,
        match existing {
            Some(u) => {
                &&& r.pending.coord_pos.x == u.coord_pos.x - expansion_shift(aabb, expansion, flip_x, flip_z).x
                &&& r.pending.coord_pos.y == u.coord_pos.y - expansion_shift(aabb, expansion, flip_x, flip_z).y
                &&& r.pending.coord_pos.z == u.coord_pos.z - expansion_shift(aabb, expansion, flip_x, flip_z).z
                &&& r.pending.aabb.center == u.aabb.center
                &&& r.pending.aabb.dimensions.x == u.aabb.dimensions.x + expansion.x
                &&& r.pending.aabb.dimensions.y == u.aabb.dimensions.y + expansion.y
                &&& r.pending.aabb.dimensions.z == u.aabb.dimensions.z + expansion.z
            },
            None => {
                &&& r.pending.coord_pos.x == coord_pos.x - expansion_shift(aabb, expansion, flip_x, flip_z).x
                &&& r.pending.coord_pos.y == coord_pos.y - expansion_shift(aabb, expansion, flip_x, flip_z).y
                &&& r.pending.coord_pos.z == coord_pos.z - expansion_shift(aabb, expansion, flip_x, flip_z).z
                &&& r.pending.aabb == grown_box(aabb, expansion)
            },
        },
{
    let mut new_aabb = aabb;
    let diff = expansion_movement_helper(expansion, flip_x, flip_z, &mut new_aabb);
    let update = match existing {
        Some(u) => UpdateBounds {
            coord_pos: u.coord_pos.sub(diff),
            aabb: AABB::new(u.aabb.center, u.aabb.dimensions.add(expansion)),
        },
        None => UpdateBounds { coord_pos: coord_pos.sub(diff), aabb: new_aabb },
    };
    BoundsPlan { pending: update, message: update }
}

/// Applies a pending update to a player's selection box: the cursor always moves; the box
/// changes only where it differs and the box is the active one.
pub fn apply_update_bounds(update: UpdateBounds, active: bool, coord_pos: &mut CoordPos, selection_box: &mut SelectionBox)
    ensures
        final(coord_pos).value == update.coord_pos,
        final(selection_box).aabb == (if active { update.aabb } else { old(selection_box).aabb }),
{
    coord_pos.value = update.coord_pos;
    if !(selection_box.aabb == update.aabb) && active {
        selection_box.aabb = update.aabb;
    }
}


/// The box the terrain tool acts on: the selection box's size at the cursor.
pub open spec fn tool_box(coord_pos: Point, selection: SelectionBox) -> AABB {
    AABB { center: coord_pos, dimensions: selection.aabb.dimensions }
}

/// The change that the terrain tool asks for when it fires: filling the box at the cursor
/// (`insertion`) or clearing it. Nothing is asked for where the map already holds exactly
/// that over the box.
pub fn tile_tool_change<E>(
    map: &LevelMap,
    map_datas: &Vec<(E, MapChunkData, Point)>,
    coord_pos: Point,
    selection: &SelectionBox,
    insertion: bool,
) -> (r: Option<MapChange>)
    requires
        map.wf(),
        tool_box(coord_pos, *selection).well_sized(),
        forall|k: int| 0 <= k < map_datas@.len() ==> (#[trigger] map_datas@[k]).1.octree.wf(),
    ensures
        r.is_some() <==> !(forall|t: TileData|
            existing_tile(map_datas@, tool_box(coord_pos, *selection), t) <==> (insertion
                && tool_box(coord_pos, *selection).contains_spec(t.point))),
        r matches Some(c) ==> c == (if insertion {
            MapChange::MapInsertion {
                aabb: tool_box(coord_pos, *selection),
                tile_data: TileData { point: Point { x: 0, y: 0, z: 0 } },
            }
        } else {
            MapChange::MapRemoval(tool_box(coord_pos, *selection))
        }),
{
    let aabb = AABB::new(coord_pos, selection.aabb.dimensions);
    let tile_data = TileData::new(Point::zeros());
    let fill = if insertion { Some(tile_data) } else { None };
    let octree = fill_octree_from_aabb(aabb, fill);
    proof {
        let same_now = forall|t: TileData| existing_tile(map_datas@, aabb, t) <==> octree@.contains(t);
        let same_wanted = forall|t: TileData|
            existing_tile(map_datas@, aabb, t) <==> (insertion && aabb.contains_spec(t.point));
        assert(same_now <==> same_wanted) by {
            if same_now {
                assert forall|t: TileData| existing_tile(map_datas@, aabb, t) <==> (insertion && aabb.contains_spec(t.point)) by {
                    assert(octree@.contains(t) <==> (insertion && aabb.contains_spec(t.point)));
                }
            }
            if same_wanted {
                assert forall|t: TileData| existing_tile(map_datas@, aabb, t) <==> octree@.contains(t) by {
                    assert(octree@.contains(t) <==> (insertion && aabb.contains_spec(t.point)));
                }
            }
        }
    }
    match map.can_change(map_datas, octree) {
        Ok(_) => {
            if insertion {
                Some(MapChange::MapInsertion { aabb, tile_data })
            } else {
                Some(MapChange::MapRemoval(aabb))
            }
        },
        Err(_) => None,
    }
}

} // verus!
