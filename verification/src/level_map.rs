use vstd::prelude::*;
use crate::point::{Point, floor_div, fits_i32};
use crate::aabb::AABB;
use crate::octree::{Octree, DEFAULT_MAX};
use crate::history::{History, StepType, record_change, recorded};

verus! {

/// A single tile of the map, identified by its grid position.
#[derive(Debug, Clone, Copy, PartialEq, Eq, Hash, Structural)]
pub struct TileData {
    pub point: Point,
}

impl TileData {
    pub fn new(point: Point) -> (r: TileData)
        ensures
            r.point == point,
    {
        TileData { point }
    }

    /// A tile is determined by its position.
    pub proof fn lemma_eq(a: TileData, b: TileData)
        requires
            a.point == b.point,
        ensures
            a == b,
    {
    }

    pub fn get_point(&self) -> (r: Point)
        ensures
            r == self.point,
    {
        self.point
    }
}

/// The range of a change: the box that was edited directly, or a neighbouring box that
/// has to be redrawn because of it.
#[derive(Debug, Clone, Copy, PartialEq, Eq, Structural)]
pub enum ChangeType {
    Direct(AABB),
    Indirect(AABB),
}

/// A change to the map as exchanged between peers.
#[derive(Debug, Clone, Copy, PartialEq, Eq, Structural)]
pub enum MapChange {
    MapInsertion { aabb: AABB, tile_data: TileData },
    MapRemoval(AABB),
}

/// The grid position the editing cursor points at.
#[derive(Debug, Clone, Copy, PartialEq, Eq, Structural)]
pub struct CoordPos {
    pub value: Point,
}

impl Default for CoordPos {
    fn default() -> (r: CoordPos)
        ensures
            r.value == (Point { x: 0, y: 0, z: 0 }),
    {
        CoordPos { value: Point::zeros() }
    }
}

/// Side of a map chunk along every axis.
pub const CHUNK_SIDE: i32 = 10;

/// The chunk index that a coordinate falls in.
pub open spec fn chunk_index(v: int) -> int {
    v / (CHUNK_SIDE as int)
}

/// The box of chunk `c`: `c * side ..= c * side + side - 1` along every axis, so that the
/// chunk boxes tile the grid without overlapping.
pub open spec fn chunk_box(c: Point) -> AABB {
    AABB::extents_spec(
        Point {
            x: (c.x * CHUNK_SIDE) as i32,
            y: (c.y * CHUNK_SIDE) as i32,
            z: (c.z * CHUNK_SIDE) as i32,
        },
        Point {
            x: (c.x * CHUNK_SIDE + CHUNK_SIDE - 1) as i32,
            y: (c.y * CHUNK_SIDE + CHUNK_SIDE - 1) as i32,
            z: (c.z * CHUNK_SIDE + CHUNK_SIDE - 1) as i32,
        },
    )
}

/// A coordinate whose chunk's bounds (the chunk's first coordinate, and the first one past
/// it) fit in an `i32`.
pub open spec fn coord_in_map(v: int) -> bool {
    &&& fits_i32(chunk_index(v) * CHUNK_SIDE)
    &&& fits_i32(chunk_index(v) * CHUNK_SIDE + CHUNK_SIDE)
}

/// A box whose corners lie in chunks whose bounds fit in an `i32`.
pub open spec fn box_in_map(b: AABB) -> bool {
    &&& b.well_sized()
    &&& coord_in_map(b.min_x()) && coord_in_map(b.max_x())
    &&& coord_in_map(b.min_y()) && coord_in_map(b.max_y())
    &&& coord_in_map(b.min_z()) && coord_in_map(b.max_z())
}

/// Chunk `c` is one of the chunks that the box overlaps.
pub open spec fn chunk_in_range(b: AABB, c: Point) -> bool {
    &&& chunk_index(b.min_x()) <= c.x <= chunk_index(b.max_x())
    &&& chunk_index(b.min_y()) <= c.y <= chunk_index(b.max_y())
    &&& chunk_index(b.min_z()) <= c.z <= chunk_index(b.max_z())
}

/// The part of `b` inside the box of chunk `c`.
pub open spec fn chunk_slice(b: AABB, c: Point) -> AABB {
    AABB::extents_spec(chunk_box(c).meet_min(b), chunk_box(c).meet_max(b))
}

/// Map data of one chunk: the tiles it holds.
#[derive(Debug)]
pub struct MapChunkData {
    pub octree: Octree,
}

impl MapChunkData {
    pub fn new(aabb: AABB) -> (r: MapChunkData)
        requires
            aabb.well_sized(),
        ensures
            r.octree.wf(),
            r.octree@ == Set::<TileData>::empty(),
            r.octree.spec_aabb() == aabb,
            r.octree.spec_max_elements() == DEFAULT_MAX,
    {
        MapChunkData { octree: Octree::new(aabb, DEFAULT_MAX) }
    }

    /// The chunk index of the lowest corner of the chunk's box, measured in box sizes.
    pub fn get_chunk_point(&self) -> (r: Point)
        requires
            self.octree.spec_aabb().well_sized(),
            self.octree.spec_aabb().dimensions.x > 0,
            self.octree.spec_aabb().dimensions.y > 0,
            self.octree.spec_aabb().dimensions.z > 0,
        ensures
            r.x == self.octree.spec_aabb().min_x() / (self.octree.spec_aabb().dimensions.x as int),
            r.y == self.octree.spec_aabb().min_y() / (self.octree.spec_aabb().dimensions.y as int),
            r.z == self.octree.spec_aabb().min_z() / (self.octree.spec_aabb().dimensions.z as int),
    {
        let aabb = self.octree.get_aabb();
        let min = aabb.get_min();
        let dimensions = aabb.dimensions;
        Point::new(
            floor_div(min.x, dimensions.x),
            floor_div(min.y, dimensions.y),
            floor_div(min.z, dimensions.z),
        )
    }
}

/// Chunk `c` comes before position `(x, y, z)` in the order z, then y, then x.
pub open spec fn before(c: Point, x: int, y: int, z: int) -> bool {
    ||| c.z < z
    ||| c.z == z && c.y < y
    ||| c.z == z && c.y == y && c.x < x
}

/// The map, cut into chunks of equal size.
#[derive(Clone, Copy)]
pub struct LevelMap {
    chunk_dimensions: Point,
}

impl Default for LevelMap {
    fn default() -> (r: LevelMap)
        ensures
            r.wf(),
    {
        LevelMap { chunk_dimensions: Point::new(CHUNK_SIDE, CHUNK_SIDE, CHUNK_SIDE) }
    }
}

impl LevelMap {
    pub closed spec fn spec_chunk_dimensions(&self) -> Point {
        self.chunk_dimensions
    }

    /// Chunks are cubes of side `CHUNK_SIDE`.
    pub open spec fn wf(&self) -> bool {
        self.spec_chunk_dimensions() == (Point { x: CHUNK_SIDE, y: CHUNK_SIDE, z: CHUNK_SIDE })
    }

    proof fn lemma_axis_meet(mn: int, mx: int, c: int)
        requires
            mn <= mx + 1,
            chunk_index(mn) <= c <= chunk_index(mx),
        ensures
            c * CHUNK_SIDE <= mx,
            mn <= c * CHUNK_SIDE + CHUNK_SIDE,
            mn - CHUNK_SIDE < c * CHUNK_SIDE,
            chunk_index(mn) * CHUNK_SIDE <= c * CHUNK_SIDE,
            c * CHUNK_SIDE <= chunk_index(mx) * CHUNK_SIDE,
    {
        vstd::arithmetic::div_mod::lemma_fundamental_div_mod(mn, CHUNK_SIDE as int);
        vstd::arithmetic::div_mod::lemma_fundamental_div_mod(mx, CHUNK_SIDE as int);
        assert(c * CHUNK_SIDE <= chunk_index(mx) * CHUNK_SIDE);
        assert(chunk_index(mn) * CHUNK_SIDE <= c * CHUNK_SIDE);
    }

    proof fn lemma_chunk_meets(aabb: AABB, c: Point)
        requires
            box_in_map(aabb),
            chunk_in_range(aabb, c),
        ensures
            chunk_box(c).well_sized(),
            AABB::extents_ok(chunk_box(c).meet_min(aabb), chunk_box(c).meet_max(aabb)),
            chunk_box(c).meet_min(aabb).x <= chunk_box(c).meet_max(aabb).x + 1,
            chunk_box(c).meet_min(aabb).y <= chunk_box(c).meet_max(aabb).y + 1,
            chunk_box(c).meet_min(aabb).z <= chunk_box(c).meet_max(aabb).z + 1,
            chunk_box(c).meet_max(aabb).x < i32::MAX,
            chunk_box(c).meet_max(aabb).y < i32::MAX,
            chunk_box(c).meet_max(aabb).z < i32::MAX,
            chunk_box(c).min_x() == c.x * CHUNK_SIDE && chunk_box(c).max_x() == c.x * CHUNK_SIDE + CHUNK_SIDE - 1,
            chunk_box(c).min_y() == c.y * CHUNK_SIDE && chunk_box(c).max_y() == c.y * CHUNK_SIDE + CHUNK_SIDE - 1,
            chunk_box(c).min_z() == c.z * CHUNK_SIDE && chunk_box(c).max_z() == c.z * CHUNK_SIDE + CHUNK_SIDE - 1,
            fits_i32(c.x * CHUNK_SIDE) && fits_i32(c.x * CHUNK_SIDE + CHUNK_SIDE),
            fits_i32(c.y * CHUNK_SIDE) && fits_i32(c.y * CHUNK_SIDE + CHUNK_SIDE),
            fits_i32(c.z * CHUNK_SIDE) && fits_i32(c.z * CHUNK_SIDE + CHUNK_SIDE),
    {
        LevelMap::lemma_axis_meet(aabb.min_x(), aabb.max_x(), c.x as int);
        LevelMap::lemma_axis_meet(aabb.min_y(), aabb.max_y(), c.y as int);
        LevelMap::lemma_axis_meet(aabb.min_z(), aabb.max_z(), c.z as int);
        let lo = Point { x: (c.x * CHUNK_SIDE) as i32, y: (c.y * CHUNK_SIDE) as i32, z: (c.z * CHUNK_SIDE) as i32 };
        let hi = Point {
            x: (c.x * CHUNK_SIDE + CHUNK_SIDE - 1) as i32,
            y: (c.y * CHUNK_SIDE + CHUNK_SIDE - 1) as i32,
            z: (c.z * CHUNK_SIDE + CHUNK_SIDE - 1) as i32,
        };
        crate::aabb::lemma_extents_round_trip(lo, hi);
    }

    /// Cuts `aabb` along chunk boundaries, into parts that fit the chunk size: one entry per
    /// chunk that the box overlaps, giving the chunk and the part of the box inside that
    /// chunk's box, listed x fastest, then y, then z.
    pub fn range_sliced_to_chunks(&self, aabb: AABB) -> (r: Vec<(Point, AABB)>)
        requires
            self.wf(),
            box_in_map(aabb),
        ensures
            forall|i: int|
                0 <= i < r@.len() ==> chunk_in_range(aabb, (#[trigger] r@[i]).0) && r@[i].1
                    == chunk_slice(aabb, r@[i].0),
            forall|i: int, j: int| 0 <= i < j < r@.len() ==> (#[trigger] r@[i]).0 != (#[trigger] r@[j]).0,
            forall|i: int, j: int| 0 <= i < j < r@.len() ==> before(
                (#[trigger] r@[i]).0,
                (#[trigger] r@[j]).0.x as int,
                r@[j].0.y as int,
                r@[j].0.z as int,
            ),
            forall|c: Point| #[trigger] chunk_in_range(aabb, c) ==> exists|i: int| 0 <= i < r@.len() && (#[trigger] r@[i]).0 == c,
    {
        let min = aabb.get_min();
        let max = aabb.get_max();
        let lo = Point::new(floor_div(min.x, CHUNK_SIDE), floor_div(min.y, CHUNK_SIDE), floor_div(min.z, CHUNK_SIDE));
        let hi = Point::new(floor_div(max.x, CHUNK_SIDE), floor_div(max.y, CHUNK_SIDE), floor_div(max.z, CHUNK_SIDE));
        let mut results: Vec<(Point, AABB)> = Vec::new();
        let mut z = lo.z;
        while z <= hi.z
            invariant
                box_in_map(aabb),
                lo.x == chunk_index(aabb.min_x()) && lo.y == chunk_index(aabb.min_y()) && lo.z == chunk_index(aabb.min_z()),
                hi.x == chunk_index(aabb.max_x()) && hi.y == chunk_index(aabb.max_y()) && hi.z == chunk_index(aabb.max_z()),
                lo.z <= z <= hi.z + 1,
                forall|i: int|
                    0 <= i < results@.len() ==> chunk_in_range(aabb, (#[trigger] results@[i]).0) && results@[i].1
                        == chunk_slice(aabb, results@[i].0) && before(results@[i].0, lo.x as int, lo.y as int, z as int),
                forall|i: int, j: int| 0 <= i < j < results@.len() ==> (#[trigger] results@[i]).0 != (#[trigger] results@[j]).0,
                forall|i: int, j: int| 0 <= i < j < results@.len() ==> before((#[trigger] results@[i]).0, (#[trigger] results@[j]).0.x as int, results@[j].0.y as int, results@[j].0.z as int),
                forall|c: Point| #[trigger] chunk_in_range(aabb, c) && before(c, lo.x as int, lo.y as int, z as int) ==> exists|i: int| 0 <= i < results@.len() && (#[trigger] results@[i]).0 == c,
            decreases hi.z + 1 - z,
        {
            let mut y = lo.y;
            let ghost z0 = z;
            while y <= hi.y
                invariant
                    z == z0,
                    box_in_map(aabb),
                    lo.x == chunk_index(aabb.min_x()) && lo.y == chunk_index(aabb.min_y()) && lo.z == chunk_index(aabb.min_z()),
                    hi.x == chunk_index(aabb.max_x()) && hi.y == chunk_index(aabb.max_y()) && hi.z == chunk_index(aabb.max_z()),
                    lo.z <= z <= hi.z,
                    lo.y <= y <= hi.y + 1,
                    forall|i: int|
                        0 <= i < results@.len() ==> chunk_in_range(aabb, (#[trigger] results@[i]).0) && results@[i].1
                            == chunk_slice(aabb, results@[i].0) && before(results@[i].0, lo.x as int, y as int, z as int),
                    forall|i: int, j: int| 0 <= i < j < results@.len() ==> (#[trigger] results@[i]).0 != (#[trigger] results@[j]).0,
                forall|i: int, j: int| 0 <= i < j < results@.len() ==> before((#[trigger] results@[i]).0, (#[trigger] results@[j]).0.x as int, results@[j].0.y as int, results@[j].0.z as int),
                    forall|c: Point| #[trigger] chunk_in_range(aabb, c) && before(c, lo.x as int, y as int, z as int) ==> exists|i: int| 0 <= i < results@.len() && (#[trigger] results@[i]).0 == c,
                decreases hi.y + 1 - y,
            {
                let mut x = lo.x;
                let ghost y0 = y;
                while x <= hi.x
                    invariant
                        z == z0,
                        y == y0,
                        box_in_map(aabb),
                        lo.x == chunk_index(aabb.min_x()) && lo.y == chunk_index(aabb.min_y()) && lo.z == chunk_index(aabb.min_z()),
                        hi.x == chunk_index(aabb.max_x()) && hi.y == chunk_index(aabb.max_y()) && hi.z == chunk_index(aabb.max_z()),
                        lo.z <= z <= hi.z,
                        lo.y <= y <= hi.y,
                        lo.x <= x <= hi.x + 1,
                        forall|i: int|
                            0 <= i < results@.len() ==> chunk_in_range(aabb, (#[trigger] results@[i]).0) && results@[i].1
                                == chunk_slice(aabb, results@[i].0) && before(results@[i].0, x as int, y as int, z as int),
                        forall|i: int, j: int| 0 <= i < j < results@.len() ==> (#[trigger] results@[i]).0 != (#[trigger] results@[j]).0,
                forall|i: int, j: int| 0 <= i < j < results@.len() ==> before((#[trigger] results@[i]).0, (#[trigger] results@[j]).0.x as int, results@[j].0.y as int, results@[j].0.z as int),
                        forall|c: Point| #[trigger] chunk_in_range(aabb, c) && before(c, x as int, y as int, z as int) ==> exists|i: int| 0 <= i < results@.len() && (#[trigger] results@[i]).0 == c,
                    decreases hi.x + 1 - x,
                {
                    let c = Point::new(x, y, z);
                    proof {
                        assert(chunk_in_range(aabb, c));
                        LevelMap::lemma_chunk_meets(aabb, c);
                    }
                    let cmin = Point::new(x * CHUNK_SIDE, y * CHUNK_SIDE, z * CHUNK_SIDE);
                    let cmax = Point::new(cmin.x + (CHUNK_SIDE - 1), cmin.y + (CHUNK_SIDE - 1), cmin.z + (CHUNK_SIDE - 1));
                    let chunk = AABB::from_extents(cmin, cmax);
                    let slice = chunk.get_intersection(aabb);
                    let ghost prev = results@;
                    results.push((c, slice));
                    proof {
                        assert forall|i: int, j: int| 0 <= i < j < results@.len() implies before((#[trigger] results@[i]).0, (#[trigger] results@[j]).0.x as int, results@[j].0.y as int, results@[j].0.z as int) by {
                            if j == prev.len() {
                                assert(before(prev[i].0, x as int, y as int, z as int));
                            } else {
                                assert(results@[i] == prev[i] && results@[j] == prev[j]);
                            }
                        }
                        assert forall|i: int| 0 <= i < prev.len() implies (#[trigger] prev[i]).0 != c by {
                            assert(before(prev[i].0, x as int, y as int, z as int));
                        }
                        assert forall|c2: Point| #[trigger] chunk_in_range(aabb, c2) && before(c2, x + 1, y as int, z as int) implies exists|i: int| 0 <= i < results@.len() && (#[trigger] results@[i]).0 == c2 by {
                            if c2 == c {
                                assert(results@[prev.len() as int].0 == c2);
                            } else {
                                assert(before(c2, x as int, y as int, z as int));
                                let i = choose|i: int| 0 <= i < prev.len() && (#[trigger] prev[i]).0 == c2;
                                assert(results@[i] == prev[i]);
                            }
                        }
                    }
                    x += 1;
                }
                proof {
                    assert forall|c2: Point| #[trigger] chunk_in_range(aabb, c2) && before(c2, lo.x as int, y + 1, z as int) implies exists|i: int| 0 <= i < results@.len() && (#[trigger] results@[i]).0 == c2 by {
                        assert(before(c2, x as int, y as int, z as int));
                    }
                }
                y += 1;
            }
            proof {
                assert forall|c2: Point| #[trigger] chunk_in_range(aabb, c2) && before(c2, lo.x as int, lo.y as int, z + 1) implies exists|i: int| 0 <= i < results@.len() && (#[trigger] results@[i]).0 == c2 by {
                    assert(before(c2, lo.x as int, y as int, z as int));
                }
            }
            z += 1;
        }
        proof {
            assert forall|c2: Point| #[trigger] chunk_in_range(aabb, c2) implies exists|i: int| 0 <= i < results@.len() && (#[trigger] results@[i]).0 == c2 by {
                assert(before(c2, lo.x as int, lo.y as int, z as int));
            }
        }
        results
    }
}

/// Why a change to the map was not made.
#[derive(Debug, Clone, Copy, PartialEq, Eq, Structural)]
pub enum ChangeError {
    /// The map already holds exactly the tiles of the change.
    AlreadyExists,
}

/// Whether two lists of tiles hold the same tiles.
pub fn same_tiles(a: &Vec<TileData>, b: &Vec<TileData>) -> (r: bool)
    ensures
        r == (forall|t: TileData| a@.contains(t) <==> b@.contains(t)),
{
    let ok_ab = all_within(a, b);
    if !ok_ab {
        return false;
    }
    let ok_ba = all_within(b, a);
    proof {
        if !ok_ba {
            let t = choose|t: TileData| b@.contains(t) && !a@.contains(t);
            assert(!(a@.contains(t) <==> b@.contains(t)));
        }
    }
    ok_ba
}

/// Whether every tile of `a` is in `b`.
fn all_within(a: &Vec<TileData>, b: &Vec<TileData>) -> (r: bool)
    ensures
        r == (forall|t: TileData| a@.contains(t) ==> b@.contains(t)),
{
    let n = a.len();
    let mut i: usize = 0;
    while i < n
        invariant
            n == a@.len(),
            i <= n,
            forall|k: int| 0 <= k < i ==> b@.contains(#[trigger] a@[k]),
        decreases n - i,
    {
        if !contains_tile(b, &a[i]) {
            proof {
                assert(a@.contains(a@[i as int]));
            }
            return false;
        }
        i += 1;
    }
    proof {
        assert forall|t: TileData| a@.contains(t) implies b@.contains(t) by {
            let k = choose|k: int| 0 <= k < a@.len() && a@[k] == t;
        }
    }
    true
}

/// Whether `t` is in `v`.
pub fn contains_tile(v: &Vec<TileData>, t: &TileData) -> (r: bool)
    ensures
        r == v@.contains(*t),
{
    let n = v.len();
    let mut i: usize = 0;
    while i < n
        invariant
            n == v@.len(),
            i <= n,
            forall|k: int| 0 <= k < i ==> v@[k] != *t,
        decreases n - i,
    {
        if v[i].point.same(&t.point) {
            proof {
                TileData::lemma_eq(v@[i as int], *t);
            }
            return true;
        }
        i += 1;
    }
    false
}

/// A tree over `aabb` holding a tile at every position of the box when `tile_data` is given,
/// and no tile otherwise; a filled tree holds as many tiles as the box has positions.
pub fn fill_octree_from_aabb(aabb: AABB, tile_data: Option<TileData>) -> (r: Octree)
    requires
        aabb.well_sized(),
    ensures
        r.wf(),
        r.spec_aabb() == aabb,
        r.spec_max_elements() == DEFAULT_MAX,
        forall|t: TileData|
            #[trigger] r@.contains(t) <==> (tile_data.is_some() && aabb.contains_spec(t.point)),
        r@.len() == (if tile_data.is_some() { aabb.volume() } else { 0 }),
{
    let mut octree = Octree::new(aabb, DEFAULT_MAX);
    if tile_data.is_none() {
        proof {
            octree.lemma_view_in_bounds();
            assert(octree@ =~= Set::<TileData>::empty());
        }
        return octree;
    }
    let min = aabb.get_min();
    let max = aabb.get_max();
    let ghost dx: int = max.x - min.x + 1;
    let ghost dy: int = max.y - min.y + 1;
    let ghost dz: int = max.z - min.z + 1;
    proof {
        octree.lemma_view_in_bounds();
        assert(octree@ =~= Set::<TileData>::empty());
    }
    let mut z = min.z;
    proof {
        assert(0 * dy * dx == 0) by (nonlinear_arith);
    }
    while z <= max.z
        invariant
            aabb.well_sized(),
            min.x == aabb.min_x() && min.y == aabb.min_y() && min.z == aabb.min_z(),
            max.x == aabb.max_x() && max.y == aabb.max_y() && max.z == aabb.max_z(),
            dx == max.x - min.x + 1 && dy == max.y - min.y + 1 && dz == max.z - min.z + 1,
            min.z <= z <= max.z + 1,
            octree.wf(),
            octree.spec_aabb() == aabb,
            octree.spec_max_elements() == DEFAULT_MAX,
            forall|t: TileData| #[trigger] octree@.contains(t) <==> (aabb.contains_spec(t.point) && before(t.point, min.x as int, min.y as int, z as int)),
            octree@.len() == (z - min.z) * dy * dx,
        decreases max.z + 1 - z,
    {
        let mut y = min.y;
        let ghost z0 = z;
        proof {
            let a: int = z - min.z;
            assert(a * dy * dx == (a * dy + 0) * dx);
        }
        while y <= max.y
            invariant
                z == z0,
                aabb.well_sized(),
                min.x == aabb.min_x() && min.y == aabb.min_y() && min.z == aabb.min_z(),
                max.x == aabb.max_x() && max.y == aabb.max_y() && max.z == aabb.max_z(),
                dx == max.x - min.x + 1 && dy == max.y - min.y + 1 && dz == max.z - min.z + 1,
                min.z <= z <= max.z,
                min.y <= y <= max.y + 1,
                octree.wf(),
                octree.spec_aabb() == aabb,
                octree.spec_max_elements() == DEFAULT_MAX,
                forall|t: TileData| #[trigger] octree@.contains(t) <==> (aabb.contains_spec(t.point) && before(t.point, min.x as int, y as int, z as int)),
                octree@.len() == ((z - min.z) * dy + (y - min.y)) * dx,
            decreases max.y + 1 - y,
        {
            let mut x = min.x;
            let ghost y0 = y;
            while x <= max.x
                invariant
                    z == z0,
                    y == y0,
                    aabb.well_sized(),
                    min.x == aabb.min_x() && min.y == aabb.min_y() && min.z == aabb.min_z(),
                    max.x == aabb.max_x() && max.y == aabb.max_y() && max.z == aabb.max_z(),
                    dx == max.x - min.x + 1 && dy == max.y - min.y + 1 && dz == max.z - min.z + 1,
                    min.z <= z <= max.z,
                    min.y <= y <= max.y,
                    min.x <= x <= max.x + 1,
                    octree.wf(),
                    octree.spec_aabb() == aabb,
                    octree.spec_max_elements() == DEFAULT_MAX,
                    forall|t: TileData| #[trigger] octree@.contains(t) <==> (aabb.contains_spec(t.point) && before(t.point, x as int, y as int, z as int)),
                    octree@.len() == ((z - min.z) * dy + (y - min.y)) * dx + (x - min.x),
                decreases max.x + 1 - x,
            {
                let tile = TileData::new(Point::new(x, y, z));
                proof {
                    octree.lemma_view_in_bounds();
                    assert(!octree@.contains(tile));
                }
                let res = octree.insert(tile);
                proof {
                    assert(aabb.contains_spec(tile.point));
                    assert(res.is_ok());
                    assert forall|t: TileData| #[trigger] octree@.contains(t) <==> (aabb.contains_spec(t.point) && before(t.point, x + 1, y as int, z as int)) by {
                        if t.point == tile.point {
                            TileData::lemma_eq(t, tile);
                        }
                    }
                }
                x += 1;
            }
            proof {
                let b: int = (z - min.z) * dy + (y - min.y);
                assert(b * dx + dx == (b + 1) * dx) by (nonlinear_arith);
            }
            y += 1;
        }
        proof {
            let a: int = z - min.z;
            assert((a * dy + dy) * dx == (a + 1) * dy * dx) by (nonlinear_arith);
        }
        z += 1;
    }
    proof {
        assert(dz * dy * dx == dx * dy * dz) by (nonlinear_arith);
    }
    octree
}

impl LevelMap {
    /// Whether chunk `c` is one of the chunks the box overlaps.
    fn chunk_in_range_exec(range: &AABB, c: Point) -> (r: bool)
        requires
            range.well_sized(),
        ensures
            r == chunk_in_range(*range, c),
    {
        let min = range.get_min();
        let max = range.get_max();
        floor_div(min.x, CHUNK_SIDE) <= c.x && c.x <= floor_div(max.x, CHUNK_SIDE)
            && floor_div(min.y, CHUNK_SIDE) <= c.y && c.y <= floor_div(max.y, CHUNK_SIDE)
            && floor_div(min.z, CHUNK_SIDE) <= c.z && c.z <= floor_div(max.z, CHUNK_SIDE)
    }

    /// Positions in `map_datas` of the chunks whose chunk point lies in the chunk range of
    /// `range`, each once, in the order of `map_datas`.
    pub fn chunks_in_range<E>(&self, map_datas: &Vec<(E, MapChunkData, Point)>, range: AABB) -> (r: Vec<usize>)
        requires
            self.wf(),
            range.well_sized(),
        ensures
            r@.no_duplicates(),
            forall|k: usize| #[trigger] r@.contains(k) <==> (k < map_datas@.len() && chunk_in_range(range, map_datas@[k as int].2)),
    {
        let mut results: Vec<usize> = Vec::new();
        let n = map_datas.len();
        let mut k: usize = 0;
        while k < n
            invariant
                n == map_datas@.len(),
                k <= n,
                range.well_sized(),
                results@.no_duplicates(),
                forall|j: int| 0 <= j < results@.len() ==> #[trigger] results@[j] < k,
                forall|i: usize| #[trigger] results@.contains(i) <==> (i < k && chunk_in_range(range, map_datas@[i as int].2)),
            decreases n - k,
        {
            if LevelMap::chunk_in_range_exec(&range, map_datas[k].2) {
                let ghost prev = results@;
                results.push(k);
                proof {
                    assert forall|a: int, b: int| 0 <= a < b < results@.len() implies results@[a] != results@[b] by {
                        if b == prev.len() {
                            assert(prev[a] < k);
                        }
                    }
                    assert forall|i: usize| #[trigger] results@.contains(i) <==> (i < k + 1 && chunk_in_range(range, map_datas@[i as int].2)) by {
                        if i == k {
                            assert(results@[prev.len() as int] == k);
                        }
                        if results@.contains(i) && i != k {
                            let a = choose|a: int| 0 <= a < results@.len() && results@[a] == i;
                            assert(prev[a] == i);
                            assert(prev.contains(i));
                        }
                        if i < k && chunk_in_range(range, map_datas@[i as int].2) {
                            assert(prev.contains(i));
                            let a = choose|a: int| 0 <= a < prev.len() && prev[a] == i;
                            assert(results@[a] == i);
                        }
                    }
                }
            } else {
                proof {
                    assert forall|i: usize| #[trigger] results@.contains(i) <==> (i < k + 1 && chunk_in_range(range, map_datas@[i as int].2)) by {
                        if results@.contains(i) {
                            let a = choose|a: int| 0 <= a < results@.len() && results@[a] == i;
                        }
                    }
                }
            }
            k += 1;
        }
        results
    }

    /// The tiles inside `range` of every chunk that `range` overlaps.
    pub fn query_chunk_range<E>(&self, map_datas: &Vec<(E, MapChunkData, Point)>, range: AABB) -> (r: Vec<TileData>)
        requires
            self.wf(),
            range.well_sized(),
            forall|k: int| 0 <= k < map_datas@.len() ==> (#[trigger] map_datas@[k]).1.octree.wf(),
        ensures
            forall|t: TileData| #[trigger] r@.contains(t) <==> (range.contains_spec(t.point) && exists|k: int|
                0 <= k < map_datas@.len() && chunk_in_range(range, (#[trigger] map_datas@[k]).2)
                    && map_datas@[k].1.octree@.contains(t)),
    {
        let chunks = self.chunks_in_range(map_datas, range);
        let mut results: Vec<TileData> = Vec::new();
        let n = chunks.len();
        let mut i: usize = 0;
        while i < n
            invariant
                n == chunks@.len(),
                i <= n,
                range.well_sized(),
                forall|k: int| 0 <= k < map_datas@.len() ==> (#[trigger] map_datas@[k]).1.octree.wf(),
                forall|k: usize| #[trigger] chunks@.contains(k) <==> (k < map_datas@.len() && chunk_in_range(range, map_datas@[k as int].2)),
                forall|t: TileData| #[trigger] results@.contains(t) <==> (range.contains_spec(t.point) && exists|a: int|
                    0 <= a < i && map_datas@[chunks@[a] as int].1.octree@.contains(t)),
            decreases n - i,
        {
            let k = chunks[i];
            proof {
                assert(chunks@.contains(k));
            }
            let mut found = map_datas[k].1.octree.query_range(range);
            let ghost prev = results@;
            let ghost fv = found@;
            results.append(&mut found);
            proof {
                assert forall|t: TileData| #[trigger] results@.contains(t) <==> (range.contains_spec(t.point) && exists|a: int|
                    0 <= a < i + 1 && map_datas@[chunks@[a] as int].1.octree@.contains(t)) by {
                    assert(results@ == prev + fv);
                    crate::octree::lemma_seq_concat_contains(prev, fv, t);
                    if fv.contains(t) {
                        assert(map_datas@[chunks@[i as int] as int].1.octree@.contains(t));
                    }
                    if exists|a: int| 0 <= a < i + 1 && map_datas@[chunks@[a] as int].1.octree@.contains(t) {
                        let a = choose|a: int| 0 <= a < i + 1 && map_datas@[chunks@[a] as int].1.octree@.contains(t);
                        if a < i {
                            assert(exists|b: int| 0 <= b < i && map_datas@[chunks@[b] as int].1.octree@.contains(t));
                        }
                    }
                }
            }
            i += 1;
        }
        proof {
            assert forall|t: TileData| #[trigger] results@.contains(t) <==> (range.contains_spec(t.point) && exists|k: int|
                0 <= k < map_datas@.len() && chunk_in_range(range, (#[trigger] map_datas@[k]).2)
                    && map_datas@[k].1.octree@.contains(t)) by {
                if exists|a: int| 0 <= a < n && map_datas@[chunks@[a] as int].1.octree@.contains(t) {
                    let a = choose|a: int| 0 <= a < n && map_datas@[chunks@[a] as int].1.octree@.contains(t);
                    assert(chunks@.contains(chunks@[a]));
                    let k = chunks@[a] as int;
                    assert(chunk_in_range(range, map_datas@[k].2));
                }
                if exists|k: int| 0 <= k < map_datas@.len() && chunk_in_range(range, (#[trigger] map_datas@[k]).2)
                    && map_datas@[k].1.octree@.contains(t) {
                    let k = choose|k: int| 0 <= k < map_datas@.len() && chunk_in_range(range, (#[trigger] map_datas@[k]).2)
                        && map_datas@[k].1.octree@.contains(t);
                    let ku = k as usize;
                    assert(map_datas.len() == map_datas@.len());
                    assert(ku as int == k);
                    assert(chunks@.contains(ku));
                    let a = choose|a: int| 0 <= a < chunks@.len() && chunks@[a] == ku;
                    assert(map_datas@[chunks@[a] as int] == map_datas@[k]);
                    assert(map_datas@[chunks@[a] as int].1.octree@.contains(t));
                    assert(i == n);
                }
            }
        }
        results
    }
}

/// Tile `t` lies inside `range` and in one of the chunks of `map_datas` that `range` overlaps.
pub open spec fn existing_tile<E>(map_datas: Seq<(E, MapChunkData, Point)>, range: AABB, t: TileData) -> bool {
    range.contains_spec(t.point) && exists|k: int|
        0 <= k < map_datas.len() && chunk_in_range(range, (#[trigger] map_datas[k]).2)
            && map_datas[k].1.octree@.contains(t)
}

impl LevelMap {
    /// Compares a proposed change with what the map holds over the change's box. When they
    /// differ, returns the map's current tiles over that box (to undo the change) beside the
    /// change itself (to redo it); when they agree, there is nothing to change.
    pub fn can_change<E>(&self, map_datas: &Vec<(E, MapChunkData, Point)>, octree: Octree) -> (r: Result<(Octree, Octree), ChangeError>)
        requires
            self.wf(),
            octree.wf(),
            forall|k: int| 0 <= k < map_datas@.len() ==> (#[trigger] map_datas@[k]).1.octree.wf(),
        ensures
            r.is_ok() <==> !(forall|t: TileData| existing_tile(map_datas@, octree.spec_aabb(), t) <==> octree@.contains(t)),
            r matches Ok((undo, redo)) ==> {
                &&& undo.wf()
                &&& undo.spec_aabb() == octree.spec_aabb()
                &&& undo.spec_max_elements() == DEFAULT_MAX
                &&& (forall|t: TileData| #[trigger] undo@.contains(t) <==> existing_tile(map_datas@, octree.spec_aabb(), t))
                &&& redo == octree
            },
            r matches Err(e) ==> e == ChangeError::AlreadyExists,
    {
        proof {
            octree.lemma_view_in_bounds();
        }
        let aabb = octree.get_aabb();
        let existing_data = self.query_chunk_range(map_datas, aabb);
        let mut existing_octree = Octree::new(aabb, DEFAULT_MAX);
        let n = existing_data.len();
        let mut i: usize = 0;
        while i < n
            invariant
                n == existing_data@.len(),
                i <= n,
                aabb.well_sized(),
                existing_octree.wf(),
                existing_octree.spec_aabb() == aabb,
                existing_octree.spec_max_elements() == DEFAULT_MAX,
                forall|t: TileData| #[trigger] existing_data@.contains(t) ==> aabb.contains_spec(t.point),
                forall|t: TileData| #[trigger] existing_octree@.contains(t) <==> existing_data@.subrange(0, i as int).contains(t),
            decreases n - i,
        {
            let t = existing_data[i];
            proof {
                assert(existing_data@.contains(t));
            }
            let _ = existing_octree.insert(t);
            proof {
                assert(existing_data@.subrange(0, i + 1) =~= existing_data@.subrange(0, i as int).push(t));
                assert forall|u: TileData| #[trigger] existing_octree@.contains(u) <==> existing_data@.subrange(0, i + 1).contains(u) by {
                    crate::octree::lemma_seq_concat_contains(existing_data@.subrange(0, i as int), seq![t], u);
                    assert(existing_data@.subrange(0, i as int).push(t) =~= existing_data@.subrange(0, i as int) + seq![t]);
                    if u == t {
                        assert(seq![t][0] == t);
                    }
                }
            }
            i += 1;
        }
        proof {
            assert(existing_data@.subrange(0, n as int) =~= existing_data@);
            existing_octree.lemma_view_in_bounds();
        }
        let current = existing_octree.query_range(aabb);
        let proposed = octree.query_range(aabb);
        if same_tiles(&current, &proposed) {
            return Err(ChangeError::AlreadyExists);
        }
        Ok((existing_octree, octree))
    }
}

impl MapChunkData {
    /// Makes the chunk agree with `octree` wherever the two boxes overlap, leaving the rest of
    /// the chunk as it was. Returns whether anything had to change.
    pub fn apply_change(&mut self, octree: &Octree) -> (changed: bool)
        requires
            old(self).octree.wf(),
            old(self).octree.spec_max_elements() > 0,
            octree.wf(),
            AABB::extents_ok(
                octree.spec_aabb().meet_min(old(self).octree.spec_aabb()),
                octree.spec_aabb().meet_max(old(self).octree.spec_aabb()),
            ),
            octree.spec_aabb().meet_min(old(self).octree.spec_aabb()).x <= octree.spec_aabb().meet_max(old(self).octree.spec_aabb()).x + 1,
            octree.spec_aabb().meet_min(old(self).octree.spec_aabb()).y <= octree.spec_aabb().meet_max(old(self).octree.spec_aabb()).y + 1,
            octree.spec_aabb().meet_min(old(self).octree.spec_aabb()).z <= octree.spec_aabb().meet_max(old(self).octree.spec_aabb()).z + 1,
            octree.spec_aabb().meet_max(old(self).octree.spec_aabb()).x < i32::MAX,
            octree.spec_aabb().meet_max(old(self).octree.spec_aabb()).y < i32::MAX,
            octree.spec_aabb().meet_max(old(self).octree.spec_aabb()).z < i32::MAX,
        ensures
            final(self).octree.wf(),
            final(self).octree.spec_aabb() == old(self).octree.spec_aabb(),
            final(self).octree.spec_max_elements() == old(self).octree.spec_max_elements(),
            changed == !(forall|t: TileData|
                (octree.spec_aabb().contains_spec(t.point) && old(self).octree.spec_aabb().contains_spec(t.point))
                    ==> (#[trigger] old(self).octree@.contains(t) <==> octree@.contains(t))),
            forall|t: TileData| #[trigger] final(self).octree@.contains(t) <==> (
                if octree.spec_aabb().contains_spec(t.point) && old(self).octree.spec_aabb().contains_spec(t.point) {
                    octree@.contains(t)
                } else {
                    old(self).octree@.contains(t)
                }),
    {
        let ghost before = self.octree@;
        proof {
            self.octree.lemma_view_in_bounds();
            octree.lemma_view_in_bounds();
        }
        let map_aabb = self.octree.get_aabb();
        let aabb = octree.get_aabb();
        let overlap = aabb.get_intersection(map_aabb);
        proof {
            assert forall|p: Point| overlap.contains_spec(p) <==> (aabb.contains_spec(p) && map_aabb.contains_spec(p)) by {
                crate::aabb::lemma_intersection_contains(aabb, map_aabb, p);
            }
            crate::aabb::lemma_intersection_contains(aabb, map_aabb, Point { x: 0, y: 0, z: 0 });
        }
        let map_q = self.octree.query_range(overlap);
        let input_q = octree.query_range(overlap);
        if same_tiles(&input_q, &map_q) {
            proof {
                assert forall|t: TileData|
                    (aabb.contains_spec(t.point) && map_aabb.contains_spec(t.point))
                        implies (#[trigger] before.contains(t) <==> octree@.contains(t)) by {
                    assert(input_q@.contains(t) <==> map_q@.contains(t));
                }
            }
            return false;
        }
        let n = map_q.len();
        let mut i: usize = 0;
        while i < n
            invariant
                n == map_q@.len(),
                i <= n,
                self.octree.wf(),
                self.octree.spec_aabb() == map_aabb,
                self.octree.spec_max_elements() == old(self).octree.spec_max_elements(),
                forall|t: TileData| #[trigger] self.octree@.contains(t) <==> (before.contains(t)
                    && !(map_q@.subrange(0, i as int).contains(t) && !input_q@.contains(t))),
            decreases n - i,
        {
            let item = map_q[i];
            let gone = !contains_tile(&input_q, &item);
            if gone {
                self.octree.remove_item(&item);
            }
            proof {
                assert(map_q@.subrange(0, i + 1) =~= map_q@.subrange(0, i as int).push(item));
                assert forall|t: TileData| #[trigger] self.octree@.contains(t) <==> (before.contains(t)
                    && !(map_q@.subrange(0, i + 1).contains(t) && !input_q@.contains(t))) by {
                    crate::octree::lemma_seq_concat_contains(map_q@.subrange(0, i as int), seq![item], t);
                    assert(map_q@.subrange(0, i as int).push(item) =~= map_q@.subrange(0, i as int) + seq![item]);
                    if t == item {
                        assert(seq![item][0] == item);
                    }
                }
            }
            i += 1;
        }
        proof {
            assert(map_q@.subrange(0, n as int) =~= map_q@);
            assert(input_q@.subrange(0, 0) =~= Seq::<TileData>::empty());
        }
        let m = input_q.len();
        let mut j: usize = 0;
        while j < m
            invariant
                m == input_q@.len(),
                j <= m,
                overlap.well_sized(),
                forall|p: Point| overlap.contains_spec(p) ==> map_aabb.contains_spec(p),
                forall|t: TileData| #[trigger] input_q@.contains(t) ==> overlap.contains_spec(t.point),
                self.octree.wf(),
                self.octree.spec_aabb() == map_aabb,
                self.octree.spec_max_elements() == old(self).octree.spec_max_elements(),
                self.octree.spec_max_elements() > 0,
                forall|t: TileData| #[trigger] self.octree@.contains(t) <==> ((before.contains(t)
                    && !(map_q@.contains(t) && !input_q@.contains(t)))
                    || (input_q@.subrange(0, j as int).contains(t) && !map_q@.contains(t))),
            decreases m - j,
        {
            let item = input_q[j];
            proof {
                assert(input_q@.contains(item));
            }
            let fresh = !contains_tile(&map_q, &item);
            if fresh {
                let res = self.octree.insert(item);
                proof {
                    assert(res.is_ok());
                }
            }
            proof {
                assert(input_q@.subrange(0, j + 1) =~= input_q@.subrange(0, j as int).push(item));
                assert forall|t: TileData| #[trigger] self.octree@.contains(t) <==> ((before.contains(t)
                    && !(map_q@.contains(t) && !input_q@.contains(t)))
                    || (input_q@.subrange(0, j + 1).contains(t) && !map_q@.contains(t))) by {
                    crate::octree::lemma_seq_concat_contains(input_q@.subrange(0, j as int), seq![item], t);
                    assert(input_q@.subrange(0, j as int).push(item) =~= input_q@.subrange(0, j as int) + seq![item]);
                    if t == item {
                        assert(seq![item][0] == item);
                    }
                }
            }
            j += 1;
        }
        proof {
            assert(map_q@.subrange(0, n as int) =~= map_q@);
            assert(input_q@.subrange(0, m as int) =~= input_q@);
            assert forall|t: TileData| #[trigger] self.octree@.contains(t) <==> (
                if aabb.contains_spec(t.point) && map_aabb.contains_spec(t.point) {
                    octree@.contains(t)
                } else {
                    before.contains(t)
                }) by {
                if before.contains(t) {
                    assert(map_aabb.contains_spec(t.point));
                }
                if octree@.contains(t) {
                    assert(aabb.contains_spec(t.point));
                }
            }
            assert(!(forall|t: TileData| #[trigger] input_q@.contains(t) <==> map_q@.contains(t)));
            let w = choose|t: TileData| !(#[trigger] input_q@.contains(t) <==> map_q@.contains(t));
            assert(aabb.contains_spec(w.point) && map_aabb.contains_spec(w.point));
            assert(!(before.contains(w) <==> octree@.contains(w)));
        }
        true
    }
}


/// The box the map gives a chunk it creates at chunk point `c`: `c * side ..= c * side + side - 1`
/// along every axis, built from its center and size.
pub open spec fn new_chunk_box(c: Point) -> AABB {
    AABB {
        center: Point {
            x: (c.x * CHUNK_SIDE + CHUNK_SIDE / 2) as i32,
            y: (c.y * CHUNK_SIDE + CHUNK_SIDE / 2) as i32,
            z: (c.z * CHUNK_SIDE + CHUNK_SIDE / 2) as i32,
        },
        dimensions: Point { x: CHUNK_SIDE, y: CHUNK_SIDE, z: CHUNK_SIDE },
    }
}

/// A chunk point whose chunk box lies inside the range of `i32`.
pub open spec fn chunk_point_ok(c: Point) -> bool {
    &&& fits_i32(c.x * CHUNK_SIDE) && fits_i32(c.x * CHUNK_SIDE + CHUNK_SIDE)
    &&& fits_i32(c.y * CHUNK_SIDE) && fits_i32(c.y * CHUNK_SIDE + CHUNK_SIDE)
    &&& fits_i32(c.z * CHUNK_SIDE) && fits_i32(c.z * CHUNK_SIDE + CHUNK_SIDE)
}

/// The chunks of the map as the map keeps them: each a well formed tree over the box the map
/// gives its chunk point, and no two at the same chunk point.
pub open spec fn chunk_entries_ok<E>(ds: Seq<(E, MapChunkData, Point)>) -> bool {
    &&& forall|k: int|
        0 <= k < ds.len() ==> {
            &&& (#[trigger] ds[k]).1.octree.wf()
            &&& ds[k].1.octree.spec_max_elements() > 0
            &&& ds[k].1.octree.spec_aabb() == new_chunk_box(ds[k].2)
            &&& chunk_point_ok(ds[k].2)
        }
    &&& forall|j: int, k: int| 0 <= j < ds.len() && 0 <= k < ds.len() && j != k ==> (#[trigger] ds[j]).2 != (#[trigger] ds[k]).2
}

/// What a chunk over `chunk` holding `before` holds once the change `o` is written into it:
/// the change's tiles where the two boxes overlap, its own tiles elsewhere.
pub open spec fn written(before: Set<TileData>, chunk: AABB, o: Octree) -> Set<TileData> {
    Set::new(
        |t: TileData|
            if o.spec_aabb().contains_spec(t.point) && chunk.contains_spec(t.point) {
                o@.contains(t)
            } else {
                before.contains(t)
            },
    )
}

/// The chunk point whose chunk box holds `p`.
pub open spec fn chunk_of(p: Point) -> Point {
    Point {
        x: chunk_index(p.x as int) as i32,
        y: chunk_index(p.y as int) as i32,
        z: chunk_index(p.z as int) as i32,
    }
}

/// What a successful change did: the map's tiles over the change's box before it (to undo it),
/// the change itself (to redo it), and the positions of the chunks whose tiles it altered.
pub struct ChangeOutcome {
    pub undo: Octree,
    pub redo: Octree,
    pub changed: Vec<usize>,
}

proof fn lemma_axis_chunk(lo: int, hi: int, v: int)
    requires
        lo <= v <= hi,
    ensures
        chunk_index(lo) <= chunk_index(v) <= chunk_index(hi),
        chunk_index(v) * CHUNK_SIDE <= v <= chunk_index(v) * CHUNK_SIDE + CHUNK_SIDE - 1,
{
    vstd::arithmetic::div_mod::lemma_div_is_ordered(lo, v, CHUNK_SIDE as int);
    vstd::arithmetic::div_mod::lemma_div_is_ordered(v, hi, CHUNK_SIDE as int);
    vstd::arithmetic::div_mod::lemma_fundamental_div_mod(v, CHUNK_SIDE as int);
}

/// Every position of a box in the map lies in the box of a chunk that the box overlaps.
proof fn lemma_chunk_of_in_range(aabb: AABB, p: Point)
    requires
        box_in_map(aabb),
        aabb.contains_spec(p),
    ensures
        chunk_in_range(aabb, chunk_of(p)),
        chunk_point_ok(chunk_of(p)),
        new_chunk_box(chunk_of(p)).well_sized(),
        new_chunk_box(chunk_of(p)).contains_spec(p),
{
    lemma_axis_chunk(aabb.min_x(), aabb.max_x(), p.x as int);
    lemma_axis_chunk(aabb.min_y(), aabb.max_y(), p.y as int);
    lemma_axis_chunk(aabb.min_z(), aabb.max_z(), p.z as int);
}

/// The box of a chunk that a box in the map overlaps is well sized and meets that box.
proof fn lemma_new_chunk_box_meets(aabb: AABB, c: Point)
    requires
        box_in_map(aabb),
        chunk_in_range(aabb, c),
    ensures
        chunk_point_ok(c),
        new_chunk_box(c).well_sized(),
        new_chunk_box(c).min_x() == c.x * CHUNK_SIDE && new_chunk_box(c).max_x() == c.x * CHUNK_SIDE + CHUNK_SIDE - 1,
        new_chunk_box(c).min_y() == c.y * CHUNK_SIDE && new_chunk_box(c).max_y() == c.y * CHUNK_SIDE + CHUNK_SIDE - 1,
        new_chunk_box(c).min_z() == c.z * CHUNK_SIDE && new_chunk_box(c).max_z() == c.z * CHUNK_SIDE + CHUNK_SIDE - 1,
        aabb.meet_min(new_chunk_box(c)).x <= aabb.meet_max(new_chunk_box(c)).x + 1,
        aabb.meet_min(new_chunk_box(c)).y <= aabb.meet_max(new_chunk_box(c)).y + 1,
        aabb.meet_min(new_chunk_box(c)).z <= aabb.meet_max(new_chunk_box(c)).z + 1,
        AABB::extents_ok(aabb.meet_min(new_chunk_box(c)), aabb.meet_max(new_chunk_box(c))),
        aabb.meet_max(new_chunk_box(c)).x < i32::MAX,
        aabb.meet_max(new_chunk_box(c)).y < i32::MAX,
        aabb.meet_max(new_chunk_box(c)).z < i32::MAX,
{
    LevelMap::lemma_axis_meet(aabb.min_x(), aabb.max_x(), c.x as int);
    LevelMap::lemma_axis_meet(aabb.min_y(), aabb.max_y(), c.y as int);
    LevelMap::lemma_axis_meet(aabb.min_z(), aabb.max_z(), c.z as int);
    vstd::arithmetic::div_mod::lemma_fundamental_div_mod(aabb.min_x(), CHUNK_SIDE as int);
    vstd::arithmetic::div_mod::lemma_fundamental_div_mod(aabb.max_x(), CHUNK_SIDE as int);
    vstd::arithmetic::div_mod::lemma_fundamental_div_mod(aabb.min_y(), CHUNK_SIDE as int);
    vstd::arithmetic::div_mod::lemma_fundamental_div_mod(aabb.max_y(), CHUNK_SIDE as int);
    vstd::arithmetic::div_mod::lemma_fundamental_div_mod(aabb.min_z(), CHUNK_SIDE as int);
    vstd::arithmetic::div_mod::lemma_fundamental_div_mod(aabb.max_z(), CHUNK_SIDE as int);
}

/// Writing a change into a chunk alters it exactly where the two disagree over their overlap.
proof fn lemma_written_changes(before: Set<TileData>, chunk: AABB, o: Octree)
    ensures
        (written(before, chunk, o) == before) <==> (forall|t: TileData|
            (o.spec_aabb().contains_spec(t.point) && chunk.contains_spec(t.point)) ==> (#[trigger] before.contains(t) <==> o@.contains(t))),
{
    if written(before, chunk, o) == before {
        assert forall|t: TileData|
            (o.spec_aabb().contains_spec(t.point) && chunk.contains_spec(t.point)) implies (#[trigger] before.contains(t) <==> o@.contains(t)) by {
            assert(written(before, chunk, o).contains(t) == before.contains(t));
        }
    }
    if forall|t: TileData|
        (o.spec_aabb().contains_spec(t.point) && chunk.contains_spec(t.point)) ==> (#[trigger] before.contains(t) <==> o@.contains(t)) {
        assert(written(before, chunk, o) =~= before);
    }
}

impl LevelMap {
    /// A new, empty chunk at chunk point `pt`.
    fn new_chunk(&self, pt: Point) -> (r: MapChunkData)
        requires
            self.wf(),
            chunk_point_ok(pt),
        ensures
            r.octree.wf(),
            r.octree@ == Set::<TileData>::empty(),
            r.octree.spec_aabb() == new_chunk_box(pt),
            r.octree.spec_max_elements() == DEFAULT_MAX,
    {
        let d = self.chunk_dimensions;
        assert(new_chunk_box(pt).well_sized());
        let center = Point::new(pt.x * d.x + d.x / 2, pt.y * d.y + d.y / 2, pt.z * d.z + d.z / 2);
        MapChunkData { octree: Octree::new(AABB::new(center, d), DEFAULT_MAX) }
    }
}


/// Chunk point `c` is among the first `n` chunk points of `slices`.
pub open spec fn sliced_before(slices: Seq<(Point, AABB)>, n: int, c: Point) -> bool {
    exists|j: int| 0 <= j < n && (#[trigger] slices[j]).0 == c
}

/// What entry `k` held before a change: its own tiles for an entry that was there, nothing for
/// one the change created.
pub open spec fn prior_content<E>(before: Seq<(E, MapChunkData, Point)>, k: int) -> Set<TileData> {
    if k < before.len() {
        before[k].1.octree@
    } else {
        Set::empty()
    }
}

/// The chunks after a change over `range` relate to those before it: entries that were there
/// keep their place, chunk point and box, and those the change reached hold what was written
/// into them; the entries added at the end are new chunks over the change's range, holding what
/// was written into an empty chunk.
pub open spec fn changed_entries<E>(
    before: Seq<(Option<E>, MapChunkData, Point)>,
    after: Seq<(Option<E>, MapChunkData, Point)>,
    range: AABB,
    o: Octree,
) -> bool {
    &&& after.len() >= before.len()
    &&& forall|k: int|
        0 <= k < before.len() ==> {
            &&& (#[trigger] after[k]).0 == before[k].0
            &&& after[k].2 == before[k].2
            &&& after[k].1.octree.spec_aabb() == before[k].1.octree.spec_aabb()
            &&& after[k].1.octree@ == (if chunk_in_range(range, before[k].2) {
                written(before[k].1.octree@, before[k].1.octree.spec_aabb(), o)
            } else {
                before[k].1.octree@
            })
        }
    &&& forall|k: int|
        before.len() <= k < after.len() ==> {
            &&& (#[trigger] after[k]).0.is_none()
            &&& chunk_in_range(range, after[k].2)
            &&& after[k].1.octree@ == written(Set::empty(), new_chunk_box(after[k].2), o)
            &&& forall|j: int| 0 <= j < before.len() ==> (#[trigger] before[j]).2 != after[k].2
        }
}

impl LevelMap {
    /// Writes the tiles of `octree` into the map over the octree's box: every chunk that the box
    /// overlaps (created, empty, where the map has none yet) takes the octree's tiles over the
    /// part of its box inside the octree's box. Refused when the map already holds exactly the
    /// octree's tiles over its box. On success, returns the map's former tiles over the box and
    /// the octree (to undo and redo the change) and the positions of the chunks it altered; new
    /// chunks come at the end of `map_datas`, with no entity yet. Afterwards the map holds,
    /// over the octree's box, exactly the octree's tiles.
    #[verifier::rlimit(40)]
    pub fn change<E>(&self, map_datas: &mut Vec<(Option<E>, MapChunkData, Point)>, octree: Octree) -> (r: Result<ChangeOutcome, ChangeError>)
        requires
            self.wf(),
            octree.wf(),
            box_in_map(octree.spec_aabb()),
            chunk_entries_ok(old(map_datas)@),
        ensures
            r.is_ok() <==> !(forall|t: TileData|
                existing_tile(old(map_datas)@, octree.spec_aabb(), t) <==> octree@.contains(t)),
            r is Err ==> final(map_datas)@ == old(map_datas)@ && r == Err::<ChangeOutcome, ChangeError>(ChangeError::AlreadyExists),
            r matches Ok(out) ==> {
                &&& out.redo == octree
                &&& out.undo.wf()
                &&& out.undo.spec_aabb() == octree.spec_aabb()
                &&& (forall|t: TileData| #[trigger] out.undo@.contains(t) <==> existing_tile(old(map_datas)@, octree.spec_aabb(), t))
                &&& chunk_entries_ok(final(map_datas)@)
                &&& changed_entries(old(map_datas)@, final(map_datas)@, octree.spec_aabb(), octree)
                &&& (forall|c: Point| #[trigger] chunk_in_range(octree.spec_aabb(), c) ==> exists|k: int|
                    0 <= k < final(map_datas)@.len() && (#[trigger] final(map_datas)@[k]).2 == c)
                &&& (forall|k: usize| #[trigger] out.changed@.contains(k) <==> (k < final(map_datas)@.len()
                    && chunk_in_range(octree.spec_aabb(), final(map_datas)@[k as int].2)
                    && final(map_datas)@[k as int].1.octree@ != prior_content(old(map_datas)@, k as int)))
                &&& (forall|t: TileData| octree.spec_aabb().contains_spec(t.point) ==>
                    (#[trigger] existing_tile(final(map_datas)@, octree.spec_aabb(), t) <==> octree@.contains(t)))
            },
    {
        let ghost before = map_datas@;
        proof {
            assert forall|k: int| 0 <= k < map_datas@.len() implies (#[trigger] map_datas@[k]).1.octree.wf() by {}
        }
        let (undo, redo) = match self.can_change(map_datas, octree) {
            Ok(pair) => pair,
            Err(e) => {
                return Err(e);
            },
        };
        let aabb = redo.get_aabb();
        let slices = self.range_sliced_to_chunks(aabb);
        let mut changed: Vec<usize> = Vec::new();
        let n = slices.len();
        let mut i: usize = 0;
        while i < n
            invariant
                n == slices@.len(),
                i <= n,
                self.wf(),
                redo.wf(),
                aabb == redo.spec_aabb(),
                box_in_map(aabb),
                forall|j: int| 0 <= j < slices@.len() ==> chunk_in_range(aabb, (#[trigger] slices@[j]).0),
                forall|a: int, b: int| 0 <= a < b < slices@.len() ==> (#[trigger] slices@[a]).0 != (#[trigger] slices@[b]).0,
                forall|c: Point| #[trigger] chunk_in_range(aabb, c) ==> exists|j: int| 0 <= j < slices@.len() && (#[trigger] slices@[j]).0 == c,
                chunk_entries_ok(before),
                chunk_entries_ok(map_datas@),
                map_datas@.len() >= before.len(),
                forall|k: int|
                    0 <= k < before.len() ==> {
                        &&& (#[trigger] map_datas@[k]).0 == before[k].0
                        &&& map_datas@[k].2 == before[k].2
                        &&& map_datas@[k].1.octree.spec_aabb() == before[k].1.octree.spec_aabb()
                        &&& map_datas@[k].1.octree@ == (if sliced_before(slices@, i as int, before[k].2) {
                            written(before[k].1.octree@, before[k].1.octree.spec_aabb(), redo)
                        } else {
                            before[k].1.octree@
                        })
                    },
                forall|k: int|
                    before.len() <= k < map_datas@.len() ==> {
                        &&& (#[trigger] map_datas@[k]).0.is_none()
                        &&& sliced_before(slices@, i as int, map_datas@[k].2)
                        &&& chunk_in_range(aabb, map_datas@[k].2)
                        &&& map_datas@[k].1.octree@ == written(Set::empty(), new_chunk_box(map_datas@[k].2), redo)
                        &&& forall|j: int| 0 <= j < before.len() ==> (#[trigger] before[j]).2 != map_datas@[k].2
                    },
                forall|j: int| 0 <= j < i ==> exists|k: int| 0 <= k < map_datas@.len() && (#[trigger] map_datas@[k]).2 == (#[trigger] slices@[j]).0,
                forall|k: usize| #[trigger] changed@.contains(k) <==> (k < map_datas@.len()
                    && sliced_before(slices@, i as int, map_datas@[k as int].2)
                    && map_datas@[k as int].1.octree@ != prior_content(before, k as int)),
            decreases n - i,
        {
            let pt = slices[i].0;
            let ghost prev = map_datas@;
            proof {
                assert(chunk_in_range(aabb, slices@[i as int].0));
                lemma_new_chunk_box_meets(aabb, pt);
                assert(!sliced_before(slices@, i as int, pt)) by {
                    if sliced_before(slices@, i as int, pt) {
                        let j = choose|j: int| 0 <= j < i && (#[trigger] slices@[j]).0 == pt;
                        assert(slices@[j].0 != slices@[i as int].0);
                    }
                }
            }
            let idx: usize = match crate::mesh::find_chunk(map_datas, pt) {
                Some(k) => {
                    proof {
                        if k >= before.len() {
                            assert(sliced_before(slices@, i as int, map_datas@[k as int].2));
                        }
                    }
                    k
                },
                None => {
                    let md = self.new_chunk(pt);
                    map_datas.push((None, md, pt));
                    proof {
                        let last = (map_datas@.len() - 1) as int;
                        assert(map_datas@[last].2 == pt);
                        assert forall|j: int| 0 <= j < before.len() implies (#[trigger] before[j]).2 != pt by {
                            assert(prev[j].2 == before[j].2);
                        }
                    }
                    map_datas.len() - 1
                },
            };
            let ghost mid = map_datas@;
            proof {
                assert(mid[idx as int].2 == pt);
                assert(mid[idx as int].1.octree.spec_aabb() == new_chunk_box(pt));
                assert(mid[idx as int].1.octree@ == prior_content(before, idx as int)) by {
                    if (idx as int) < before.len() {
                        assert(mid[idx as int].2 == before[idx as int].2);
                    } else {
                        assert(mid[idx as int].1.octree@ =~= Set::<TileData>::empty());
                    }
                }
            }
            let (e, mut md, p) = map_datas.remove(idx);
            let did = md.apply_change(&redo);
            proof {
                assert(md.octree@ =~= written(prior_content(before, idx as int), new_chunk_box(pt), redo));
                lemma_written_changes(prior_content(before, idx as int), new_chunk_box(pt), redo);
            }
            map_datas.insert(idx, (e, md, p));
            proof {
                assert(map_datas@ =~= mid.update(idx as int, (e, md, p)));
            }
            let ghost old_changed = changed@;
            if did {
                changed.push(idx);
            }
            proof {
                assert forall|k: usize| #[trigger] changed@.contains(k) <==> (old_changed.contains(k) || (did && k == idx)) by {
                    if did {
                        assert(changed@ == old_changed.push(idx));
                        if changed@.contains(k) && k != idx {
                            let a = choose|a: int| 0 <= a < changed@.len() && changed@[a] == k;
                            assert(old_changed[a] == k);
                        }
                        if old_changed.contains(k) {
                            let a = choose|a: int| 0 <= a < old_changed.len() && old_changed[a] == k;
                            assert(changed@[a] == k);
                        }
                        if k == idx {
                            assert(changed@[old_changed.len() as int] == k);
                        }
                    }
                }
                assert(!old_changed.contains(idx)) by {
                    if old_changed.contains(idx) {
                        assert(sliced_before(slices@, i as int, prev[idx as int].2));
                    }
                }
                assert(did == (md.octree@ != prior_content(before, idx as int)));
                assert forall|c: Point| sliced_before(slices@, i + 1, c) <==> (sliced_before(slices@, i as int, c) || c == pt) by {
                    if sliced_before(slices@, i + 1, c) {
                        let j = choose|j: int| 0 <= j < i + 1 && (#[trigger] slices@[j]).0 == c;
                        if j < i {
                            assert(sliced_before(slices@, i as int, c));
                        }
                    }
                    if c == pt {
                        assert(slices@[i as int].0 == c);
                    }
                    if sliced_before(slices@, i as int, c) {
                        let j = choose|j: int| 0 <= j < i && (#[trigger] slices@[j]).0 == c;
                        assert(slices@[j].0 == c);
                    }
                }
                assert forall|j: int| 0 <= j < i + 1 implies exists|k: int| 0 <= k < map_datas@.len() && (#[trigger] map_datas@[k]).2 == (#[trigger] slices@[j]).0 by {
                    if j == i {
                        assert(map_datas@[idx as int].2 == slices@[j].0);
                    } else {
                        let k = choose|k: int| 0 <= k < prev.len() && (#[trigger] prev[k]).2 == slices@[j].0;
                        assert(mid[k].2 == prev[k].2);
                        assert(map_datas@[k].2 == slices@[j].0);
                    }
                }
                assert forall|k: usize| #[trigger] changed@.contains(k) <==> (k < map_datas@.len()
                    && sliced_before(slices@, i + 1, map_datas@[k as int].2)
                    && map_datas@[k as int].1.octree@ != prior_content(before, k as int)) by {
                    if k == idx {
                        assert(map_datas@[k as int].1.octree@ == md.octree@);
                        assert(sliced_before(slices@, i + 1, map_datas@[k as int].2));
                    } else if (k as int) < map_datas@.len() {
                        assert((k as int) < prev.len());
                        assert(map_datas@[k as int] == mid[k as int]);
                        if (k as int) < prev.len() {
                            assert(mid[k as int] == prev[k as int]);
                        }
                        if map_datas@[k as int].2 == pt {
                            assert(mid[k as int].2 == mid[idx as int].2);
                        }
                    }
                }
                assert(chunk_entries_ok(map_datas@)) by {
                    assert forall|a: int, b: int| 0 <= a < map_datas@.len() && 0 <= b < map_datas@.len() && a != b implies (#[trigger] map_datas@[a]).2 != (#[trigger] map_datas@[b]).2 by {
                        assert(mid[a].2 != mid[b].2);
                    }
                }
            }
            i += 1;
        }
        proof {
            assert forall|c: Point| sliced_before(slices@, n as int, c) <==> chunk_in_range(aabb, c) by {
                if chunk_in_range(aabb, c) {
                    let j = choose|j: int| 0 <= j < slices@.len() && (#[trigger] slices@[j]).0 == c;
                }
                if sliced_before(slices@, n as int, c) {
                    let j = choose|j: int| 0 <= j < n && (#[trigger] slices@[j]).0 == c;
                }
            }
            let fin = map_datas@;
            assert forall|k: int| 0 <= k < fin.len() && chunk_in_range(aabb, (#[trigger] fin[k]).2) implies
                fin[k].1.octree@ == written(prior_content(before, k), fin[k].1.octree.spec_aabb(), redo) by {
                if k >= before.len() {
                    assert(prior_content(before, k) == Set::<TileData>::empty());
                }
            }
            assert forall|t: TileData| aabb.contains_spec(t.point) implies
                (#[trigger] existing_tile(fin, aabb, t) <==> redo@.contains(t)) by {
                if existing_tile(fin, aabb, t) {
                    let k = choose|k: int| 0 <= k < fin.len() && chunk_in_range(aabb, (#[trigger] fin[k]).2) && fin[k].1.octree@.contains(t);
                    fin[k].1.octree.lemma_view_in_bounds();
                }
                if redo@.contains(t) {
                    lemma_chunk_of_in_range(aabb, t.point);
                    let c = chunk_of(t.point);
                    let j = choose|j: int| 0 <= j < slices@.len() && (#[trigger] slices@[j]).0 == c;
                    let k = choose|k: int| 0 <= k < fin.len() && (#[trigger] fin[k]).2 == slices@[j].0;
                    assert(fin[k].1.octree.spec_aabb() == new_chunk_box(c));
                    assert(fin[k].1.octree@.contains(t));
                }
            }
            assert forall|c: Point| #[trigger] chunk_in_range(aabb, c) implies exists|k: int| 0 <= k < fin.len() && (#[trigger] fin[k]).2 == c by {
                let j = choose|j: int| 0 <= j < slices@.len() && (#[trigger] slices@[j]).0 == c;
                let k = choose|k: int| 0 <= k < fin.len() && (#[trigger] fin[k]).2 == slices@[j].0;
            }
        }
        Ok(ChangeOutcome { undo, redo, changed })
    }
}


impl LevelMap {
    /// Writes the tiles of `octree` into the map as `change` does and, where `store_history`
    /// names a client, records the accepted change (the map's former tiles over the box, to
    /// undo it, and the octree, to redo it) as a step of the first history kept for that
    /// client. A refused change touches neither the map nor any history. Returns the positions
    /// of the chunks that the change altered.
    pub fn change_with_history<E>(
        &self,
        map_datas: &mut Vec<(Option<E>, MapChunkData, Point)>,
        histories: &mut Vec<(u32, History)>,
        octree: Octree,
        store_history: Option<u32>,
    ) -> (r: Result<Vec<usize>, ChangeError>)
        requires
            self.wf(),
            octree.wf(),
            box_in_map(octree.spec_aabb()),
            chunk_entries_ok(old(map_datas)@),
            forall|k: int| 0 <= k < old(histories)@.len() ==> (#[trigger] old(histories)@[k]).1.steps().len() < i32::MAX,
        ensures
            r.is_ok() <==> !(forall|t: TileData|
                existing_tile(old(map_datas)@, octree.spec_aabb(), t) <==> octree@.contains(t)),
            r is Err ==> {
                &&& final(map_datas)@ == old(map_datas)@
                &&& final(histories)@ == old(histories)@
                &&& r == Err::<Vec<usize>, ChangeError>(ChangeError::AlreadyExists)
            },
            r matches Ok(changed) ==> {
                &&& chunk_entries_ok(final(map_datas)@)
                &&& changed_entries(old(map_datas)@, final(map_datas)@, octree.spec_aabb(), octree)
                &&& (forall|c: Point| #[trigger] chunk_in_range(octree.spec_aabb(), c) ==> exists|k: int|
                    0 <= k < final(map_datas)@.len() && (#[trigger] final(map_datas)@[k]).2 == c)
                &&& (forall|k: usize| #[trigger] changed@.contains(k) <==> (k < final(map_datas)@.len()
                    && chunk_in_range(octree.spec_aabb(), final(map_datas)@[k as int].2)
                    && final(map_datas)@[k as int].1.octree@ != prior_content(old(map_datas)@, k as int)))
                &&& (forall|t: TileData| octree.spec_aabb().contains_spec(t.point) ==>
                    (#[trigger] existing_tile(final(map_datas)@, octree.spec_aabb(), t) <==> octree@.contains(t)))
                &&& match store_history {
                    None => final(histories)@ == old(histories)@,
                    Some(id) => exists|undo: Octree| {
                        &&& undo.wf()
                        &&& undo.spec_aabb() == octree.spec_aabb()
                        &&& (forall|t: TileData| #[trigger] undo@.contains(t) <==> existing_tile(old(map_datas)@, octree.spec_aabb(), t))
                        &&& #[trigger] recorded(old(histories)@, final(histories)@, id, StepType::MapChange((undo, octree)))
                    },
                }
            },
    {
        match self.change(map_datas, octree) {
            Err(e) => Err(e),
            Ok(out) => {
                let ChangeOutcome { undo, redo, changed } = out;
                match store_history {
                    Some(id) => {
                        let ghost u = undo;
                        let _ = record_change(histories, id, StepType::MapChange((undo, redo)));
                        assert(recorded(old(histories)@, histories@, id, StepType::MapChange((u, octree))));
                    },
                    None => {},
                }
                Ok(changed)
            },
        }
    }
}


/// Undoing a change restores the map: where a change over `o`'s box gave back the map's former
/// tiles over that box as `undo` (as `change` and `can_change` state), and writing `undo` back
/// left the map holding, over that box, exactly `undo`'s tiles (as `change` states on success,
/// and as its refusal states otherwise), the map holds over that box exactly the tiles it held
/// before the change.
pub proof fn lemma_undo_restores<E>(
    before: Seq<(Option<E>, MapChunkData, Point)>,
    restored: Seq<(Option<E>, MapChunkData, Point)>,
    o: Octree,
    undo: Octree,
)
    requires
        undo.spec_aabb() == o.spec_aabb(),
        forall|t: TileData| #[trigger] undo@.contains(t) <==> existing_tile(before, o.spec_aabb(), t),
        forall|t: TileData| undo.spec_aabb().contains_spec(t.point) ==>
            (#[trigger] existing_tile(restored, undo.spec_aabb(), t) <==> undo@.contains(t)),
    ensures
        forall|t: TileData| o.spec_aabb().contains_spec(t.point) ==>
            (#[trigger] existing_tile(restored, o.spec_aabb(), t) <==> existing_tile(before, o.spec_aabb(), t)),
{
}

} // verus!
