use vstd::prelude::*;
use crate::point::{Point, fits_i32};
use crate::aabb::AABB;
use crate::level_map::{TileData, MapChunkData, box_in_map, coord_in_map};

verus! {

/// `p` moved by the offset `d`.
pub open spec fn offset(p: Point, d: Point) -> Point {
    Point { x: (p.x + d.x) as i32, y: (p.y + d.y) as i32, z: (p.z + d.z) as i32 }
}

/// The `k`-th horizontal neighbour of a tile, as an offset: the four sides, then the
/// four corners.
pub open spec fn neighbor_dir(k: int) -> Point {
    if k == 0 {
        Point { x: 1, y: 0, z: 0 }
    } else if k == 1 {
        Point { x: -1i32, y: 0, z: 0 }
    } else if k == 2 {
        Point { x: 0, y: 0, z: 1 }
    } else if k == 3 {
        Point { x: 0, y: 0, z: -1i32 }
    } else if k == 4 {
        Point { x: 1, y: 0, z: 1 }
    } else if k == 5 {
        Point { x: -1i32, y: 0, z: 1 }
    } else if k == 6 {
        Point { x: -1i32, y: 0, z: -1i32 }
    } else {
        Point { x: 1, y: 0, z: -1i32 }
    }
}

/// The eight horizontal neighbours of a tile.
pub open spec fn neighbor_dirs_spec() -> Seq<Point> {
    Seq::new(8, |k: int| neighbor_dir(k))
}

proof fn lemma_neighbor_dirs_distinct()
    ensures
        forall|a: int, b: int|
            0 <= a < 8 && 0 <= b < 8 && a != b ==> #[trigger] neighbor_dir(a) != #[trigger] neighbor_dir(b),
{
}

/// The offsets of the eight horizontal neighbours of a tile.
pub fn neighbor_dirs() -> (r: Vec<Point>)
    ensures
        r@ == neighbor_dirs_spec(),
{
    let mut r: Vec<Point> = Vec::new();
    r.push(Point::new(1, 0, 0));
    r.push(Point::new(-1, 0, 0));
    r.push(Point::new(0, 0, 1));
    r.push(Point::new(0, 0, -1));
    r.push(Point::new(1, 0, 1));
    r.push(Point::new(-1, 0, 1));
    r.push(Point::new(-1, 0, -1));
    r.push(Point::new(1, 0, -1));
    assert(r@ =~= neighbor_dirs_spec());
    r
}

/// The chunk holds a tile at `p`.
pub open spec fn has_tile(md: MapChunkData, p: Point) -> bool {
    md.octree@.contains(TileData { point: p })
}

/// The chunk's row: the height of its lowest corner, measured in box heights.
pub open spec fn chunk_row(md: MapChunkData) -> int {
    md.octree.spec_aabb().min_y() / (md.octree.spec_aabb().dimensions.y as int)
}

/// The chunk index of the chunk's lowest corner, measured in box sizes along each axis.
pub open spec fn chunk_point_of(md: MapChunkData) -> Point {
    let b = md.octree.spec_aabb();
    Point {
        x: (b.min_x() / (b.dimensions.x as int)) as i32,
        y: chunk_row(md) as i32,
        z: (b.min_z() / (b.dimensions.z as int)) as i32,
    }
}

/// A chunk that a mesh can be built from: a well formed tree over a box of positive size
/// that lies well inside the range of `i32`.
pub open spec fn chunk_ready(md: MapChunkData) -> bool {
    &&& md.octree.wf()
    &&& box_in_map(md.octree.spec_aabb())
    &&& md.octree.spec_aabb().dimensions.x > 0
    &&& md.octree.spec_aabb().dimensions.y > 0
    &&& md.octree.spec_aabb().dimensions.z > 0
}

/// Every chunk of the list has a well formed tree.
pub open spec fn chunks_wf<E>(ds: Seq<(E, MapChunkData, Point)>) -> bool {
    forall|k: int| 0 <= k < ds.len() ==> (#[trigger] ds[k]).1.octree.wf()
}

/// Every chunk of the list is ready and is listed under the chunk point that its box gives.
pub open spec fn chunks_placed<E>(ds: Seq<(E, MapChunkData, Point)>) -> bool {
    forall|k: int|
        0 <= k < ds.len() ==> chunk_ready((#[trigger] ds[k]).1) && ds[k].2 == chunk_point_of(
            ds[k].1,
        )
}

/// `i` is the first entry of the list at chunk point `c`.
pub open spec fn first_at<E>(ds: Seq<(E, MapChunkData, Point)>, c: Point, i: int) -> bool {
    &&& 0 <= i < ds.len()
    &&& ds[i].2 == c
    &&& forall|j: int| 0 <= j < i ==> (#[trigger] ds[j]).2 != c
}

/// The first entry at chunk point `c` holds a tile at `p`.
pub open spec fn chunk_at_has_tile<E>(ds: Seq<(E, MapChunkData, Point)>, c: Point, p: Point) -> bool {
    exists|i: int| #[trigger] first_at(ds, c, i) && has_tile(ds[i].1, p)
}

/// The chunk point of the chunk beside `md` that holds `n`, a neighbour (offset `dir`) of one
/// of its tiles: along x and z one step toward `n` where `n` leaves the box, along y the
/// direction's own step.
pub open spec fn neighbor_chunk(md: MapChunkData, n: Point, dir: Point) -> Point {
    let b = md.octree.spec_aabb();
    let cp = chunk_point_of(md);
    let ax: int = if n.x > b.max_x() {
        1
    } else if n.x < b.min_x() {
        -1
    } else {
        0
    };
    let az: int = if n.z > b.max_z() {
        1
    } else if n.z < b.min_z() {
        -1
    } else {
        0
    };
    Point { x: (cp.x + ax) as i32, y: (cp.y + dir.y) as i32, z: (cp.z + az) as i32 }
}

/// The side of the tile at `point` that faces `dir` is open: its neighbour has not been dealt
/// with yet and holds no tile, neither in this chunk nor in the chunk beside it.
pub open spec fn side_open<E>(
    ds: Seq<(E, MapChunkData, Point)>,
    md: MapChunkData,
    point: Point,
    checked: Seq<Point>,
    dir: Point,
) -> bool {
    let n = offset(point, dir);
    &&& !checked.contains(n)
    &&& !has_tile(md, n)
    &&& (md.octree.spec_aabb().contains_spec(n) || !chunk_at_has_tile(
        ds,
        neighbor_chunk(md, n, dir),
        n,
    ))
}

proof fn lemma_div_toward_zero(a: int, d: int)
    requires
        d >= 1,
    ensures
        a >= 0 ==> 0 <= a / d <= a,
        a < 0 ==> a <= a / d < 0,
{
    vstd::arithmetic::div_mod::lemma_fundamental_div_mod(a, d);
    let q = a / d;
    let r = a % d;
    assert((a >= 0 ==> 0 <= q <= a) && (a < 0 ==> a <= q < 0)) by (nonlinear_arith)
        requires
            a == d * q + r,
            0 <= r < d,
            d >= 1,
    ;
}

proof fn lemma_min_inside(mn: int, mx: int)
    requires
        coord_in_map(mn),
        mn <= mx < i32::MAX,
    ensures
        i32::MIN < mn < i32::MAX,
{
    vstd::arithmetic::div_mod::lemma_fundamental_div_mod(mn, 10);
}

/// A step from the chunk point of a ready chunk stays inside the range of `i32`.
pub proof fn lemma_chunk_point_bounds(md: MapChunkData)
    requires
        chunk_ready(md),
    ensures
        i32::MIN < md.octree.spec_aabb().min_x() / (md.octree.spec_aabb().dimensions.x as int) < i32::MAX,
        i32::MIN < chunk_row(md) < i32::MAX,
        i32::MIN < md.octree.spec_aabb().min_z() / (md.octree.spec_aabb().dimensions.z as int) < i32::MAX,
        chunk_point_of(md).x == md.octree.spec_aabb().min_x() / (
        md.octree.spec_aabb().dimensions.x as int),
        chunk_point_of(md).y == chunk_row(md),
        chunk_point_of(md).z == md.octree.spec_aabb().min_z() / (
        md.octree.spec_aabb().dimensions.z as int),
{
    let b = md.octree.spec_aabb();
    lemma_min_inside(b.min_x(), b.max_x());
    lemma_min_inside(b.min_y(), b.max_y());
    lemma_min_inside(b.min_z(), b.max_z());
    lemma_div_toward_zero(b.min_x(), b.dimensions.x as int);
    lemma_div_toward_zero(b.min_y(), b.dimensions.y as int);
    lemma_div_toward_zero(b.min_z(), b.dimensions.z as int);
}

/// The chunk's box starts at its chunk point times its size, along every axis, as the map's
/// chunks do.
pub open spec fn chunk_aligned(md: MapChunkData) -> bool {
    let b = md.octree.spec_aabb();
    let cp = chunk_point_of(md);
    &&& b.min_x() == cp.x * (b.dimensions.x as int)
    &&& b.min_y() == cp.y * (b.dimensions.y as int)
    &&& b.min_z() == cp.z * (b.dimensions.z as int)
}

/// The box, of the same size as the chunk's, that the chunk point `c` stands for holds `p`.
pub open spec fn chunk_point_holds(md: MapChunkData, c: Point, p: Point) -> bool {
    let b = md.octree.spec_aabb();
    &&& c.x * (b.dimensions.x as int) <= p.x <= c.x * (b.dimensions.x as int) + b.dimensions.x - 1
    &&& c.y * (b.dimensions.y as int) <= p.y <= c.y * (b.dimensions.y as int) + b.dimensions.y - 1
    &&& c.z * (b.dimensions.z as int) <= p.z <= c.z * (b.dimensions.z as int) + b.dimensions.z - 1
}

/// Where the horizontal neighbour of a tile lies outside the tile's chunk, the chunk its side
/// looks into is the one whose box holds that neighbour: one chunk further along each axis on
/// which the neighbour passes the box's upper bound, one chunk back where it passes the lower.
pub proof fn lemma_neighbor_chunk_holds_neighbor(md: MapChunkData, point: Point, dir: Point)
    requires
        chunk_ready(md),
        chunk_aligned(md),
        md.octree.spec_aabb().contains_spec(point),
        neighbor_dirs_spec().contains(dir),
        i32::MIN < point.x < i32::MAX,
        i32::MIN < point.z < i32::MAX,
    ensures
        chunk_point_holds(md, neighbor_chunk(md, offset(point, dir), dir), offset(point, dir)),
{
    let b = md.octree.spec_aabb();
    let cp = chunk_point_of(md);
    lemma_chunk_point_bounds(md);
    let k = choose|k: int| 0 <= k < 8 && neighbor_dirs_spec()[k] == dir;
    assert(neighbor_dir(k) == dir);
    let n = offset(point, dir);
    let c = neighbor_chunk(md, n, dir);
    let dx = b.dimensions.x as int;
    let dy = b.dimensions.y as int;
    let dz = b.dimensions.z as int;
    let cx = cp.x as int;
    let cz = cp.z as int;
    assert(b.max_x() == cx * dx + dx - 1);
    assert(b.max_z() == cz * dz + dz - 1);
    assert((cx + 1) * dx == cx * dx + dx) by (nonlinear_arith);
    assert((cx - 1) * dx == cx * dx - dx) by (nonlinear_arith);
    assert((cz + 1) * dz == cz * dz + dz) by (nonlinear_arith);
    assert((cz - 1) * dz == cz * dz - dz) by (nonlinear_arith);
    assert(n.y == point.y);
    assert(c.y == cp.y);
}

proof fn lemma_axis_cell_unique(c1: int, c2: int, d: int, v: int)
    requires
        d >= 1,
        c1 * d <= v <= c1 * d + d - 1,
        c2 * d <= v <= c2 * d + d - 1,
    ensures
        c1 == c2,
{
    if c1 < c2 {
        assert(c1 * d + d <= c2 * d) by (nonlinear_arith)
            requires
                c1 < c2,
                d >= 1,
        ;
    }
    if c2 < c1 {
        assert(c2 * d + d <= c1 * d) by (nonlinear_arith)
            requires
                c2 < c1,
                d >= 1,
        ;
    }
}

/// What an open side means, for a tile of an aligned chunk: a side whose neighbour has been
/// dealt with already, or holds a tile of the same chunk, is closed; a neighbour inside the
/// chunk leaves the side open exactly when it is free; a neighbour outside it leaves the side
/// open exactly when no listed chunk whose box holds the neighbour has a tile there.
pub proof fn lemma_side_open_meaning<E>(
    ds: Seq<(E, MapChunkData, Point)>,
    md: MapChunkData,
    point: Point,
    checked: Seq<Point>,
    dir: Point,
)
    requires
        chunk_ready(md),
        chunk_aligned(md),
        md.octree.spec_aabb().contains_spec(point),
        neighbor_dirs_spec().contains(dir),
        i32::MIN < point.x < i32::MAX,
        i32::MIN < point.z < i32::MAX,
    ensures
        checked.contains(offset(point, dir)) ==> !side_open(ds, md, point, checked, dir),
        has_tile(md, offset(point, dir)) ==> !side_open(ds, md, point, checked, dir),
        !checked.contains(offset(point, dir)) && md.octree.spec_aabb().contains_spec(offset(point, dir)) ==> (
        side_open(ds, md, point, checked, dir) <==> !has_tile(md, offset(point, dir))),
        !checked.contains(offset(point, dir)) && !md.octree.spec_aabb().contains_spec(offset(point, dir)) ==> (
        side_open(ds, md, point, checked, dir) <==> (forall|c: Point|
            #[trigger] chunk_point_holds(md, c, offset(point, dir)) ==> !chunk_at_has_tile(ds, c, offset(point, dir)))),
{
    let n = offset(point, dir);
    let b = md.octree.spec_aabb();
    let nc = neighbor_chunk(md, n, dir);
    lemma_neighbor_chunk_holds_neighbor(md, point, dir);
    md.octree.lemma_view_in_bounds();
    if has_tile(md, n) {
        assert(b.contains_spec(n));
    }
    assert forall|c: Point| #[trigger] chunk_point_holds(md, c, n) implies c == nc by {
        lemma_axis_cell_unique(c.x as int, nc.x as int, b.dimensions.x as int, n.x as int);
        lemma_axis_cell_unique(c.y as int, nc.y as int, b.dimensions.y as int, n.y as int);
        lemma_axis_cell_unique(c.z as int, nc.z as int, b.dimensions.z as int, n.z as int);
    }
}

proof fn lemma_first_at_unique<E>(ds: Seq<(E, MapChunkData, Point)>, c: Point, i: int, j: int)
    requires
        first_at(ds, c, i),
        first_at(ds, c, j),
    ensures
        i == j,
{
    if i < j {
        assert(ds[i].2 != c);
    }
    if j < i {
        assert(ds[j].2 != c);
    }
}

/// Whether `p` is one of the points of `v`.
pub fn contains_point(v: &Vec<Point>, p: Point) -> (b: bool)
    ensures
        b == v@.contains(p),
{
    let n = v.len();
    let mut i: usize = 0;
    while i < n
        invariant
            n == v@.len(),
            i <= n,
            forall|k: int| 0 <= k < i ==> v@[k] != p,
        decreases n - i,
    {
        if v[i].same(&p) {
            assert(v@[i as int] == p);
            return true;
        }
        i += 1;
    }
    false
}

/// The position in the list of the first chunk at chunk point `c`, if any.
pub fn find_chunk<E>(map_datas: &Vec<(E, MapChunkData, Point)>, c: Point) -> (r: Option<usize>)
    ensures
        match r {
            Some(i) => first_at(map_datas@, c, i as int),
            None => forall|j: int| 0 <= j < map_datas@.len() ==> (#[trigger] map_datas@[j]).2 != c,
        },
{
    let n = map_datas.len();
    let mut i: usize = 0;
    while i < n
        invariant
            n == map_datas@.len(),
            i <= n,
            forall|j: int| 0 <= j < i ==> (#[trigger] map_datas@[j]).2 != c,
        decreases n - i,
    {
        if map_datas[i].2.same(&c) {
            return Some(i);
        }
        i += 1;
    }
    None
}

/// Whether the side of the tile at `point` facing `dir` is open.
fn side_is_open<E>(
    map_datas: &Vec<(E, MapChunkData, Point)>,
    map_data: &MapChunkData,
    point: Point,
    checked: &Vec<Point>,
    dir: Point,
) -> (b: bool)
    requires
        chunks_wf(map_datas@),
        chunk_ready(*map_data),
        neighbor_dirs_spec().contains(dir),
        i32::MIN < point.x < i32::MAX,
        i32::MIN < point.z < i32::MAX,
    ensures
        b == side_open(map_datas@, *map_data, point, checked@, dir),
{
    let ghost k = choose|k: int| 0 <= k < 8 && neighbor_dirs_spec()[k] == dir;
    assert(neighbor_dir(k) == dir);
    let n = point.add(dir);
    assert(n == offset(point, dir));
    if contains_point(checked, n) {
        return false;
    }
    if map_data.octree.query_point(n).is_some() {
        return false;
    }
    let aabb = map_data.octree.get_aabb();
    if aabb.contains_point(n) {
        return true;
    }
    let chunk_max = aabb.get_max();
    let chunk_min = aabb.get_min();
    let ax: i32 = if n.x > chunk_max.x {
        1
    } else if n.x < chunk_min.x {
        -1
    } else {
        0
    };
    let az: i32 = if n.z > chunk_max.z {
        1
    } else if n.z < chunk_min.z {
        -1
    } else {
        0
    };
    proof {
        lemma_chunk_point_bounds(*map_data);
    }
    let cp = map_data.get_chunk_point();
    let c = cp.add(Point::new(ax, dir.y, az));
    assert(c == neighbor_chunk(*map_data, n, dir));
    match find_chunk(map_datas, c) {
        Some(i) => {
            let free = map_datas[i].1.octree.query_point(n).is_none();
            proof {
                assert(map_datas@[i as int].1.octree.wf());
                if chunk_at_has_tile(map_datas@, c, n) {
                    let j = choose|j: int| #[trigger] first_at(map_datas@, c, j) && has_tile(map_datas@[j].1, n);
                    lemma_first_at_unique(map_datas@, c, i as int, j);
                }
                if !free {
                    assert(first_at(map_datas@, c, i as int) && has_tile(map_datas@[i as int].1, n));
                }
            }
            free
        },
        None => {
            proof {
                if chunk_at_has_tile(map_datas@, c, n) {
                    let j = choose|j: int| #[trigger] first_at(map_datas@, c, j) && has_tile(map_datas@[j].1, n);
                    assert(map_datas@[j].2 != c);
                }
            }
            true
        },
    }
}

/// The directions, among the eight horizontal neighbours of the tile at `point`, in which the
/// tile has an open side: each once.
pub fn get_open_sides<E>(
    map_datas: &Vec<(E, MapChunkData, Point)>,
    map_data: &MapChunkData,
    point: Point,
    checked: &Vec<Point>,
) -> (r: Vec<Point>)
    requires
        chunks_wf(map_datas@),
        chunk_ready(*map_data),
        i32::MIN < point.x < i32::MAX,
        i32::MIN < point.z < i32::MAX,
    ensures
        r@.no_duplicates(),
        forall|d: Point|
            #[trigger] r@.contains(d) <==> (neighbor_dirs_spec().contains(d) && side_open(
                map_datas@,
                *map_data,
                point,
                checked@,
                d,
            )),
{
    let dirs = neighbor_dirs();
    let mut open: Vec<Point> = Vec::new();
    let mut k: usize = 0;
    proof {
        lemma_neighbor_dirs_distinct();
    }
    while k < 8
        invariant
            dirs@ == neighbor_dirs_spec(),
            k <= 8,
            chunks_wf(map_datas@),
            chunk_ready(*map_data),
            i32::MIN < point.x < i32::MAX,
            i32::MIN < point.z < i32::MAX,
            open@.no_duplicates(),
            forall|a: int, b: int|
                0 <= a < 8 && 0 <= b < 8 && a != b ==> #[trigger] neighbor_dir(a) != #[trigger] neighbor_dir(b),
            forall|d: Point|
                #[trigger] open@.contains(d) <==> exists|j: int|
                    0 <= j < k && neighbor_dir(j) == d && side_open(
                        map_datas@,
                        *map_data,
                        point,
                        checked@,
                        d,
                    ),
        decreases 8 - k,
    {
        let dir = dirs[k];
        assert(dir == neighbor_dir(k as int));
        assert(neighbor_dirs_spec()[k as int] == dir);
        let ghost prev = open@;
        if side_is_open(map_datas, map_data, point, checked, dir) {
            proof {
                if prev.contains(dir) {
                    let j = choose|j: int|
                        0 <= j < k && neighbor_dir(j) == dir && side_open(
                            map_datas@,
                            *map_data,
                            point,
                            checked@,
                            dir,
                        );
                    assert(neighbor_dir(j) != neighbor_dir(k as int));
                }
            }
            open.push(dir);
            proof {
                assert forall|d: Point| #[trigger] open@.contains(d) <==> exists|j: int|
                    0 <= j < k + 1 && neighbor_dir(j) == d && side_open(
                        map_datas@,
                        *map_data,
                        point,
                        checked@,
                        d,
                    ) by {
                    if open@.contains(d) && d != dir {
                        let a = choose|a: int| 0 <= a < open@.len() && open@[a] == d;
                        assert(prev[a] == d);
                        assert(prev.contains(d));
                    }
                    if d == dir {
                        assert(open@[prev.len() as int] == dir);
                    }
                    if exists|j: int|
                        0 <= j < k + 1 && neighbor_dir(j) == d && side_open(
                            map_datas@,
                            *map_data,
                            point,
                            checked@,
                            d,
                        ) {
                        if d != dir {
                            assert(prev.contains(d));
                            let a = choose|a: int| 0 <= a < prev.len() && prev[a] == d;
                            assert(open@[a] == d);
                        }
                    }
                }
            }
        } else {
            proof {
                assert forall|d: Point| #[trigger] open@.contains(d) <==> exists|j: int|
                    0 <= j < k + 1 && neighbor_dir(j) == d && side_open(
                        map_datas@,
                        *map_data,
                        point,
                        checked@,
                        d,
                    ) by {
                    if exists|j: int|
                        0 <= j < k + 1 && neighbor_dir(j) == d && side_open(
                            map_datas@,
                            *map_data,
                            point,
                            checked@,
                            d,
                        ) {
                        let j = choose|j: int|
                            0 <= j < k + 1 && neighbor_dir(j) == d && side_open(
                                map_datas@,
                                *map_data,
                                point,
                                checked@,
                                d,
                            );
                        assert(j != k);
                    }
                }
            }
        }
        k += 1;
    }
    proof {
        assert forall|d: Point| #[trigger] open@.contains(d) <==> (neighbor_dirs_spec().contains(d)
            && side_open(map_datas@, *map_data, point, checked@, d)) by {
            if neighbor_dirs_spec().contains(d) && side_open(map_datas@, *map_data, point, checked@, d) {
                let j = choose|j: int| 0 <= j < 8 && neighbor_dirs_spec()[j] == d;
                assert(neighbor_dir(j) == d);
            }
            if open@.contains(d) {
                let j = choose|j: int|
                    0 <= j < 8 && neighbor_dir(j) == d && side_open(
                        map_datas@,
                        *map_data,
                        point,
                        checked@,
                        d,
                    );
                assert(neighbor_dirs_spec()[j] == d);
            }
        }
    }
    open
}


/// The first height at or above `y` in column (`x`, `z`) of the chunk that holds no tile;
/// `y` itself where it lies above the chunk's box.
pub open spec fn scan_up(md: MapChunkData, x: i32, y: int, z: i32) -> int
    decreases md.octree.spec_aabb().max_y() + 1 - y,
{
    if y > md.octree.spec_aabb().max_y() {
        y
    } else if has_tile(md, Point { x, y: y as i32, z }) {
        scan_up(md, x, y + 1, z)
    } else {
        y
    }
}

/// Where the scan of a column starts: at the tile's own height, or at the bottom of the
/// chunk where the tile lies at or below it.
pub open spec fn scan_start(md: MapChunkData, pt: Point) -> int {
    let mn = md.octree.spec_aabb().min_y();
    if pt.y < mn + 1 {
        mn
    } else {
        pt.y as int
    }
}

/// The chunk point of the chunk stacked on top of `md`.
pub open spec fn chunk_above(md: MapChunkData) -> Point {
    let cp = chunk_point_of(md);
    Point { x: cp.x, y: (cp.y + 1) as i32, z: cp.z }
}

/// Scanning a column up from height `y` stops at the first height that holds no tile of the
/// chunk, or just above the chunk's box: every height passed holds a tile.
pub proof fn lemma_scan_up_finds_free(md: MapChunkData, x: i32, y: int, z: i32)
    requires
        y <= md.octree.spec_aabb().max_y() + 1,
    ensures
        y <= scan_up(md, x, y, z) <= md.octree.spec_aabb().max_y() + 1,
        forall|h: int| y <= h < scan_up(md, x, y, z) ==> #[trigger] has_tile(md, Point { x, y: h as i32, z }),
        scan_up(md, x, y, z) <= md.octree.spec_aabb().max_y() ==> !has_tile(
            md,
            Point { x, y: scan_up(md, x, y, z) as i32, z },
        ),
    decreases md.octree.spec_aabb().max_y() + 1 - y,
{
    if y <= md.octree.spec_aabb().max_y() && has_tile(md, Point { x, y: y as i32, z }) {
        lemma_scan_up_finds_free(md, x, y + 1, z);
    }
}

/// The chunk stacked on top of an aligned chunk stands over the same columns and starts right
/// above the chunk's box.
pub proof fn lemma_chunk_above_is_next_layer(md: MapChunkData)
    requires
        chunk_ready(md),
        chunk_aligned(md),
    ensures
        chunk_above(md).x == chunk_point_of(md).x,
        chunk_above(md).z == chunk_point_of(md).z,
        chunk_above(md).y * (md.octree.spec_aabb().dimensions.y as int) == md.octree.spec_aabb().max_y() + 1,
{
    lemma_chunk_point_bounds(md);
    let cy = chunk_point_of(md).y as int;
    let dy = md.octree.spec_aabb().dimensions.y as int;
    assert((cy + 1) * dy == cy * dy + dy) by (nonlinear_arith);
}

/// The top of the column of tiles that `pt` belongs to, across the chunks stacked above:
/// the first free height of the column, continued into the chunk above wherever the column
/// fills its chunk up to the top.
pub open spec fn true_top<E>(ds: Seq<(E, MapChunkData, Point)>, md: MapChunkData, pt: Point) -> Point
    decreases i32::MAX - chunk_row(md),
    when chunks_placed(ds) && chunk_ready(md)
{
    let y = scan_up(md, pt.x, scan_start(md, pt), pt.z);
    let top = Point { x: pt.x, y: y as i32, z: pt.z };
    if y == md.octree.spec_aabb().max_y() + 1 && exists|i: int| first_at(ds, chunk_above(md), i) {
        let i = choose|i: int| first_at(ds, chunk_above(md), i);
        proof {
            lemma_chunk_point_bounds(md);
            assert(chunk_ready(ds[i].1) && ds[i].2 == chunk_point_of(ds[i].1));
            lemma_chunk_point_bounds(ds[i].1);
        }
        true_top(ds, ds[i].1, top)
    } else {
        top
    }
}

/// The top of the column of tiles that `pt` belongs to, regardless of chunk boundaries.
#[verifier::loop_isolation(false)]
pub fn get_true_top<E>(pt: Point, map_datas: &Vec<(E, MapChunkData, Point)>, map_data: &MapChunkData) -> (r: Point)
    requires
        chunks_placed(map_datas@),
        chunk_ready(*map_data),
    ensures
        r == true_top(map_datas@, *map_data, pt),
    decreases i32::MAX - chunk_row(*map_data),
{
    let ghost md = *map_data;
    let aabb = map_data.octree.get_aabb();
    let chunk_max = aabb.get_max();
    let chunk_min = aabb.get_min();
    let mut y = pt.y;
    if y < chunk_min.y + 1 {
        y = chunk_min.y;
    }
    let ghost y0 = y as int;
    assert(y0 == scan_start(md, pt));
    while y <= chunk_max.y
        invariant
            y0 <= y,
            y <= chunk_max.y + 1 || y == y0,
            scan_up(md, pt.x, y0, pt.z) == scan_up(md, pt.x, y as int, pt.z),
        decreases chunk_max.y + 1 - y,
    {
        let here = Point::new(pt.x, y, pt.z);
        if map_data.octree.query_point(here).is_none() {
            break;
        }
        y = y + 1;
    }
    assert(scan_up(md, pt.x, y0, pt.z) == y);
    let top = Point::new(pt.x, y, pt.z);
    if y == chunk_max.y + 1 {
        proof {
            lemma_chunk_point_bounds(md);
        }
        let cp = map_data.get_chunk_point();
        let above = Point::new(cp.x, cp.y + 1, cp.z);
        assert(above == chunk_above(md));
        match find_chunk(map_datas, above) {
            Some(i) => {
                proof {
                    let j = choose|j: int| first_at(map_datas@, chunk_above(md), j);
                    lemma_first_at_unique(map_datas@, above, i as int, j);
                    assert(chunk_ready(map_datas@[i as int].1) && map_datas@[i as int].2 == chunk_point_of(map_datas@[i as int].1));
                    lemma_chunk_point_bounds(map_datas@[i as int].1);
                }
                return get_true_top(top, map_datas, &map_datas[i].1);
            },
            None => {
                proof {
                    if exists|j: int| first_at(map_datas@, chunk_above(md), j) {
                        let j = choose|j: int| first_at(map_datas@, chunk_above(md), j);
                        assert(map_datas@[j].2 != above);
                    }
                }
            },
        }
    }
    top
}

/// The lowest corner of `change`, moved one step down along every axis.
pub open spec fn grown_min(change: AABB) -> Point {
    Point {
        x: (change.min_x() - 1) as i32,
        y: (change.min_y() - 1) as i32,
        z: (change.min_z() - 1) as i32,
    }
}

/// The highest corner of `change`, moved one step up along every axis.
pub open spec fn grown_max(change: AABB) -> Point {
    Point {
        x: (change.max_x() + 1) as i32,
        y: (change.max_y() + 1) as i32,
        z: (change.max_z() + 1) as i32,
    }
}

/// The box `change` grown by one in every direction.
pub open spec fn grown(change: AABB) -> AABB {
    AABB::extents_spec(grown_min(change), grown_max(change))
}

/// `change` can be grown by one along every axis, the grown box's bounds (and the first
/// coordinate past its highest corner) fitting in an `i32`.
pub open spec fn growable(change: AABB) -> bool {
    &&& change.well_sized()
    &&& fits_i32(change.min_x() - 1) && fits_i32(change.max_x() + 2)
    &&& fits_i32(change.min_y() - 1) && fits_i32(change.max_y() + 2)
    &&& fits_i32(change.min_z() - 1) && fits_i32(change.max_z() + 2)
}

/// `p` lies in `change` or on its border.
pub open spec fn near(change: AABB, p: Point) -> bool {
    &&& change.min_x() - 1 <= p.x <= change.max_x() + 1
    &&& change.min_y() - 1 <= p.y <= change.max_y() + 1
    &&& change.min_z() - 1 <= p.z <= change.max_z() + 1
}

/// Grows the changed box by one to take in the positions on its border, and keeps the part
/// of it inside `aabb`; where the grown box meets `aabb`, the result holds exactly the points
/// of `aabb` that are near the change.
pub fn get_aabb_change_in_range(change: AABB, aabb: AABB) -> (r: AABB)
    requires
        growable(change),
        aabb.well_sized(),
        AABB::extents_ok(grown_min(change), grown_max(change)),
        AABB::extents_ok(grown(change).meet_min(aabb), grown(change).meet_max(aabb)),
    ensures
        r == AABB::extents_spec(grown(change).meet_min(aabb), grown(change).meet_max(aabb)),
        grown(change).intersects_spec(aabb) ==> r.well_sized() && forall|p: Point|
            #[trigger] r.contains_spec(p) <==> (aabb.contains_spec(p) && near(change, p)),
{
    let min = change.get_min();
    let max = change.get_max();
    let lo = min.sub(Point::new(1, 1, 1));
    let hi = max.add(Point::new(1, 1, 1));
    proof {
        crate::aabb::lemma_extents_round_trip(lo, hi);
    }
    let expand = AABB::from_extents(lo, hi);
    assert(expand == grown(change));
    proof {
        if grown(change).intersects_spec(aabb) {
            assert forall|p: Point| #[trigger]
                AABB::extents_spec(grown(change).meet_min(aabb), grown(change).meet_max(aabb)).contains_spec(p)
                <==> (aabb.contains_spec(p) && near(change, p)) by {
                crate::aabb::lemma_intersection_contains(grown(change), aabb, p);
            }
            crate::aabb::lemma_intersection_contains(grown(change), aabb, Point { x: 0, y: 0, z: 0 });
        }
    }
    expand.get_intersection(aabb)
}


/// How the open sides of a tile compare with those of the tile stacked on it.
#[derive(Debug, Clone, Copy, PartialEq, Eq, Structural)]
pub enum SideChange {
    /// Both tiles are open on the same sides.
    Same,
    /// The tile on top is open on fewer sides: every side open above is open below.
    Covered,
    /// The tile on top is open on a side that is closed below.
    Uncovered,
}

/// Every point of `a` is a point of `b`.
fn all_within(a: &Vec<Point>, b: &Vec<Point>) -> (r: bool)
    ensures
        r == (forall|d: Point| a@.contains(d) ==> b@.contains(d)),
{
    let n = a.len();
    let mut i: usize = 0;
    while i < n
        invariant
            n == a@.len(),
            i <= n,
            forall|k: int| 0 <= k < i ==> b@.contains(#[trigger] a@[k]),
        decreases n - i,
    {
        if !contains_point(b, a[i]) {
            proof {
                assert(a@.contains(a@[i as int]));
            }
            return false;
        }
        i += 1;
    }
    proof {
        assert forall|d: Point| a@.contains(d) implies b@.contains(d) by {
            let k = choose|k: int| 0 <= k < a@.len() && a@[k] == d;
            assert(b@.contains(a@[k]));
        }
    }
    true
}

/// Compares the open sides of a tile (`point_sides`) with those of the tile on top of it
/// (`curr_sides`), both taken as sets of directions.
pub fn compare_sides(point_sides: &Vec<Point>, curr_sides: &Vec<Point>) -> (r: SideChange)
    ensures
        r == SideChange::Same <==> (forall|d: Point|
            point_sides@.contains(d) <==> curr_sides@.contains(d)),
        r == SideChange::Covered <==> ((forall|d: Point| curr_sides@.contains(d) ==> point_sides@.contains(d))
            && exists|d: Point| point_sides@.contains(d) && !curr_sides@.contains(d)),
        r == SideChange::Uncovered <==> exists|d: Point| curr_sides@.contains(d) && !point_sides@.contains(d),
{
    let up_within = all_within(curr_sides, point_sides);
    let down_within = all_within(point_sides, curr_sides);
    if up_within && down_within {
        SideChange::Same
    } else if up_within {
        SideChange::Covered
    } else {
        SideChange::Uncovered
    }
}


/// The sum of the first `n` counts.
pub open spec fn prefix_sum(s: Seq<usize>, n: int) -> int
    decreases n,
{
    if n <= 0 || n > s.len() {
        0
    } else {
        prefix_sum(s, n - 1) + s[n - 1]
    }
}

/// How many of the first `n` chunks are drawn together: the last one is put off while more
/// than one is left and together they hold more tiles than a whole chunk has room for.
pub open spec fn batch_keep(s: Seq<usize>, n: int, volume: int) -> int
    decreases n,
{
    if n > 1 && prefix_sum(s, n) > volume {
        batch_keep(s, n - 1, volume)
    } else {
        n
    }
}

proof fn lemma_prefix_sum_nonneg(s: Seq<usize>, n: int)
    ensures
        0 <= prefix_sum(s, n),
    decreases n,
{
    if n > 0 && n <= s.len() {
        lemma_prefix_sum_nonneg(s, n - 1);
    }
}

proof fn lemma_prefix_sum_mono(s: Seq<usize>, i: int, j: int)
    requires
        0 <= i <= j <= s.len(),
    ensures
        0 <= prefix_sum(s, i) <= prefix_sum(s, j),
    decreases j - i,
{
    lemma_prefix_sum_nonneg(s, i);
    if i < j {
        lemma_prefix_sum_mono(s, i, j - 1);
    }
}

/// How many of the chunks waiting to be drawn (their tile counts in order) are drawn in this
/// pass, so that the work stays within about one chunk's volume.
pub fn batch_to_chunk_volume(counts: &Vec<usize>, chunk_volume: usize) -> (r: usize)
    requires
        prefix_sum(counts@, counts@.len() as int) <= usize::MAX,
    ensures
        r == batch_keep(counts@, counts@.len() as int, chunk_volume as int),
{
    let len = counts.len();
    let mut total: usize = 0;
    let mut i: usize = 0;
    while i < len
        invariant
            len == counts@.len(),
            i <= len,
            total == prefix_sum(counts@, i as int),
            prefix_sum(counts@, len as int) <= usize::MAX,
        decreases len - i,
    {
        proof {
            lemma_prefix_sum_mono(counts@, i + 1, len as int);
        }
        total = total + counts[i];
        i += 1;
    }
    let mut n = len;
    while n > 1 && total > chunk_volume
        invariant
            len == counts@.len(),
            n <= len,
            total == prefix_sum(counts@, n as int),
            batch_keep(counts@, len as int, chunk_volume as int) == batch_keep(counts@, n as int, chunk_volume as int),
        decreases n,
    {
        n = n - 1;
        proof {
            lemma_prefix_sum_mono(counts@, n as int, n + 1);
        }
        total = total - counts[n];
    }
    n
}

/// The least of a nonempty list of batch numbers.
pub open spec fn least_batch(s: Seq<u32>) -> u32
    decreases s.len(),
{
    if s.len() <= 1 {
        s[0]
    } else if least_batch(s.drop_last()) <= s.last() {
        least_batch(s.drop_last())
    } else {
        s.last()
    }
}

proof fn lemma_least_batch(s: Seq<u32>)
    requires
        s.len() >= 1,
    ensures
        forall|i: int| 0 <= i < s.len() ==> least_batch(s) <= #[trigger] s[i],
        exists|i: int| 0 <= i < s.len() && #[trigger] s[i] == least_batch(s),
    decreases s.len(),
{
    if s.len() > 1 {
        let t = s.drop_last();
        lemma_least_batch(t);
        assert forall|i: int| 0 <= i < s.len() implies least_batch(s) <= #[trigger] s[i] by {
            if i < t.len() {
                assert(t[i] == s[i]);
            }
        }
        if least_batch(t) <= s.last() {
            let i = choose|i: int| 0 <= i < t.len() && #[trigger] t[i] == least_batch(t);
            assert(s[i] == t[i]);
        } else {
            assert(s[s.len() - 1] == s.last());
        }
    } else {
        assert(s[0] == least_batch(s));
    }
}

/// The positions among the first `n` of `s` that hold `v`, in order.
pub open spec fn indices_with(s: Seq<u32>, v: u32, n: int) -> Seq<usize>
    decreases n,
{
    if n <= 0 {
        Seq::empty()
    } else if s[n - 1] == v {
        indices_with(s, v, n - 1).push((n - 1) as usize)
    } else {
        indices_with(s, v, n - 1)
    }
}

/// The positions of the earliest batch, in order.
pub open spec fn first_batch_spec(s: Seq<u32>) -> Seq<usize> {
    if s.len() == 0 {
        Seq::empty()
    } else {
        indices_with(s, least_batch(s), s.len() as int)
    }
}

/// The chunks drawn next: those of the earliest batch, by their positions in the list, in
/// order.
pub fn first_batch(batches: &Vec<u32>) -> (r: Vec<usize>)
    ensures
        r@ == first_batch_spec(batches@),
        batches@.len() == 0 ==> r@.len() == 0,
        batches@.len() > 0 ==> forall|i: int|
            0 <= i < batches@.len() ==> (#[trigger] r@.contains(i as usize) <==> batches@[i] == least_batch(batches@)),
        forall|a: int, b: int| 0 <= a < b < r@.len() ==> #[trigger] r@[a] < #[trigger] r@[b],
        forall|a: int| 0 <= a < r@.len() ==> #[trigger] r@[a] < batches@.len(),
{
    let len = batches.len();
    let mut chosen: Vec<usize> = Vec::new();
    if len == 0 {
        return chosen;
    }
    let mut least = batches[0];
    let mut i: usize = 1;
    while i < len
        invariant
            len == batches@.len(),
            1 <= i <= len,
            least == least_batch(batches@.take(i as int)),
        decreases len - i,
    {
        proof {
            assert(batches@.take(i + 1).drop_last() =~= batches@.take(i as int));
            assert(batches@.take(i + 1).last() == batches@[i as int]);
        }
        if batches[i] < least {
            least = batches[i];
        }
        i += 1;
    }
    proof {
        assert(batches@.take(len as int) =~= batches@);
    }
    let mut k: usize = 0;
    while k < len
        invariant
            len == batches@.len(),
            k <= len,
            least == least_batch(batches@),
            chosen@ == indices_with(batches@, least, k as int),
            forall|j: int| 0 <= j < batches@.len() ==> (#[trigger] chosen@.contains(j as usize) <==> (j < k && batches@[j] == least)),
            forall|a: int, b: int| 0 <= a < b < chosen@.len() ==> #[trigger] chosen@[a] < #[trigger] chosen@[b],
            forall|a: int| 0 <= a < chosen@.len() ==> #[trigger] chosen@[a] < k,
        decreases len - k,
    {
        if batches[k] == least {
            let ghost prev = chosen@;
            chosen.push(k);
            proof {
                assert forall|j: int| 0 <= j < batches@.len() implies (#[trigger] chosen@.contains(j as usize) <==> (j < k + 1 && batches@[j] == least)) by {
                    if j == k {
                        assert(chosen@[prev.len() as int] == k);
                    }
                    if chosen@.contains(j as usize) && j != k {
                        let a = choose|a: int| 0 <= a < chosen@.len() && chosen@[a] == j as usize;
                        assert(prev[a] == j as usize);
                        assert(prev.contains(j as usize));
                    }
                    if j < k && batches@[j] == least {
                        assert(prev.contains(j as usize));
                        let a = choose|a: int| 0 <= a < prev.len() && prev[a] == j as usize;
                        assert(chosen@[a] == j as usize);
                    }
                }
            }
        } else {
            proof {
                assert forall|j: int| 0 <= j < batches@.len() implies (#[trigger] chosen@.contains(j as usize) <==> (j < k + 1 && batches@[j] == least)) by {
                    if chosen@.contains(j as usize) {
                        let a = choose|a: int| 0 <= a < chosen@.len() && chosen@[a] == j as usize;
                    }
                }
            }
        }
        k += 1;
    }
    chosen
}


/// A chunk waiting to be drawn: the batch its change was queued in, and how many tiles it
/// holds.
#[derive(Debug, Clone, Copy, PartialEq, Eq, Structural)]
pub struct PendingDraw {
    pub batch: u32,
    pub tiles: usize,
}

/// Which waiting chunks one drawing pass takes (their positions in the waiting list, in
/// order) and which keep waiting, with their change ranges, for a later pass.
pub struct DrawPass {
    pub drawn: Vec<usize>,
    pub still_pending: Vec<usize>,
}

/// The batch numbers of the waiting chunks.
pub open spec fn batches_of(p: Seq<PendingDraw>) -> Seq<u32> {
    Seq::new(p.len(), |i: int| p[i].batch)
}

/// The tile counts of the chunks of the earliest batch, in order.
pub open spec fn first_batch_tiles(p: Seq<PendingDraw>) -> Seq<usize> {
    Seq::new(
        first_batch_spec(batches_of(p)).len(),
        |j: int| p[first_batch_spec(batches_of(p))[j] as int].tiles,
    )
}

/// The chunks a pass draws: those of the earliest batch, less the last ones while more than
/// one is left and together they hold more tiles than a chunk has room for.
pub open spec fn drawn_spec(p: Seq<PendingDraw>, chunk_volume: int) -> Seq<usize> {
    first_batch_spec(batches_of(p)).take(
        batch_keep(first_batch_tiles(p), first_batch_tiles(p).len() as int, chunk_volume),
    )
}

/// The positions among the first `n` that are not in `drawn`, in order.
pub open spec fn not_drawn(drawn: Seq<usize>, n: int) -> Seq<usize>
    decreases n,
{
    if n <= 0 {
        Seq::empty()
    } else if drawn.contains((n - 1) as usize) {
        not_drawn(drawn, n - 1)
    } else {
        not_drawn(drawn, n - 1).push((n - 1) as usize)
    }
}

proof fn lemma_indices_with_bounds(s: Seq<u32>, v: u32, n: int)
    requires
        0 <= n <= s.len(),
    ensures
        indices_with(s, v, n).len() <= n,
        forall|j: int| 0 <= j < indices_with(s, v, n).len() ==> (#[trigger] indices_with(s, v, n)[j]) < n,
    decreases n,
{
    if n > 0 {
        lemma_indices_with_bounds(s, v, n - 1);
    }
}

proof fn lemma_batch_keep_bounds(c: Seq<usize>, n: int, volume: int)
    requires
        0 <= n,
    ensures
        0 <= batch_keep(c, n, volume) <= n,
    decreases n,
{
    if n > 1 && prefix_sum(c, n) > volume {
        lemma_batch_keep_bounds(c, n - 1, volume);
    }
}

/// Plans one drawing pass over the waiting chunks: the chunks of the earliest batch are
/// drawn, fewer of them where together they would exceed a chunk's volume of tiles; every
/// other chunk keeps waiting.
pub fn plan_draw_pass(pending: &Vec<PendingDraw>, chunk_volume: usize) -> (r: DrawPass)
    requires
        prefix_sum(first_batch_tiles(pending@), first_batch_tiles(pending@).len() as int) <= usize::MAX,
    ensures
        r.drawn@ == drawn_spec(pending@, chunk_volume as int),
        r.still_pending@ == not_drawn(r.drawn@, pending@.len() as int),
{
    let n = pending.len();
    let mut batches: Vec<u32> = Vec::new();
    let mut i: usize = 0;
    while i < n
        invariant
            n == pending@.len(),
            i <= n,
            batches@ == batches_of(pending@).take(i as int),
        decreases n - i,
    {
        batches.push(pending[i].batch);
        proof {
            assert(batches@ =~= batches_of(pending@).take(i + 1));
        }
        i += 1;
    }
    proof {
        assert(batches@ =~= batches_of(pending@));
        if batches@.len() > 0 {
            lemma_indices_with_bounds(batches@, least_batch(batches@), batches@.len() as int);
        }
    }
    let chosen = first_batch(&batches);
    let m = chosen.len();
    let mut counts: Vec<usize> = Vec::new();
    let mut j: usize = 0;
    while j < m
        invariant
            n == pending@.len(),
            m == chosen@.len(),
            chosen@ == first_batch_spec(batches_of(pending@)),
            forall|a: int| 0 <= a < m ==> (#[trigger] chosen@[a]) < n,
            j <= m,
            counts@ == first_batch_tiles(pending@).take(j as int),
        decreases m - j,
    {
        let at = chosen[j];
        counts.push(pending[at].tiles);
        proof {
            assert(counts@ =~= first_batch_tiles(pending@).take(j + 1));
        }
        j += 1;
    }
    proof {
        assert(counts@ =~= first_batch_tiles(pending@));
    }
    let keep = batch_to_chunk_volume(&counts, chunk_volume);
    proof {
        lemma_batch_keep_bounds(counts@, counts@.len() as int, chunk_volume as int);
    }
    let mut drawn = chosen;
    drawn.truncate(keep);
    assert(drawn@ =~= drawn_spec(pending@, chunk_volume as int));
    let mut still: Vec<usize> = Vec::new();
    let mut k: usize = 0;
    while k < n
        invariant
            n == pending@.len(),
            k <= n,
            still@ == not_drawn(drawn@, k as int),
        decreases n - k,
    {
        let mut found = false;
        let mut a: usize = 0;
        while a < drawn.len()
            invariant
                a <= drawn@.len(),
                found <==> exists|b: int| 0 <= b < a && drawn@[b] == k,
            decreases drawn@.len() - a,
        {
            if drawn[a] == k {
                found = true;
            }
            a += 1;
        }
        proof {
            assert(found <==> drawn@.contains(k));
        }
        if !found {
            still.push(k);
        }
        k += 1;
    }
    DrawPass { drawn, still_pending: still }
}

} // verus!
