use vstd::prelude::*;
use crate::point::Point;
use crate::aabb::{AABB, abs_int, axis_min, axis_max};
use crate::level_map::TileData;

verus! {

/// Number of elements a node holds before it subdivides, unless told otherwise.
pub const DEFAULT_MAX: usize = 32;

/// Whether a node has been subdivided into children.
#[derive(Debug, Clone, Copy, PartialEq, Eq, Structural)]
pub enum Paternity {
    ProudParent,
    ChildFree,
}

/// Why an insertion was refused.
#[derive(Debug, Clone, Copy, PartialEq, Eq, Structural)]
pub enum InsertionErrorType {
    Empty,
    BlockFull(AABB),
    OutOfBounds(AABB),
}

#[derive(Debug, Clone, Copy, PartialEq, Eq, Structural)]
pub struct InsertionError {
    pub error_type: InsertionErrorType,
}

/// The sum of the sizes of a box along its three axes; it shrinks from a node to its children.
pub open spec fn box_measure(b: AABB) -> int {
    abs_int(b.dimensions.x as int) + abs_int(b.dimensions.y as int) + abs_int(
        b.dimensions.z as int,
    )
}

/// A box that covers more than one grid point.
pub open spec fn splittable(b: AABB) -> bool {
    ||| abs_int(b.dimensions.x as int) > 1
    ||| abs_int(b.dimensions.y as int) > 1
    ||| abs_int(b.dimensions.z as int) > 1
}

/// Start of the upper half of the axis `lo .. lo + ad`; the lower half keeps the odd point.
pub open spec fn split_at(lo: int, ad: int) -> int {
    lo + ad - ad / 2
}

/// The child box of `b` taking the upper half along each axis whose flag is set.
pub open spec fn sub_box(b: AABB, hx: bool, hy: bool, hz: bool) -> AABB {
    let ax = abs_int(b.dimensions.x as int);
    let ay = abs_int(b.dimensions.y as int);
    let az = abs_int(b.dimensions.z as int);
    let lo = Point {
        x: (if hx { split_at(b.min_x(), ax) } else { b.min_x() }) as i32,
        y: (if hy { split_at(b.min_y(), ay) } else { b.min_y() }) as i32,
        z: (if hz { split_at(b.min_z(), az) } else { b.min_z() }) as i32,
    };
    let hi = Point {
        x: (if hx { b.max_x() } else { split_at(b.min_x(), ax) - 1 }) as i32,
        y: (if hy { b.max_y() } else { split_at(b.min_y(), ay) - 1 }) as i32,
        z: (if hz { b.max_z() } else { split_at(b.min_z(), az) - 1 }) as i32,
    };
    AABB::extents_spec(lo, hi)
}

/// First coordinate of one half of the axis `m .. m + ad`.
pub open spec fn part_lo(m: int, ad: int, upper: bool) -> int {
    if upper { split_at(m, ad) } else { m }
}

/// Last coordinate (inclusive) of one half of the axis `m .. m + ad`.
pub open spec fn part_hi(m: int, ad: int, upper: bool) -> int {
    if upper { m + ad - 1 } else { split_at(m, ad) - 1 }
}

/// The children a box of sizes `ax`, `ay`, `az` splits into, named by which halves they take.
pub open spec fn split_labels(ax: int, ay: int, az: int) -> Seq<(bool, bool, bool)> {
    let s0 = seq![(false, false, false)];
    let s1 = if ax > 1 { s0.push((true, false, false)) } else { s0 };
    let s2 = if ax > 1 && az > 1 { s1.push((true, false, true)) } else { s1 };
    let s3 = if ax > 1 && az > 1 && ay > 1 { s2.push((true, true, true)) } else { s2 };
    let s4 = if az > 1 { s3.push((false, false, true)) } else { s3 };
    let s5 = if az > 1 && ay > 1 { s4.push((false, true, true)) } else { s4 };
    let s6 = if ay > 1 { s5.push((false, true, false)) } else { s5 };
    if ay > 1 && ax > 1 { s6.push((true, true, false)) } else { s6 }
}

/// How many halves an axis of size `a` is cut into: two where it is longer than one point.
pub open spec fn halves(a: int) -> int {
    if a > 1 { 2 } else { 1 }
}

/// The total volume of the child boxes of `b` named by the first `n` labels.
pub open spec fn labels_volume(b: AABB, labels: Seq<(bool, bool, bool)>, n: int) -> int
    decreases n,
{
    if n <= 0 || n > labels.len() {
        0
    } else {
        labels_volume(b, labels, n - 1) + sub_box(b, labels[n - 1].0, labels[n - 1].1, labels[n - 1].2).volume()
    }
}

/// A box splits into one child per combination of the halves of its axes.
proof fn lemma_split_count(ax: int, ay: int, az: int)
    ensures
        split_labels(ax, ay, az).len() == halves(ax) * halves(ay) * halves(az),
{
}

/// The length, along one axis, of the lower or upper half of a child box.
spec fn half_len(a: int, upper: bool) -> int {
    if upper { a / 2 } else { a - a / 2 }
}

proof fn lemma_sub_box_volume(b: AABB, l: (bool, bool, bool))
    requires
        b.well_sized(),
        abs_int(b.dimensions.x as int) >= 1,
        abs_int(b.dimensions.y as int) >= 1,
        abs_int(b.dimensions.z as int) >= 1,
    ensures
        sub_box(b, l.0, l.1, l.2).volume() == half_len(abs_int(b.dimensions.x as int), l.0) * half_len(
            abs_int(b.dimensions.y as int),
            l.1,
        ) * half_len(abs_int(b.dimensions.z as int), l.2),
{
    let ax = abs_int(b.dimensions.x as int);
    let ay = abs_int(b.dimensions.y as int);
    let az = abs_int(b.dimensions.z as int);
    let s = sub_box(b, l.0, l.1, l.2);
    assert(abs_int(s.dimensions.x as int) == half_len(ax, l.0));
    assert(abs_int(s.dimensions.y as int) == half_len(ay, l.1));
    assert(abs_int(s.dimensions.z as int) == half_len(az, l.2));
}

proof fn lemma_expand_product(a: int, b: int, c: int, d: int, e: int, f: int)
    ensures
        (a + b) * (c + d) * (e + f) == a * c * e + b * c * e + b * c * f + b * d * f + a * c * f + a * d * f
            + a * d * e + b * d * e,
{
    let p = (a + b) * (c + d);
    assert(p == a * c + a * d + b * c + b * d) by (nonlinear_arith)
        requires p == (a + b) * (c + d);
    assert(p * (e + f) == p * e + p * f) by (nonlinear_arith);
    assert((a + b) * (c + d) * (e + f) == p * (e + f));
    assert(p * e == a * c * e + a * d * e + b * c * e + b * d * e) by (nonlinear_arith)
        requires p == a * c + a * d + b * c + b * d;
    assert(p * f == a * c * f + a * d * f + b * c * f + b * d * f) by (nonlinear_arith)
        requires p == a * c + a * d + b * c + b * d;
}

/// The child boxes of a split together have the volume of the box.
proof fn lemma_split_volume(b: AABB)
    requires
        b.well_sized(),
        abs_int(b.dimensions.x as int) >= 1,
        abs_int(b.dimensions.y as int) >= 1,
        abs_int(b.dimensions.z as int) >= 1,
    ensures
        ({
            let labels = split_labels(
                abs_int(b.dimensions.x as int),
                abs_int(b.dimensions.y as int),
                abs_int(b.dimensions.z as int),
            );
            labels_volume(b, labels, labels.len() as int) == b.volume()
        }),
{
    let ax = abs_int(b.dimensions.x as int);
    let ay = abs_int(b.dimensions.y as int);
    let az = abs_int(b.dimensions.z as int);
    let labels = split_labels(ax, ay, az);
    reveal_with_fuel(labels_volume, 9);
    assert forall|i: int| 0 <= i < labels.len() implies #[trigger] sub_box(b, labels[i].0, labels[i].1, labels[i].2).volume()
        == half_len(ax, labels[i].0) * half_len(ay, labels[i].1) * half_len(az, labels[i].2) by {
        lemma_sub_box_volume(b, labels[i]);
    }
    let (xf, xt, yf, yt, zf, zt) = (half_len(ax, false), half_len(ax, true), half_len(ay, false), half_len(ay, true), half_len(az, false), half_len(az, true));
    assert(xf + xt == ax && yf + yt == ay && zf + zt == az);
    assert(ax <= 1 ==> xt == 0);
    assert(ay <= 1 ==> yt == 0);
    assert(az <= 1 ==> zt == 0);
    lemma_expand_product(xf, xt, yf, yt, zf, zt);
    assert(ax * ay * az == b.volume());
    if ax > 1 && ay > 1 && az > 1 {
        assert(labels.len() == 8);
    } else {
        assert(xt * yt * zt == 0 || (ax > 1 && ay > 1 && az > 1)) by (nonlinear_arith)
            requires ax <= 1 ==> xt == 0, ay <= 1 ==> yt == 0, az <= 1 ==> zt == 0;
        assert(xt * yf * zt == 0 || (ax > 1 && az > 1)) by (nonlinear_arith)
            requires ax <= 1 ==> xt == 0, az <= 1 ==> zt == 0;
        assert(xf * yf * zt == 0 || az > 1) by (nonlinear_arith)
            requires az <= 1 ==> zt == 0;
        assert(xf * yt * zt == 0 || (ay > 1 && az > 1)) by (nonlinear_arith)
            requires ay <= 1 ==> yt == 0, az <= 1 ==> zt == 0;
        assert(xf * yt * zf == 0 || ay > 1) by (nonlinear_arith)
            requires ay <= 1 ==> yt == 0;
        assert(xt * yt * zf == 0 || (ax > 1 && ay > 1)) by (nonlinear_arith)
            requires ax <= 1 ==> xt == 0, ay <= 1 ==> yt == 0;
        assert(xt * yf * zf == 0 || ax > 1) by (nonlinear_arith)
            requires ax <= 1 ==> xt == 0;
    }
}

/// A child may take the upper half only along an axis longer than one point.
pub open spec fn label_allowed(l: (bool, bool, bool), ax: int, ay: int, az: int) -> bool {
    &&& (l.0 ==> ax > 1)
    &&& (l.1 ==> ay > 1)
    &&& (l.2 ==> az > 1)
}

proof fn lemma_split_labels(ax: int, ay: int, az: int)
    ensures
        split_labels(ax, ay, az).no_duplicates(),
        forall|i: int|
            0 <= i < split_labels(ax, ay, az).len() ==> label_allowed(
                #[trigger] split_labels(ax, ay, az)[i],
                ax,
                ay,
                az,
            ),
        forall|l: (bool, bool, bool)|
            label_allowed(l, ax, ay, az) ==> #[trigger] split_labels(ax, ay, az).contains(l),
{
    broadcast use vstd::seq_lib::group_seq_properties;

    let s = split_labels(ax, ay, az);
    let a = ax > 1;
    let b = ay > 1;
    let c = az > 1;
    let fff = (false, false, false);
    let tff = (true, false, false);
    let tft = (true, false, true);
    let ttt = (true, true, true);
    let fft = (false, false, true);
    let ftt = (false, true, true);
    let ftf = (false, true, false);
    let ttf = (true, true, false);
    if a && b && c {
        assert(s =~= seq![fff, tff, tft, ttt, fft, ftt, ftf, ttf]);
        assert(s[0] == fff && s[1] == tff && s[2] == tft && s[3] == ttt && s[4] == fft && s[5] == ftt && s[6] == ftf && s[7] == ttf);
    } else if a && b && !c {
        assert(s =~= seq![fff, tff, ftf, ttf]);
        assert(s[0] == fff && s[1] == tff && s[2] == ftf && s[3] == ttf);
    } else if a && !b && c {
        assert(s =~= seq![fff, tff, tft, fft]);
        assert(s[0] == fff && s[1] == tff && s[2] == tft && s[3] == fft);
    } else if a && !b && !c {
        assert(s =~= seq![fff, tff]);
        assert(s[0] == fff && s[1] == tff);
    } else if !a && b && c {
        assert(s =~= seq![fff, fft, ftt, ftf]);
        assert(s[0] == fff && s[1] == fft && s[2] == ftt && s[3] == ftf);
    } else if !a && b && !c {
        assert(s =~= seq![fff, ftf]);
        assert(s[0] == fff && s[1] == ftf);
    } else if !a && !b && c {
        assert(s =~= seq![fff, fft]);
        assert(s[0] == fff && s[1] == fft);
    } else {
        assert(s =~= seq![fff]);
        assert(s[0] == fff);
    }
    assert forall|l: (bool, bool, bool)| label_allowed(l, ax, ay, az) implies #[trigger] s.contains(l) by {
        assert(l == (l.0, l.1, l.2));
    }
}

/// One half of an axis: its bounds fit, it lies inside the axis, and it is shorter than the
/// axis when the axis is longer than one point.
proof fn lemma_part(m: int, ad: int, upper: bool)
    requires
        1 <= ad <= i32::MAX,
        upper ==> ad > 1,
        i32::MIN <= m,
        m + ad <= i32::MAX,
    ensures
        crate::aabb::extents_axis_ok(part_lo(m, ad, upper), part_hi(m, ad, upper)),
        m <= part_lo(m, ad, upper) <= part_hi(m, ad, upper) <= m + ad - 1,
        part_hi(m, ad, upper) < i32::MAX,
        part_hi(m, ad, upper) - part_lo(m, ad, upper) + 1 <= ad,
        ad > 1 ==> part_hi(m, ad, upper) - part_lo(m, ad, upper) + 1 < ad,
        ad > 1 ==> part_hi(m, ad, false) < part_lo(m, ad, true),
        ad == 1 ==> part_lo(m, ad, false) == m && part_hi(m, ad, false) == m,
{
    let h = ad / 2;
    assert(0 <= h && 2 * h <= ad && ad <= 2 * h + 1);
    let lo = part_lo(m, ad, upper);
    let hi = part_hi(m, ad, upper);
    let len = hi - lo + 1;
    assert(1 <= len <= ad);
    assert(crate::aabb::trunc_half(len) == len / 2);
    assert(0 <= len / 2 <= len);
    assert(m <= lo && hi <= m + ad - 1);
    assert(crate::point::fits_i32(hi - lo));
    assert(crate::point::fits_i32(hi - lo + 1));
    assert(crate::point::fits_i32(lo + crate::aabb::trunc_half(hi - lo + 1)));
}

/// A box splits into children that lie inside it, are smaller than it, do not overlap, and
/// together cover it.
proof fn lemma_sub_box(b: AABB, l: (bool, bool, bool))
    requires
        b.well_sized(),
        abs_int(b.dimensions.x as int) >= 1,
        abs_int(b.dimensions.y as int) >= 1,
        abs_int(b.dimensions.z as int) >= 1,
        label_allowed(
            l,
            abs_int(b.dimensions.x as int),
            abs_int(b.dimensions.y as int),
            abs_int(b.dimensions.z as int),
        ),
    ensures
        sub_box(b, l.0, l.1, l.2).well_sized(),
        b.encloses(sub_box(b, l.0, l.1, l.2)),
        splittable(b) ==> box_measure(sub_box(b, l.0, l.1, l.2)) < box_measure(b),
        sub_box(b, l.0, l.1, l.2).min_x() == part_lo(b.min_x(), abs_int(b.dimensions.x as int), l.0),
        sub_box(b, l.0, l.1, l.2).min_y() == part_lo(b.min_y(), abs_int(b.dimensions.y as int), l.1),
        sub_box(b, l.0, l.1, l.2).min_z() == part_lo(b.min_z(), abs_int(b.dimensions.z as int), l.2),
        sub_box(b, l.0, l.1, l.2).max_x() == part_hi(b.min_x(), abs_int(b.dimensions.x as int), l.0),
        sub_box(b, l.0, l.1, l.2).max_y() == part_hi(b.min_y(), abs_int(b.dimensions.y as int), l.1),
        sub_box(b, l.0, l.1, l.2).max_z() == part_hi(b.min_z(), abs_int(b.dimensions.z as int), l.2),
{
    let ax = abs_int(b.dimensions.x as int);
    let ay = abs_int(b.dimensions.y as int);
    let az = abs_int(b.dimensions.z as int);
    lemma_part(b.min_x(), ax, l.0);
    lemma_part(b.min_y(), ay, l.1);
    lemma_part(b.min_z(), az, l.2);
    let lo = Point {
        x: part_lo(b.min_x(), ax, l.0) as i32,
        y: part_lo(b.min_y(), ay, l.1) as i32,
        z: part_lo(b.min_z(), az, l.2) as i32,
    };
    let hi = Point {
        x: part_hi(b.min_x(), ax, l.0) as i32,
        y: part_hi(b.min_y(), ay, l.1) as i32,
        z: part_hi(b.min_z(), az, l.2) as i32,
    };
    assert(sub_box(b, l.0, l.1, l.2) == AABB::extents_spec(lo, hi));
    crate::aabb::lemma_extents_round_trip(lo, hi);
}

/// Which tiles a removal takes away: one tile, or all tiles inside a box.
pub enum Removal {
    Item(TileData),
    Range(AABB),
}

impl Removal {
    pub open spec fn valid(&self) -> bool {
        match self {
            Removal::Item(_) => true,
            Removal::Range(range) => range.well_sized(),
        }
    }

    pub open spec fn removes(&self, t: TileData) -> bool {
        match self {
            Removal::Item(item) => t == *item,
            Removal::Range(range) => range.contains_spec(t.point),
        }
    }

    pub fn removes_exec(&self, t: &TileData) -> (b: bool)
        requires
            self.valid(),
        ensures
            b == self.removes(*t),
    {
        match self {
            Removal::Item(item) => {
                let b = item.point.same(&t.point);
                proof {
                    if b {
                        TileData::lemma_eq(*item, *t);
                    }
                }
                b
            },
            Removal::Range(range) => range.contains_point(t.point),
        }
    }
}

/// A tile lies in a concatenation exactly when it lies in one of the parts.
pub proof fn lemma_seq_concat_contains(a: Seq<TileData>, b: Seq<TileData>, t: TileData)
    ensures
        (a + b).contains(t) <==> (a.contains(t) || b.contains(t)),
{
    Octree::lemma_concat_contains(a, b, t);
}

/// A region octree of tiles: every node covers a box of grid points, keeps up to
/// `max_elements` tiles of its own, and once full splits its box into up to eight
/// children that partition it. A position holds at most one tile.
#[derive(Debug)]
pub struct Octree {
    aabb: AABB,
    max_elements: usize,
    elements: Vec<TileData>,
    children: Vec<Octree>,
    paternity: Paternity,
}

impl Octree {
    /// All tiles held by this node and its descendants, node first, children in order.
    pub closed spec fn flat(self) -> Seq<TileData>
        decreases self, 0nat,
    {
        self.elements@ + Octree::flat_children(self.children@, self.children@.len())
    }

    /// The tiles held by the first `n` trees of `cs`, in order.
    pub closed spec fn flat_children(cs: Seq<Octree>, n: nat) -> Seq<TileData>
        decreases cs, n,
    {
        if n == 0 || n > cs.len() {
            Seq::empty()
        } else {
            Octree::flat_children(cs, (n - 1) as nat) + cs[n - 1].flat()
        }
    }

    /// The set of tiles in the tree.
    pub closed spec fn view(&self) -> Set<TileData> {
        self.flat().to_set()
    }

    pub closed spec fn spec_aabb(&self) -> AABB {
        self.aabb
    }

    pub closed spec fn spec_max_elements(&self) -> usize {
        self.max_elements
    }

    spec fn children_ok(self) -> bool {
        &&& forall|j: int|
            0 <= j < self.children@.len() ==> (#[trigger] self.children@[j]).aabb.well_sized()
        &&& forall|j: int|
            0 <= j < self.children@.len() ==> (#[trigger] self.children@[j]).max_elements
                == self.max_elements
        &&& forall|j: int|
            0 <= j < self.children@.len() ==> self.aabb.encloses(
                (#[trigger] self.children@[j]).aabb,
            )
        &&& forall|j: int|
            0 <= j < self.children@.len() ==> box_measure((#[trigger] self.children@[j]).aabb)
                < box_measure(self.aabb)
        &&& forall|j: int, k: int|
            0 <= j < self.children@.len() && 0 <= k < self.children@.len() && j != k
                ==> (#[trigger] self.children@[j]).aabb.disjoint(
                (#[trigger] self.children@[k]).aabb,
            )
        &&& forall|p: Point|
            #[trigger] self.aabb.contains_spec(p) ==> exists|j: int|
                0 <= j < self.children@.len() && (#[trigger] self.children@[j]).aabb.contains_spec(
                    p,
                )
    }

    spec fn local_ok(self) -> bool {
        &&& self.aabb.well_sized()
        &&& self.elements@.len() <= self.max_elements
        &&& self.elements@.no_duplicates()
        &&& forall|i: int|
            0 <= i < self.elements@.len() ==> self.aabb.contains_spec(
                (#[trigger] self.elements@[i]).point,
            )
        &&& (self.paternity == Paternity::ChildFree ==> self.children@.len() == 0)
        &&& (self.paternity == Paternity::ProudParent ==> self.children_ok())
        &&& forall|i: int, j: int|
            0 <= i < self.elements@.len() && 0 <= j < self.children@.len() ==> !(#[trigger] self.children@[j]).flat().contains(
                #[trigger] self.elements@[i],
            )
    }

    /// The tree is well formed: the invariant that every operation keeps.
    pub closed spec fn wf(self) -> bool
        decreases self, 0nat,
    {
        &&& self.local_ok()
        &&& Octree::wf_children(self.children@, self.children@.len())
    }

    /// The first `n` trees of `cs` are well formed.
    closed spec fn wf_children(cs: Seq<Octree>, n: nat) -> bool
        decreases cs, n,
    {
        if n == 0 || n > cs.len() {
            true
        } else {
            Octree::wf_children(cs, (n - 1) as nat) && cs[n - 1].wf()
        }
    }

    proof fn lemma_wf_children(cs: Seq<Octree>, n: nat)
        requires
            n <= cs.len(),
        ensures
            Octree::wf_children(cs, n) <==> forall|j: int| 0 <= j < n ==> #[trigger] cs[j].wf(),
        decreases n,
    {
        if n > 0 {
            Octree::lemma_wf_children(cs, (n - 1) as nat);
            assert(Octree::wf_children(cs, n) == (Octree::wf_children(cs, (n - 1) as nat) && cs[n
                - 1].wf()));
            if forall|j: int| 0 <= j < n ==> #[trigger] cs[j].wf() {
                assert(cs[n - 1].wf());
            }
        }
    }

    /// Unfolds well-formedness into the node's own conditions and its children's.
    proof fn lemma_wf_unfold(self)
        ensures
            self.wf() <==> (self.local_ok() && forall|j: int|
                0 <= j < self.children@.len() ==> #[trigger] self.children@[j].wf()),
    {
        Octree::lemma_wf_children(self.children@, self.children@.len());
    }

    proof fn lemma_concat_contains(a: Seq<TileData>, b: Seq<TileData>, t: TileData)
        ensures
            (a + b).contains(t) <==> (a.contains(t) || b.contains(t)),
    {
        if a.contains(t) {
            let i = choose|i: int| 0 <= i < a.len() && a[i] == t;
            assert((a + b)[i] == t);
        }
        if b.contains(t) {
            let i = choose|i: int| 0 <= i < b.len() && b[i] == t;
            assert((a + b)[a.len() + i] == t);
        }
        if (a + b).contains(t) {
            let k = choose|k: int| 0 <= k < (a + b).len() && (a + b)[k] == t;
            if k < a.len() {
                assert(a[k] == t);
            } else {
                assert(b[k - a.len()] == t);
            }
        }
    }

    proof fn lemma_flat_children_contains(cs: Seq<Octree>, n: nat, t: TileData)
        requires
            n <= cs.len(),
        ensures
            Octree::flat_children(cs, n).contains(t) <==> exists|j: int|
                0 <= j < n && (#[trigger] cs[j]).flat().contains(t),
        decreases n,
    {
        if n > 0 {
            Octree::lemma_flat_children_contains(cs, (n - 1) as nat, t);
            Octree::lemma_concat_contains(
                Octree::flat_children(cs, (n - 1) as nat),
                cs[n - 1].flat(),
                t,
            );
            if cs[n - 1].flat().contains(t) {
                assert(exists|j: int| 0 <= j < n && (#[trigger] cs[j]).flat().contains(t));
            }
        }
    }

    /// A tile is in the tree exactly when the node holds it or one of the children does.
    proof fn lemma_flat_contains(self, t: TileData)
        ensures
            self.flat().contains(t) <==> (self.elements@.contains(t) || exists|j: int|
                0 <= j < self.children@.len() && (#[trigger] self.children@[j]).flat().contains(
                    t,
                )),
    {
        Octree::lemma_flat_children_contains(self.children@, self.children@.len(), t);
        Octree::lemma_concat_contains(
            self.elements@,
            Octree::flat_children(self.children@, self.children@.len()),
            t,
        );
    }

    proof fn lemma_flat_children_no_dup(cs: Seq<Octree>, n: nat)
        requires
            n <= cs.len(),
            forall|j: int| 0 <= j < n ==> (#[trigger] cs[j]).flat().no_duplicates(),
            forall|j: int, k: int, t: TileData|
                0 <= j < n && 0 <= k < n && j != k && #[trigger] cs[j].flat().contains(t)
                    ==> !#[trigger] cs[k].flat().contains(t),
        ensures
            Octree::flat_children(cs, n).no_duplicates(),
        decreases n,
    {
        if n > 0 {
            let m = (n - 1) as nat;
            Octree::lemma_flat_children_no_dup(cs, m);
            let a = Octree::flat_children(cs, m);
            let b = cs[n - 1].flat();
            assert forall|i: int, j: int| 0 <= i < a.len() && 0 <= j < b.len() implies a[i]
                != b[j] by {
                if a[i] == b[j] {
                    assert(a.contains(a[i]));
                    Octree::lemma_flat_children_contains(cs, m, a[i]);
                    let k = choose|k: int| 0 <= k < m && (#[trigger] cs[k]).flat().contains(a[i]);
                    assert(cs[n - 1].flat().contains(b[j]));
                }
            }
            vstd::seq_lib::lemma_no_dup_in_concat(a, b);
        }
    }

    proof fn lemma_flat_children_len_mono(cs: Seq<Octree>, j: nat, n: nat)
        requires
            j <= n <= cs.len(),
        ensures
            Octree::flat_children(cs, j).len() <= Octree::flat_children(cs, n).len(),
        decreases n,
    {
        if j < n {
            Octree::lemma_flat_children_len_mono(cs, j, (n - 1) as nat);
        }
    }

    /// Facts that follow from well-formedness: no tile occurs twice and every tile
    /// lies inside the node's box.
    proof fn lemma_wf_facts(self)
        requires
            self.wf(),
        ensures
            self.flat().no_duplicates(),
            forall|t: TileData| #[trigger] self.flat().contains(t) ==> self.aabb.contains_spec(t.point),
            forall|j: int, t: TileData|
                0 <= j < self.children@.len() && #[trigger] self.children@[j].flat().contains(t)
                    ==> self.children@[j].aabb.contains_spec(t.point),
            forall|j: int, k: int, t: TileData|
                0 <= j < self.children@.len() && 0 <= k < self.children@.len() && j != k
                    && #[trigger] self.children@[j].flat().contains(t)
                    ==> !#[trigger] self.children@[k].flat().contains(t),
            forall|j: int| 0 <= j < self.children@.len() ==> #[trigger] self.children@[j].wf(),
        decreases self,
    {
        let cs = self.children@;
        self.lemma_wf_unfold();
        assert forall|j: int| 0 <= j < cs.len() implies (#[trigger] cs[j]).flat().no_duplicates()
            && (forall|t: TileData| #[trigger] cs[j].flat().contains(t) ==> cs[j].aabb.contains_spec(t.point))
        by {
            assert(self.children@[j].wf());
            cs[j].lemma_wf_facts();
        }
        assert forall|j: int, k: int, t: TileData|
            0 <= j < cs.len() && 0 <= k < cs.len() && j != k && #[trigger] cs[j].flat().contains(t)
            implies !#[trigger] cs[k].flat().contains(t) by {
            if cs[k].flat().contains(t) {
                assert(cs[j].aabb.contains_spec(t.point));
                assert(cs[k].aabb.contains_spec(t.point));
                assert(cs[j].aabb.disjoint(cs[k].aabb));
            }
        }
        Octree::lemma_flat_children_no_dup(cs, cs.len());
        let a = self.elements@;
        let b = Octree::flat_children(cs, cs.len());
        assert forall|i: int, j: int| 0 <= i < a.len() && 0 <= j < b.len() implies a[i] != b[j] by {
            if a[i] == b[j] {
                assert(b.contains(b[j]));
                Octree::lemma_flat_children_contains(cs, cs.len(), b[j]);
                let k = choose|k: int| 0 <= k < cs.len() && (#[trigger] cs[k]).flat().contains(b[j]);
                assert(!cs[k].flat().contains(a[i]));
            }
        }
        vstd::seq_lib::lemma_no_dup_in_concat(a, b);
        assert forall|t: TileData| #[trigger] self.flat().contains(t) implies self.aabb.contains_spec(t.point) by {
            self.lemma_flat_contains(t);
            if a.contains(t) {
                let i = choose|i: int| 0 <= i < a.len() && a[i] == t;
            } else {
                let k = choose|k: int| 0 <= k < cs.len() && (#[trigger] cs[k]).flat().contains(t);
                assert(self.aabb.encloses(cs[k].aabb));
            }
        }
    }

    /// `c` is an empty leaf over the child box of `b` named by `l`.
    spec fn fresh_child(c: Octree, b: AABB, l: (bool, bool, bool), max_elements: usize) -> bool {
        &&& c.aabb == sub_box(b, l.0, l.1, l.2)
        &&& c.max_elements == max_elements
        &&& c.elements@.len() == 0
        &&& c.children@.len() == 0
        &&& c.paternity == Paternity::ChildFree
    }

    proof fn lemma_fresh_child(c: Octree, b: AABB, l: (bool, bool, bool), max_elements: usize)
        requires
            Octree::fresh_child(c, b, l, max_elements),
            c.aabb.well_sized(),
        ensures
            c.wf(),
            c.flat() =~= Seq::<TileData>::empty(),
    {
        c.lemma_wf_unfold();
    }

    /// The children built from the split labels partition the parent box.
    /// `children` are the children a split of `b` makes: one per combination of the halves of
    /// its axes, each a fresh empty node over its part of the box, with the volumes of the
    /// parts adding up to the box's.
    #[verifier::opaque]
    spec fn split_as_labelled(b: AABB, max_elements: usize, children: Seq<Octree>) -> bool {
        let labels = split_labels(
            abs_int(b.dimensions.x as int),
            abs_int(b.dimensions.y as int),
            abs_int(b.dimensions.z as int),
        );
        &&& children.len() == labels.len()
        &&& children.len() == halves(abs_int(b.dimensions.x as int)) * halves(abs_int(b.dimensions.y as int))
            * halves(abs_int(b.dimensions.z as int))
        &&& forall|j: int| 0 <= j < children.len() ==> Octree::fresh_child(#[trigger] children[j], b, labels[j], max_elements)
        &&& labels_volume(b, labels, children.len() as int) == b.volume()
    }

    proof fn lemma_split_children(b: AABB, kids: Seq<Octree>, max_elements: usize)
        requires
            b.well_sized(),
            abs_int(b.dimensions.x as int) >= 1,
            abs_int(b.dimensions.y as int) >= 1,
            abs_int(b.dimensions.z as int) >= 1,
            kids.len() == split_labels(
                abs_int(b.dimensions.x as int),
                abs_int(b.dimensions.y as int),
                abs_int(b.dimensions.z as int),
            ).len(),
            forall|i: int|
                0 <= i < kids.len() ==> Octree::fresh_child(
                    #[trigger] kids[i],
                    b,
                    split_labels(
                        abs_int(b.dimensions.x as int),
                        abs_int(b.dimensions.y as int),
                        abs_int(b.dimensions.z as int),
                    )[i],
                    max_elements,
                ),
        ensures
            forall|j: int| 0 <= j < kids.len() ==> (#[trigger] kids[j]).wf(),
            forall|j: int| 0 <= j < kids.len() ==> (#[trigger] kids[j]).flat() =~= Seq::<TileData>::empty(),
            forall|j: int| 0 <= j < kids.len() ==> (#[trigger] kids[j]).max_elements == max_elements,
            forall|j: int| 0 <= j < kids.len() ==> b.encloses((#[trigger] kids[j]).aabb),
            splittable(b) ==> forall|j: int| 0 <= j < kids.len() ==> box_measure((#[trigger] kids[j]).aabb) < box_measure(b),
            forall|j: int, k: int|
                0 <= j < kids.len() && 0 <= k < kids.len() && j != k
                    ==> (#[trigger] kids[j]).aabb.disjoint((#[trigger] kids[k]).aabb),
            forall|p: Point|
                #[trigger] b.contains_spec(p) ==> exists|j: int|
                    0 <= j < kids.len() && (#[trigger] kids[j]).aabb.contains_spec(p),
    {
        let ax = abs_int(b.dimensions.x as int);
        let ay = abs_int(b.dimensions.y as int);
        let az = abs_int(b.dimensions.z as int);
        let labs = split_labels(ax, ay, az);
        lemma_split_labels(ax, ay, az);
        assert forall|j: int| 0 <= j < kids.len() implies (#[trigger] kids[j]).wf()
            && kids[j].flat() =~= Seq::<TileData>::empty()
            && b.encloses(kids[j].aabb)
            && (splittable(b) ==> box_measure(kids[j].aabb) < box_measure(b)) by {
            lemma_sub_box(b, labs[j]);
            Octree::lemma_fresh_child(kids[j], b, labs[j], max_elements);
        }
        assert forall|j: int, k: int|
            0 <= j < kids.len() && 0 <= k < kids.len() && j != k
                implies (#[trigger] kids[j]).aabb.disjoint((#[trigger] kids[k]).aabb) by {
            let lj = labs[j];
            let lk = labs[k];
            lemma_sub_box(b, lj);
            lemma_sub_box(b, lk);
            assert(lj != lk);
            if lj.0 != lk.0 {
                lemma_part(b.min_x(), ax, lj.0);
            } else if lj.1 != lk.1 {
                lemma_part(b.min_y(), ay, lj.1);
            } else {
                assert(lj.2 != lk.2) by {
                    if lj.2 == lk.2 {
                        assert(lj == (lj.0, lj.1, lj.2));
                        assert(lk == (lk.0, lk.1, lk.2));
                    }
                }
                lemma_part(b.min_z(), az, lj.2);
            }
        }
        assert forall|p: Point| #[trigger] b.contains_spec(p) implies exists|j: int|
            0 <= j < kids.len() && (#[trigger] kids[j]).aabb.contains_spec(p) by {
            let l = (
                ax > 1 && p.x >= split_at(b.min_x(), ax),
                ay > 1 && p.y >= split_at(b.min_y(), ay),
                az > 1 && p.z >= split_at(b.min_z(), az),
            );
            assert(label_allowed(l, ax, ay, az));
            assert(labs.contains(l));
            let j = choose|j: int| 0 <= j < labs.len() && labs[j] == l;
            lemma_sub_box(b, l);
            lemma_part(b.min_x(), ax, l.0);
            lemma_part(b.min_y(), ay, l.1);
            lemma_part(b.min_z(), az, l.2);
            assert(kids[j].aabb.contains_spec(p));
        }
    }

    /// An empty leaf over the child box of the box with lowest corner `min`, highest corner
    /// `max` and lower-half lengths minus one `lh`, taking the halves named by the flags.
    fn new_child(
        b: &AABB,
        min: Point,
        max: Point,
        lh: Point,
        hx: bool,
        hy: bool,
        hz: bool,
        max_elements: usize,
    ) -> (r: Octree)
        requires
            b.well_sized(),
            abs_int(b.dimensions.x as int) >= 1,
            abs_int(b.dimensions.y as int) >= 1,
            abs_int(b.dimensions.z as int) >= 1,
            label_allowed(
                (hx, hy, hz),
                abs_int(b.dimensions.x as int),
                abs_int(b.dimensions.y as int),
                abs_int(b.dimensions.z as int),
            ),
            min.x == b.min_x() && min.y == b.min_y() && min.z == b.min_z(),
            max.x == b.max_x() && max.y == b.max_y() && max.z == b.max_z(),
            lh.x == abs_int(b.dimensions.x as int) - abs_int(b.dimensions.x as int) / 2 - 1,
            lh.y == abs_int(b.dimensions.y as int) - abs_int(b.dimensions.y as int) / 2 - 1,
            lh.z == abs_int(b.dimensions.z as int) - abs_int(b.dimensions.z as int) / 2 - 1,
        ensures
            Octree::fresh_child(r, *b, (hx, hy, hz), max_elements),
            r.aabb.well_sized(),
    {
        proof {
            lemma_part(b.min_x(), abs_int(b.dimensions.x as int), hx);
            lemma_part(b.min_y(), abs_int(b.dimensions.y as int), hy);
            lemma_part(b.min_z(), abs_int(b.dimensions.z as int), hz);
            lemma_part(b.min_x(), abs_int(b.dimensions.x as int), false);
            lemma_part(b.min_y(), abs_int(b.dimensions.y as int), false);
            lemma_part(b.min_z(), abs_int(b.dimensions.z as int), false);
            lemma_sub_box(*b, (hx, hy, hz));
        }
        let lo = Point::new(
            if hx { min.x + lh.x + 1 } else { min.x },
            if hy { min.y + lh.y + 1 } else { min.y },
            if hz { min.z + lh.z + 1 } else { min.z },
        );
        let hi = Point::new(
            if hx { max.x } else { min.x + lh.x },
            if hy { max.y } else { min.y + lh.y },
            if hz { max.z } else { min.z + lh.z },
        );
        let aabb = AABB::from_extents(lo, hi);
        Octree {
            aabb,
            max_elements,
            elements: Vec::new(),
            children: Vec::new(),
            paternity: Paternity::ChildFree,
        }
    }

    /// Splits a leaf into children that partition its box: every position of the box lies in
    /// exactly one child, and no child reaches outside it (a single-position box gets one child
    /// equal to it). The children are empty, with the node's capacity; the node keeps its own
    /// tiles. Where the box spans more than one position the children are smaller than it and
    /// the tree stays well formed.
    #[verifier::rlimit(50)]
    #[verifier::spinoff_prover]
    fn subdivide(&mut self)
        requires
            old(self).local_ok(),
            old(self).paternity == Paternity::ChildFree,
            abs_int(old(self).aabb.dimensions.x as int) >= 1,
            abs_int(old(self).aabb.dimensions.y as int) >= 1,
            abs_int(old(self).aabb.dimensions.z as int) >= 1,
        ensures
            final(self).aabb == old(self).aabb,
            final(self).max_elements == old(self).max_elements,
            final(self).elements == old(self).elements,
            final(self).paternity == Paternity::ProudParent,
            splittable(old(self).aabb) ==> final(self).wf(),
            final(self).flat() =~= old(self).flat(),
            Octree::split_as_labelled(old(self).aabb, old(self).max_elements, final(self).children@),
            forall|j: int| 0 <= j < final(self).children@.len() ==> (#[trigger] final(self).children@[j]).wf()
                && final(self).children@[j]@ == Set::<TileData>::empty()
                && final(self).children@[j].max_elements == old(self).max_elements
                && old(self).aabb.encloses(final(self).children@[j].aabb),
            forall|j: int, k: int|
                0 <= j < final(self).children@.len() && 0 <= k < final(self).children@.len() && j != k
                    ==> (#[trigger] final(self).children@[j]).aabb.disjoint((#[trigger] final(self).children@[k]).aabb),
            forall|p: Point|
                #[trigger] old(self).aabb.contains_spec(p) ==> exists|j: int|
                    0 <= j < final(self).children@.len() && (#[trigger] final(self).children@[j]).aabb.contains_spec(p),
    {
        let b = self.aabb;
        let max_elements = self.max_elements;
        let min = b.get_min();
        let max = b.get_max();
        let ax = crate::aabb::abs_i32(b.dimensions.x);
        let ay = crate::aabb::abs_i32(b.dimensions.y);
        let az = crate::aabb::abs_i32(b.dimensions.z);
        let lh = Point::new(ax - ax / 2 - 1, ay - ay / 2 - 1, az - az / 2 - 1);
        let mut kids: Vec<Octree> = Vec::new();
        let ghost mut labs: Seq<(bool, bool, bool)> = Seq::empty();
        kids.push(Octree::new_child(&b, min, max, lh, false, false, false, max_elements));
        proof { labs = labs.push((false, false, false)); }
        if ax > 1 {
            kids.push(Octree::new_child(&b, min, max, lh, true, false, false, max_elements));
            proof { labs = labs.push((true, false, false)); }
            if az > 1 {
                kids.push(Octree::new_child(&b, min, max, lh, true, false, true, max_elements));
                proof { labs = labs.push((true, false, true)); }
                if ay > 1 {
                    kids.push(Octree::new_child(&b, min, max, lh, true, true, true, max_elements));
                    proof { labs = labs.push((true, true, true)); }
                }
            }
        }
        if az > 1 {
            kids.push(Octree::new_child(&b, min, max, lh, false, false, true, max_elements));
            proof { labs = labs.push((false, false, true)); }
            if ay > 1 {
                kids.push(Octree::new_child(&b, min, max, lh, false, true, true, max_elements));
                proof { labs = labs.push((false, true, true)); }
            }
        }
        if ay > 1 {
            kids.push(Octree::new_child(&b, min, max, lh, false, true, false, max_elements));
            proof { labs = labs.push((false, true, false)); }
            if ax > 1 {
                kids.push(Octree::new_child(&b, min, max, lh, true, true, false, max_elements));
                proof { labs = labs.push((true, true, false)); }
            }
        }
        proof {
            assert(labs =~= split_labels(ax as int, ay as int, az as int));
            Octree::lemma_split_children(b, kids@, max_elements);
            lemma_split_count(ax as int, ay as int, az as int);
            lemma_split_volume(b);
            reveal(Octree::split_as_labelled);
            assert(Octree::split_as_labelled(b, max_elements, kids@));
        }
        self.children = kids;
        self.paternity = Paternity::ProudParent;
        proof {
            assert(Octree::flat_children(self.children@, self.children@.len()) =~= Seq::<TileData>::empty()) by {
                Octree::lemma_flat_children_empty(self.children@, self.children@.len());
            }
            assert(self.flat() =~= old(self).flat());
            assert forall|j: int| 0 <= j < self.children@.len() implies (#[trigger] self.children@[j])@
                == Set::<TileData>::empty() by {
                self.children@[j].lemma_view_in_bounds();
                assert(self.children@[j]@ =~= Set::<TileData>::empty());
            }
            if splittable(b) {
                assert(self.children_ok());
                self.lemma_wf_unfold();
            }
        }
    }

    proof fn lemma_flat_children_empty(cs: Seq<Octree>, n: nat)
        requires
            n <= cs.len(),
            forall|j: int| 0 <= j < n ==> (#[trigger] cs[j]).flat() =~= Seq::<TileData>::empty(),
        ensures
            Octree::flat_children(cs, n) =~= Seq::<TileData>::empty(),
        decreases n,
    {
        if n > 0 {
            Octree::lemma_flat_children_empty(cs, (n - 1) as nat);
        }
    }

    proof fn lemma_after_push(old_self: Octree, new_self: Octree, element: TileData)
        requires
            old_self.wf(),
            new_self.aabb == old_self.aabb,
            new_self.max_elements == old_self.max_elements,
            new_self.paternity == old_self.paternity,
            new_self.children == old_self.children,
            new_self.elements@ == old_self.elements@.push(element),
            old_self.elements@.len() < old_self.max_elements,
            !old_self.elements@.contains(element),
            old_self.aabb.contains_spec(element.point),
            forall|k: int|
                0 <= k < old_self.children@.len() ==> !(#[trigger] old_self.children@[k]).flat().contains(
                    element,
                ),
        ensures
            new_self.wf(),
            new_self@ == old_self@.insert(element),
    {
        old_self.lemma_wf_unfold();
        let e = old_self.elements@;
        vstd::seq_lib::lemma_no_dup_in_concat(e, seq![element]);
        assert(e.push(element) =~= e + seq![element]);
        assert forall|x: int|
            0 <= x < new_self.elements@.len() implies new_self.aabb.contains_spec(
            (#[trigger] new_self.elements@[x]).point) by {
            if x < e.len() {
                assert(new_self.elements@[x] == e[x]);
            }
        }
        assert forall|x: int, k: int|
            0 <= x < new_self.elements@.len() && 0 <= k < new_self.children@.len()
            implies !(#[trigger] new_self.children@[k]).flat().contains(
            #[trigger] new_self.elements@[x]) by {
            if x < e.len() {
                assert(new_self.elements@[x] == e[x]);
            }
        }
        assert(new_self.children_ok() == old_self.children_ok());
        assert(new_self.local_ok());
        new_self.lemma_wf_unfold();
        assert forall|t: TileData| new_self.flat().contains(t) <==> (old_self.flat().contains(t) || t == element) by {
            new_self.lemma_flat_contains(t);
            old_self.lemma_flat_contains(t);
            Octree::lemma_concat_contains(e, seq![element], t);
            if t == element {
                assert(seq![element][0] == element);
            }
        }
        assert(new_self@ =~= old_self@.insert(element));
    }

    proof fn lemma_after_child_insert(
        old_self: Octree,
        mid: Octree,
        new_self: Octree,
        j: int,
        old_child: Octree,
        child: Octree,
        element: TileData,
    )
        requires
            mid.wf(),
            mid.paternity == Paternity::ProudParent,
            forall|t: TileData| mid.flat().contains(t) <==> old_self.flat().contains(t),
            0 <= j < mid.children@.len(),
            old_child == mid.children@[j],
            child.wf(),
            child.aabb == old_child.aabb,
            child.max_elements == old_child.max_elements,
            child@ == old_child@.insert(element),
            new_self.aabb == mid.aabb,
            new_self.max_elements == mid.max_elements,
            new_self.paternity == mid.paternity,
            new_self.elements == mid.elements,
            new_self.children@ == mid.children@.update(j, child),
            !mid.elements@.contains(element),
        ensures
            new_self.wf(),
            new_self@ == old_self@.insert(element),
    {
        mid.lemma_wf_unfold();
        mid.lemma_wf_facts();
        assert forall|t: TileData| child.flat().contains(t) <==> (old_child.flat().contains(t) || t == element) by {
            assert(child@.contains(t) <==> child.flat().contains(t));
            assert(old_child@.contains(t) <==> old_child.flat().contains(t));
        }
        assert forall|k: int| 0 <= k < new_self.children@.len() implies (#[trigger] new_self.children@[k]).wf() by {
            if k != j {
                assert(new_self.children@[k] == mid.children@[k]);
            }
        }
        assert forall|k: int| 0 <= k < new_self.children@.len() implies (#[trigger] new_self.children@[k]).aabb == mid.children@[k].aabb
            && new_self.children@[k].max_elements == mid.children@[k].max_elements by {
            if k != j {
                assert(new_self.children@[k] == mid.children@[k]);
            }
        }
        assert(mid.children_ok());
        assert(new_self.children_ok()) by {
            assert forall|p: Point| #[trigger] new_self.aabb.contains_spec(p) implies exists|k: int|
                0 <= k < new_self.children@.len() && (#[trigger] new_self.children@[k]).aabb.contains_spec(p) by {
                let k = choose|k: int| 0 <= k < mid.children@.len() && (#[trigger] mid.children@[k]).aabb.contains_spec(p);
                assert(new_self.children@[k].aabb.contains_spec(p));
            }
        }
        assert forall|x: int, k: int|
            0 <= x < new_self.elements@.len() && 0 <= k < new_self.children@.len()
            implies !(#[trigger] new_self.children@[k]).flat().contains(#[trigger] new_self.elements@[x]) by {
            if k != j {
                assert(new_self.children@[k] == mid.children@[k]);
            } else {
                assert(!mid.children@[k].flat().contains(new_self.elements@[x]));
                assert(mid.elements@.contains(new_self.elements@[x]));
            }
        }
        assert(new_self.local_ok());
        new_self.lemma_wf_unfold();
        assert forall|t: TileData| new_self.flat().contains(t) <==> (old_self.flat().contains(t) || t == element) by {
            new_self.lemma_flat_contains(t);
            mid.lemma_flat_contains(t);
            if exists|k: int| 0 <= k < new_self.children@.len() && (#[trigger] new_self.children@[k]).flat().contains(t) {
                let k = choose|k: int| 0 <= k < new_self.children@.len() && (#[trigger] new_self.children@[k]).flat().contains(t);
                if k != j {
                    assert(mid.children@[k].flat().contains(t));
                }
            }
            if mid.flat().contains(t) && !mid.elements@.contains(t) {
                let k = choose|k: int| 0 <= k < mid.children@.len() && (#[trigger] mid.children@[k]).flat().contains(t);
                assert(new_self.children@[k].flat().contains(t));
            }
            if t == element {
                assert(new_self.children@[j].flat().contains(t));
            }
        }
        assert(new_self@ =~= old_self@.insert(element));
    }

    /// Two nodes that agree on every field up to the contents of their vectors agree on
    /// well-formedness and contents.
    proof fn lemma_same_views(a: Octree, b: Octree)
        requires
            a.aabb == b.aabb,
            a.max_elements == b.max_elements,
            a.paternity == b.paternity,
            a.elements@ == b.elements@,
            a.children@ == b.children@,
        ensures
            a.wf() == b.wf(),
            a.flat() == b.flat(),
            a@ == b@,
    {
        a.lemma_wf_unfold();
        b.lemma_wf_unfold();
    }

    /// Position in the node's own list of the tile at `pt`, if there is one.
    fn find_element(&self, pt: Point) -> (r: Option<usize>)
        ensures
            r matches Some(i) ==> i < self.elements@.len() && self.elements@[i as int].point == pt,
            r is None ==> forall|k: int| 0 <= k < self.elements@.len() ==> (#[trigger] self.elements@[k]).point != pt,
    {
        let n = self.elements.len();
        let mut i: usize = 0;
        while i < n
            invariant
                n == self.elements@.len(),
                i <= n,
                forall|k: int| 0 <= k < i ==> (#[trigger] self.elements@[k]).point != pt,
            decreases n - i,
        {
            if self.elements[i].point.same(&pt) {
                return Some(i);
            }
            i += 1;
        }
        None
    }

    proof fn lemma_after_removal(old_self: Octree, new_self: Octree)
        requires
            old_self.wf(),
            new_self.aabb == old_self.aabb,
            new_self.max_elements == old_self.max_elements,
            new_self.paternity == old_self.paternity,
            new_self.elements@.no_duplicates(),
            forall|t: TileData| new_self.elements@.contains(t) ==> old_self.elements@.contains(t),
            new_self.children@.len() == old_self.children@.len(),
            forall|k: int|
                0 <= k < new_self.children@.len() ==> (#[trigger] new_self.children@[k]).wf()
                    && new_self.children@[k].aabb == old_self.children@[k].aabb
                    && new_self.children@[k].max_elements == old_self.children@[k].max_elements,
            forall|k: int, t: TileData|
                0 <= k < new_self.children@.len() && #[trigger] new_self.children@[k].flat().contains(t)
                    ==> old_self.children@[k].flat().contains(t),
        ensures
            new_self.wf(),
    {
        old_self.lemma_wf_unfold();
        assert(new_self.elements@.len() <= old_self.elements@.len()) by {
            new_self.elements@.unique_seq_to_set();
            old_self.elements@.unique_seq_to_set();
            assert(new_self.elements@.to_set().subset_of(old_self.elements@.to_set()));
            vstd::set_lib::lemma_len_subset(new_self.elements@.to_set(), old_self.elements@.to_set());
        }
        assert forall|x: int| 0 <= x < new_self.elements@.len() implies new_self.aabb.contains_spec(
            (#[trigger] new_self.elements@[x]).point) by {
            assert(new_self.elements@.contains(new_self.elements@[x]));
            let y = choose|y: int| 0 <= y < old_self.elements@.len() && old_self.elements@[y] == new_self.elements@[x];
        }
        assert forall|x: int, k: int|
            0 <= x < new_self.elements@.len() && 0 <= k < new_self.children@.len()
            implies !(#[trigger] new_self.children@[k]).flat().contains(#[trigger] new_self.elements@[x]) by {
            let t = new_self.elements@[x];
            assert(new_self.elements@.contains(t));
            let y = choose|y: int| 0 <= y < old_self.elements@.len() && old_self.elements@[y] == t;
            assert(!old_self.children@[k].flat().contains(old_self.elements@[y]));
        }
        if new_self.paternity == Paternity::ProudParent {
            assert(old_self.children_ok());
            assert(new_self.children_ok()) by {
                assert forall|p: Point| #[trigger] new_self.aabb.contains_spec(p) implies exists|k: int|
                    0 <= k < new_self.children@.len() && (#[trigger] new_self.children@[k]).aabb.contains_spec(p) by {
                    let k = choose|k: int| 0 <= k < old_self.children@.len() && (#[trigger] old_self.children@[k]).aabb.contains_spec(p);
                    assert(new_self.children@[k].aabb.contains_spec(p));
                }
            }
        }
        assert(new_self.local_ok());
        new_self.lemma_wf_unfold();
    }

    /// The tiles of `v` that `removal` does not take away, in order.
    fn retain_elements(v: &Vec<TileData>, removal: &Removal) -> (r: Vec<TileData>)
        requires
            v@.no_duplicates(),
            removal.valid(),
        ensures
            r@.no_duplicates(),
            forall|t: TileData| #[trigger] r@.contains(t) <==> (v@.contains(t) && !removal.removes(t)),
    {
        let mut r: Vec<TileData> = Vec::new();
        let n = v.len();
        let mut i: usize = 0;
        while i < n
            invariant
                n == v@.len(),
                i <= n,
                v@.no_duplicates(),
                removal.valid(),
                r@.no_duplicates(),
                forall|t: TileData| #[trigger] r@.contains(t) <==> (v@.subrange(0, i as int).contains(t) && !removal.removes(t)),
            decreases n - i,
        {
            let e = v[i];
            let ghost prev = r@;
            let ghost sub = v@.subrange(0, i as int);
            proof {
                assert(v@.subrange(0, i + 1) =~= sub.push(e));
                if sub.contains(e) {
                    let k = choose|k: int| 0 <= k < i && sub[k] == e;
                    assert(v@[k] == v@[i as int]);
                    assert(false);
                }
                assert forall|a: int| 0 <= a < prev.len() implies prev[a] != e by {
                    assert(prev.contains(prev[a]));
                }
                vstd::seq_lib::lemma_no_dup_in_concat(prev, seq![e]);
                assert(prev.push(e) =~= prev + seq![e]);
                assert forall|t: TileData| sub.push(e).contains(t) <==> (sub.contains(t) || t == e) by {
                    Octree::lemma_concat_contains(sub, seq![e], t);
                    assert(sub.push(e) =~= sub + seq![e]);
                    if t == e {
                        assert(seq![e][0] == e);
                    }
                }
                assert forall|t: TileData| prev.push(e).contains(t) <==> (prev.contains(t) || t == e) by {
                    Octree::lemma_concat_contains(prev, seq![e], t);
                    if t == e {
                        assert(seq![e][0] == e);
                    }
                }
            }
            let drop = removal.removes_exec(&e);
            if !drop {
                r.push(e);
            }
            i += 1;
            proof {
                assert forall|t: TileData|
                    #[trigger] r@.contains(t) <==> (v@.subrange(0, i as int).contains(t) && !removal.removes(t)) by {
                    assert(v@.subrange(0, i as int) =~= sub.push(e));
                    assert(sub.push(e).contains(t) <==> (sub.contains(t) || t == e));
                    assert(prev.contains(t) <==> (sub.contains(t) && !removal.removes(t)));
                    if !drop {
                        assert(r@ == prev.push(e));
                        assert(prev.push(e).contains(t) <==> (prev.contains(t) || t == e));
                    } else {
                        assert(r@ == prev);
                    }
                }
            }
        }
        assert(v@.subrange(0, n as int) =~= v@);
        r
    }

    /// Takes away every tile that `removal` selects.
    #[verifier::loop_isolation(false)]
    #[verifier::rlimit(25)]
    fn remove_where(&mut self, removal: &Removal)
        requires
            old(self).wf(),
            removal.valid(),
        ensures
            final(self).wf(),
            final(self).aabb == old(self).aabb,
            final(self).max_elements == old(self).max_elements,
            forall|t: TileData| #[trigger] final(self).flat().contains(t) <==> (old(self).flat().contains(t) && !removal.removes(t)),
        decreases box_measure(old(self).aabb),
    {
        let ghost old_self = *self;
        proof {
            old_self.lemma_wf_unfold();
            old_self.lemma_wf_facts();
        }
        if let Paternity::ChildFree = self.paternity {
            if self.elements.len() == 0 {
                proof {
                    assert forall|t: TileData| old_self.flat().contains(t) implies !removal.removes(t) by {
                        old_self.lemma_flat_contains(t);
                    }
                }
                return;
            }
        }
        let kept = Octree::retain_elements(&self.elements, removal);
        let ghost kept_v = kept@;
        self.elements = kept;
        assert(self.elements@ == kept_v);
        assert forall|t: TileData| self.elements@.contains(t) <==> (old_self.elements@.contains(t) && !removal.removes(t)) by {
            assert(kept_v.contains(t) <==> (old_self.elements@.contains(t) && !removal.removes(t)));
        }
        let n = self.children.len();
        let mut j: usize = 0;
        while j < n
            invariant
                n == self.children@.len(),
                n == old_self.children@.len(),
                j <= n,
                removal.valid(),
                self.aabb == old_self.aabb,
                self.max_elements == old_self.max_elements,
                self.paternity == old_self.paternity,
                forall|t: TileData| #[trigger] self.elements@.contains(t) <==> (old_self.elements@.contains(t) && !removal.removes(t)),
                self.elements@.no_duplicates(),
                forall|k: int| j <= k < n ==> self.children@[k] == old_self.children@[k],
                forall|k: int|
                    0 <= k < j ==> (#[trigger] self.children@[k]).wf()
                        && self.children@[k].aabb == old_self.children@[k].aabb
                        && self.children@[k].max_elements == old_self.children@[k].max_elements,
                forall|k: int, t: TileData|
                    0 <= k < j ==> (#[trigger] self.children@[k].flat().contains(t) <==> (
                        old_self.children@[k].flat().contains(t) && !removal.removes(t))),
            decreases n - j,
        {
            proof {
                assert(old_self.paternity == Paternity::ProudParent) by {
                    if old_self.paternity == Paternity::ChildFree {
                        assert(old_self.children@.len() == 0);
                    }
                }
                assert(old_self.children_ok());
                assert(box_measure(old_self.children@[j as int].aabb) < box_measure(old_self.aabb));
                assert(old_self.children@[j as int].wf());
            }
            let ghost before = self.children@;
            let mut child = self.children.remove(j);
            child.remove_where(removal);
            self.children.insert(j, child);
            proof {
                assert(self.children@ =~= before.update(j as int, child));
            }
            j += 1;
        }
        proof {
            Octree::lemma_after_removal(old_self, *self);
            assert forall|t: TileData| #[trigger] self.flat().contains(t) <==> (old_self.flat().contains(t) && !removal.removes(t)) by {
                self.lemma_flat_contains(t);
                old_self.lemma_flat_contains(t);
                if exists|k: int| 0 <= k < self.children@.len() && (#[trigger] self.children@[k]).flat().contains(t) {
                    let k = choose|k: int| 0 <= k < self.children@.len() && (#[trigger] self.children@[k]).flat().contains(t);
                    assert(old_self.children@[k].flat().contains(t));
                }
                if old_self.flat().contains(t) && !removal.removes(t) && !old_self.elements@.contains(t) {
                    let k = choose|k: int| 0 <= k < old_self.children@.len() && (#[trigger] old_self.children@[k]).flat().contains(t);
                    assert(self.children@[k].flat().contains(t));
                }
            }
            assert(old_self == *old(self));

        }
    }

    /// Removes the tile equal to `item`, wherever it is held.
    pub fn remove_item(&mut self, item: &TileData)
        requires
            old(self).wf(),
        ensures
            final(self).wf(),
            final(self).spec_aabb() == old(self).spec_aabb(),
            final(self).spec_max_elements() == old(self).spec_max_elements(),
            final(self)@ == old(self)@.remove(*item),
    {
        let removal = Removal::Item(*item);
        self.remove_where(&removal);
        assert(final(self)@ =~= old(self)@.remove(*item));
    }

    /// Removes every tile whose position lies inside `range`.
    pub fn remove_range(&mut self, range: AABB)
        requires
            old(self).wf(),
            range.well_sized(),
        ensures
            final(self).wf(),
            final(self).spec_aabb() == old(self).spec_aabb(),
            final(self).spec_max_elements() == old(self).spec_max_elements(),
            final(self)@ == old(self)@.filter(|t: TileData| !range.contains_spec(t.point)),
    {
        let removal = Removal::Range(range);
        self.remove_where(&removal);
        assert(final(self)@ =~= old(self)@.filter(|t: TileData| !range.contains_spec(t.point)));
    }

    /// Every tile of a well-formed tree lies inside its box, and there are finitely many.
    pub proof fn lemma_view_in_bounds(&self)
        requires
            self.wf(),
        ensures
            self@.finite(),
            self.spec_aabb().well_sized(),
            forall|t: TileData| #[trigger] self@.contains(t) ==> self.spec_aabb().contains_spec(t.point),
    {
        self.lemma_wf_unfold();
        self.lemma_wf_facts();
        assert forall|t: TileData| #[trigger] self@.contains(t) implies self.spec_aabb().contains_spec(t.point) by {
            assert(self.flat().contains(t));
        }
    }

    /// All the tiles of the tree, each once.
    pub fn into_iter(self) -> (r: Vec<TileData>)
        requires
            self.wf(),
        ensures
            r@.no_duplicates(),
            forall|t: TileData| #[trigger] r@.contains(t) <==> self@.contains(t),
    {
        proof {
            self.lemma_view_in_bounds();
        }
        let aabb = self.aabb;
        self.query_range(aabb)
    }

    /// A tree over the smallest box that holds every given tile, holding exactly those tiles.
    /// With no tiles, the box is the single point at the origin.
    pub fn from_iter(items: Vec<TileData>) -> (r: Octree)
        requires
            forall|i: int|
                0 <= i < items@.len() ==> (#[trigger] items@[i]).point.x < i32::MAX
                    && items@[i].point.y < i32::MAX && items@[i].point.z < i32::MAX,
            forall|i: int, j: int|
                0 <= i < items@.len() && 0 <= j < items@.len() ==> (#[trigger] items@[j]).point.x
                    - (#[trigger] items@[i]).point.x < i32::MAX && items@[j].point.y
                    - items@[i].point.y < i32::MAX && items@[j].point.z - items@[i].point.z
                    < i32::MAX,
        ensures
            r.wf(),
            r.spec_max_elements() == DEFAULT_MAX,
            forall|t: TileData| #[trigger] r@.contains(t) <==> items@.contains(t),
            items@.len() == 0 ==> r.spec_aabb() == AABB::extents_spec(
                Point { x: 0, y: 0, z: 0 },
                Point { x: 0, y: 0, z: 0 },
            ),
            items@.len() > 0 ==> {
                &&& r.spec_aabb().dimensions.x > 0
                &&& r.spec_aabb().dimensions.y > 0
                &&& r.spec_aabb().dimensions.z > 0
                &&& forall|i: int| 0 <= i < items@.len() ==> r.spec_aabb().contains_spec((#[trigger] items@[i]).point)
                &&& exists|i: int| 0 <= i < items@.len() && (#[trigger] items@[i]).point.x == r.spec_aabb().min_x()
                &&& exists|i: int| 0 <= i < items@.len() && (#[trigger] items@[i]).point.y == r.spec_aabb().min_y()
                &&& exists|i: int| 0 <= i < items@.len() && (#[trigger] items@[i]).point.z == r.spec_aabb().min_z()
                &&& exists|i: int| 0 <= i < items@.len() && (#[trigger] items@[i]).point.x == r.spec_aabb().max_x()
                &&& exists|i: int| 0 <= i < items@.len() && (#[trigger] items@[i]).point.y == r.spec_aabb().max_y()
                &&& exists|i: int| 0 <= i < items@.len() && (#[trigger] items@[i]).point.z == r.spec_aabb().max_z()
            },
    {
        let n = items.len();
        let mut smallest = Point::new(i32::MAX, i32::MAX, i32::MAX);
        let mut largest = Point::new(i32::MIN, i32::MIN, i32::MIN);
        let ghost mut wit: (int, int, int, int, int, int) = (0, 0, 0, 0, 0, 0);
        let mut i: usize = 0;
        while i < n
            invariant
                n == items@.len(),
                i <= n,
                forall|k: int|
                    0 <= k < i ==> smallest.x <= (#[trigger] items@[k]).point.x <= largest.x
                        && smallest.y <= items@[k].point.y <= largest.y && smallest.z
                        <= items@[k].point.z <= largest.z,
                i > 0 ==> (0 <= wit.0 < i && items@[wit.0].point.x == smallest.x),
                i > 0 ==> (0 <= wit.1 < i && items@[wit.1].point.y == smallest.y),
                i > 0 ==> (0 <= wit.2 < i && items@[wit.2].point.z == smallest.z),
                i > 0 ==> (0 <= wit.3 < i && items@[wit.3].point.x == largest.x),
                i > 0 ==> (0 <= wit.4 < i && items@[wit.4].point.y == largest.y),
                i > 0 ==> (0 <= wit.5 < i && items@[wit.5].point.z == largest.z),
            decreases n - i,
        {
            let p = items[i].point;
            if i == 0 || p.x < smallest.x {
                smallest.x = p.x;
                proof { wit.0 = i as int; }
            }
            if i == 0 || p.y < smallest.y {
                smallest.y = p.y;
                proof { wit.1 = i as int; }
            }
            if i == 0 || p.z < smallest.z {
                smallest.z = p.z;
                proof { wit.2 = i as int; }
            }
            if i == 0 || p.x > largest.x {
                largest.x = p.x;
                proof { wit.3 = i as int; }
            }
            if i == 0 || p.y > largest.y {
                largest.y = p.y;
                proof { wit.4 = i as int; }
            }
            if i == 0 || p.z > largest.z {
                largest.z = p.z;
                proof { wit.5 = i as int; }
            }
            i += 1;
        }
        if n == 0 {
            smallest = Point::zeros();
            largest = Point::zeros();
        }
        proof {
            if n > 0 {
                assert(items@[wit.3].point.x - items@[wit.0].point.x < i32::MAX);
                assert(items@[wit.4].point.y - items@[wit.1].point.y < i32::MAX);
                assert(items@[wit.5].point.z - items@[wit.2].point.z < i32::MAX);
                assert(items@[wit.3].point.x < i32::MAX);
                assert(items@[wit.4].point.y < i32::MAX);
                assert(items@[wit.5].point.z < i32::MAX);
                assert(items@[0].point.x <= largest.x);
            }
            crate::aabb::lemma_extents_round_trip(smallest, largest);
        }
        let aabb = AABB::from_extents(smallest, largest);
        let mut octree = Octree::new(aabb, DEFAULT_MAX);
        let mut k: usize = 0;
        while k < n
            invariant
                n == items@.len(),
                k <= n,
                octree.wf(),
                octree.spec_aabb() == aabb,
                octree.spec_max_elements() == DEFAULT_MAX,
                forall|j: int|
                    0 <= j < n ==> smallest.x <= (#[trigger] items@[j]).point.x <= largest.x
                        && smallest.y <= items@[j].point.y <= largest.y && smallest.z
                        <= items@[j].point.z <= largest.z,
                forall|p: Point|
                    aabb.contains_spec(p) <==> (smallest.x <= p.x <= largest.x && smallest.y <= p.y
                        <= largest.y && smallest.z <= p.z <= largest.z),
                forall|t: TileData| #[trigger] octree@.contains(t) <==> items@.subrange(0, k as int).contains(t),
            decreases n - k,
        {
            let item = items[k];
            let ghost before = octree@;
            let res = octree.insert(item);
            proof {
                assert(aabb.contains_spec(item.point));
                assert(res.is_ok());
                assert(items@.subrange(0, k + 1) =~= items@.subrange(0, k as int).push(item));
                assert forall|t: TileData| #[trigger] octree@.contains(t) <==> items@.subrange(0, k + 1).contains(t) by {
                    Octree::lemma_concat_contains(items@.subrange(0, k as int), seq![item], t);
                    assert(items@.subrange(0, k as int).push(item) =~= items@.subrange(0, k as int) + seq![item]);
                    if t == item {
                        assert(seq![item][0] == item);
                    }
                }
            }
            k += 1;
        }
        proof {
            assert(items@.subrange(0, n as int) =~= items@);
            if n > 0 {
                assert(items@[wit.0].point.x == aabb.min_x());
                assert(items@[wit.1].point.y == aabb.min_y());
                assert(items@[wit.2].point.z == aabb.min_z());
                assert(items@[wit.3].point.x == aabb.max_x());
                assert(items@[wit.4].point.y == aabb.max_y());
                assert(items@[wit.5].point.z == aabb.max_z());
                assert forall|i: int| 0 <= i < items@.len() implies aabb.contains_spec((#[trigger] items@[i]).point) by {}
            }
        }
        octree
    }

    /// Index of the child whose box holds `pt`.
    fn child_for(&self, pt: Point) -> (j: usize)
        requires
            self.local_ok(),
            self.paternity == Paternity::ProudParent,
            self.aabb.contains_spec(pt),
        ensures
            j < self.children@.len(),
            self.children@[j as int].aabb.contains_spec(pt),
    {
        assert(self.children_ok());
        let n = self.children.len();
        let mut j: usize = 0;
        while j < n
            invariant
                n == self.children@.len(),
                j <= n,
                self.local_ok(),
                self.paternity == Paternity::ProudParent,
                forall|k: int| 0 <= k < j ==> !(#[trigger] self.children@[k]).aabb.contains_spec(pt),
                forall|k: int| 0 <= k < n ==> (#[trigger] self.children@[k]).aabb.well_sized(),
            decreases n - j,
        {
            if self.children[j].aabb.contains_point(pt) {
                return j;
            }
            j += 1;
        }
        proof {
            assert(self.children_ok());
            assert(self.aabb.contains_spec(pt));
            let k = choose|k: int| 0 <= k < n && (#[trigger] self.children@[k]).aabb.contains_spec(pt);
            assert(false);
        }
        0
    }

    /// Adds `element` to the tree. A tile already at the same position is replaced. The
    /// insertion succeeds exactly when the position lies inside the tree's box.
    #[verifier::rlimit(80)]
    pub fn insert(&mut self, element: TileData) -> (r: Result<(), InsertionError>)
        requires
            old(self).wf(),
            old(self).spec_max_elements() > 0,
        ensures
            final(self).wf(),
            final(self).spec_aabb() == old(self).spec_aabb(),
            final(self).spec_max_elements() == old(self).spec_max_elements(),
            r.is_ok() <==> old(self).spec_aabb().contains_spec(element.point),
            r.is_ok() ==> final(self)@ == old(self)@.insert(element),
            r.is_err() ==> final(self)@ == old(self)@ && r == Err::<(), InsertionError>(
                InsertionError { error_type: InsertionErrorType::OutOfBounds(old(self).spec_aabb()) },
            ),
        decreases box_measure(old(self).spec_aabb()),
    {
        let pt = element.point;
        if !self.aabb.contains_point(pt) {
            return Err(InsertionError { error_type: InsertionErrorType::OutOfBounds(self.aabb) });
        }
        let ghost old_self = *self;
        proof {
            old_self.lemma_wf_unfold();
            old_self.lemma_wf_facts();
            old_self.lemma_flat_contains(element);
        }
        match self.find_element(pt) {
            Some(i) => {
                proof {
                    TileData::lemma_eq(self.elements@[i as int], element);
                }
                self.elements.set(i, element);
                proof {
                    assert(self.elements@ =~= old_self.elements@);
                    Octree::lemma_same_views(old_self, *self);
                    assert(old_self.elements@.contains(element));
                    assert(self@ =~= old_self@.insert(element));
                }
                return Ok(());
            },
            None => {},
        }
        proof {
            assert forall|k: int| 0 <= k < self.elements@.len() implies self.elements@[k] != element by {
                assert(self.elements@[k].point != pt);
            }
            assert(!self.elements@.contains(element));
        }
        if self.elements.len() < self.max_elements {
            let mut room = true;
            if let Paternity::ProudParent = self.paternity {
                let j = self.child_for(pt);
                proof {
                    assert(self.children_ok());
                    assert(box_measure(self.children@[j as int].aabb) < box_measure(self.aabb));
                }
                if self.children[j].query_point(pt).is_some() {
                    room = false;
                } else {
                    proof {
                        assert(!self.children@[j as int]@.contains(element));
                        assert forall|k: int| 0 <= k < self.children@.len() implies !(
                        #[trigger] self.children@[k]).flat().contains(element) by {
                            if k != j && self.children@[k].flat().contains(element) {
                                assert(self.children@[k].aabb.contains_spec(pt));
                                assert(self.children@[k].aabb.disjoint(self.children@[j as int].aabb));
                            }
                        }
                    }
                }
            }
            if room {
                proof {
                    assert forall|k: int| 0 <= k < self.children@.len() implies !(
                    #[trigger] self.children@[k]).flat().contains(element) by {
                        if self.paternity == Paternity::ChildFree {
                            assert(self.children@.len() == 0);
                        }
                    }
                }
                self.elements.push(element);
                proof {
                    Octree::lemma_after_push(old_self, *self, element);
                }
                return Ok(());
            }
        }
        if let Paternity::ChildFree = self.paternity {
            proof {
                assert(self.elements@.len() >= self.max_elements);
                let first = self.elements@[0];
                assert(self.aabb.contains_spec(first.point));
                assert(first.point != pt);
                if !splittable(self.aabb) {
                    assert(first.point.x == pt.x);
                    assert(first.point.y == pt.y);
                    assert(first.point.z == pt.z);
                }
            }
            self.subdivide();
        }
        let ghost mid = *self;
        proof {
            mid.lemma_wf_unfold();
            mid.lemma_wf_facts();
        }
        let j = self.child_for(pt);
        proof {
            assert(self.children_ok());
            assert(box_measure(self.children@[j as int].aabb) < box_measure(self.aabb));
            assert(self.children@[j as int].wf());
        }
        let mut child = self.children.remove(j);
        let ghost old_child = child;
        let res = child.insert(element);
        self.children.insert(j, child);
        proof {
            assert(res.is_ok());
            assert(self.children@ =~= mid.children@.update(j as int, child));
            Octree::lemma_after_child_insert(old_self, mid, *self, j as int, old_child, child, element);
        }
        Ok(())
    }

    /// A fresh, empty tree over `aabb` whose nodes hold up to `max_elements` tiles each.
    pub fn new(aabb: AABB, max_elements: usize) -> (r: Octree)
        requires
            aabb.well_sized(),
        ensures
            r.wf(),
            r@ == Set::<TileData>::empty(),
            r.spec_aabb() == aabb,
            r.spec_max_elements() == max_elements,
    {
        let r = Octree {
            aabb,
            max_elements,
            elements: Vec::new(),
            children: Vec::new(),
            paternity: Paternity::ChildFree,
        };
        assert(r.flat() =~= Seq::<TileData>::empty());
        assert(r@ =~= Set::<TileData>::empty());
        r
    }

    #[verifier::loop_isolation(false)]
    fn count_flat(&self) -> (r: usize)
        requires
            self.wf(),
            self.flat().len() <= usize::MAX,
        ensures
            r == self.flat().len(),
        decreases box_measure(self.spec_aabb()),
    {
        proof {
            self.lemma_wf_unfold();
        }
        let mut count: usize = self.elements.len();
        match self.paternity {
            Paternity::ChildFree => {
                assert(self.flat() =~= self.elements@);
                count
            },
            Paternity::ProudParent => {
                let n = self.children.len();
                let mut j: usize = 0;
                while j < n
                    invariant
                        n == self.children@.len(),
                        j <= n,
                        self.wf(),
                        self.local_ok(),
                        self.paternity == Paternity::ProudParent,
                        forall|k: int| 0 <= k < self.children@.len() ==> #[trigger] self.children@[k].wf(),
                        self.flat().len() <= usize::MAX,
                        count == self.elements@.len() + Octree::flat_children(
                            self.children@,
                            j as nat,
                        ).len(),
                    decreases n - j,
                {
                    proof {
                        Octree::lemma_flat_children_len_mono(self.children@, (j + 1) as nat, n as nat);
                        assert(self.children_ok());
                        assert(box_measure(self.children@[j as int].aabb) < box_measure(self.aabb));
                    }
                    let c = self.children[j].count_flat();
                    count = count + c;
                    j += 1;
                }
                count
            },
        }
    }

    /// The tiles of the first `n` trees of two lists agree where the trees agree one by one.
    proof fn lemma_flat_children_same(a: Seq<Octree>, b: Seq<Octree>, n: nat)
        requires
            a.len() == b.len(),
            n <= a.len(),
            forall|j: int| 0 <= j < a.len() ==> (#[trigger] a[j]).flat() == b[j].flat(),
        ensures
            Octree::flat_children(a, n) == Octree::flat_children(b, n),
        decreases n,
    {
        if n > 0 {
            Octree::lemma_flat_children_same(a, b, (n - 1) as nat);
            assert(a[n - 1].flat() == b[n - 1].flat());
        }
    }

    /// A copy of the tree: the same box, capacity and layout, holding the same tiles.
    pub fn duplicate(&self) -> (r: Octree)
        requires
            self.wf(),
        ensures
            r.wf(),
            r@ == self@,
            r.flat() == self.flat(),
            r.spec_aabb() == self.spec_aabb(),
            r.spec_max_elements() == self.spec_max_elements(),
        decreases box_measure(self.spec_aabb()),
    {
        proof {
            self.lemma_wf_unfold();
        }
        let n = self.elements.len();
        let mut elements: Vec<TileData> = Vec::new();
        let mut i: usize = 0;
        while i < n
            invariant
                n == self.elements@.len(),
                i <= n,
                elements@ == self.elements@.take(i as int),
            decreases n - i,
        {
            elements.push(self.elements[i]);
            proof {
                assert(elements@ =~= self.elements@.take(i + 1));
            }
            i += 1;
        }
        proof {
            assert(elements@ =~= self.elements@);
        }
        let m = self.children.len();
        let mut children: Vec<Octree> = Vec::new();
        let mut j: usize = 0;
        while j < m
            invariant
                m == self.children@.len(),
                j <= m,
                self.local_ok(),
                forall|k: int| 0 <= k < self.children@.len() ==> #[trigger] self.children@[k].wf(),
                children@.len() == j,
                forall|k: int| 0 <= k < j ==> {
                    &&& (#[trigger] children@[k]).wf()
                    &&& children@[k].aabb == self.children@[k].aabb
                    &&& children@[k].max_elements == self.children@[k].max_elements
                    &&& children@[k].flat() == self.children@[k].flat()
                },
            decreases m - j,
        {
            proof {
                if self.paternity == Paternity::ProudParent {
                    assert(self.children_ok());
                    assert(box_measure(self.children@[j as int].aabb) < box_measure(self.aabb));
                } else {
                    assert(self.children@.len() == 0);
                }
            }
            let copy = self.children[j].duplicate();
            children.push(copy);
            j += 1;
        }
        let r = Octree {
            aabb: self.aabb,
            max_elements: self.max_elements,
            elements,
            children,
            paternity: self.paternity,
        };
        proof {
            Octree::lemma_flat_children_same(r.children@, self.children@, r.children@.len());
            assert(r.flat() == self.flat());
            let rc = r.children@;
            let sc = self.children@;
            assert forall|k: int| 0 <= k < rc.len() implies (#[trigger] rc[k]).aabb == sc[k].aabb
                && rc[k].max_elements == sc[k].max_elements && rc[k].flat() == sc[k].flat() && rc[k].wf() by {}
            if self.paternity == Paternity::ProudParent {
                assert(self.children_ok());
                assert forall|k: int, l: int|
                    0 <= k < rc.len() && 0 <= l < rc.len() && k != l implies (#[trigger] rc[k]).aabb.disjoint(
                    (#[trigger] rc[l]).aabb) by {
                    assert(sc[k].aabb.disjoint(sc[l].aabb));
                }
                assert forall|p: Point| #[trigger] r.aabb.contains_spec(p) implies exists|k: int|
                    0 <= k < rc.len() && (#[trigger] rc[k]).aabb.contains_spec(p) by {
                    assert(self.aabb.contains_spec(p));
                    let k = choose|k: int| 0 <= k < sc.len() && (#[trigger] sc[k]).aabb.contains_spec(p);
                    assert(rc[k].aabb == sc[k].aabb);
                }
                assert(r.children_ok());
            }
            assert forall|a: int, b: int|
                0 <= a < r.elements@.len() && 0 <= b < rc.len() implies !(#[trigger] rc[b]).flat().contains(
                #[trigger] r.elements@[a]) by {
                assert(!sc[b].flat().contains(self.elements@[a]));
            }
            assert(r.local_ok());
            r.lemma_wf_unfold();
        }
        r
    }

    /// Number of tiles in the tree.
    pub fn count(&self) -> (r: usize)
        requires
            self.wf(),
            self@.len() <= usize::MAX,
        ensures
            r == self@.len(),
    {
        proof {
            self.lemma_wf_facts();
            self.flat().unique_seq_to_set();
        }
        self.count_flat()
    }

    /// The tile at `point`, if the tree holds one there.
    #[verifier::loop_isolation(false)]
    pub fn query_point(&self, point: Point) -> (r: Option<TileData>)
        requires
            self.wf(),
        ensures
            r == (if self@.contains(TileData { point }) {
                Some(TileData { point })
            } else {
                None::<TileData>
            }),
        decreases box_measure(self.spec_aabb()),
    {
        let ghost t = TileData { point: point };
        assert(t.point == point);
        proof {
            self.lemma_wf_facts();
            self.lemma_wf_unfold();
            self.lemma_flat_contains(t);
        }
        if !self.aabb.contains_point(point) {
            return None;
        }
        let n = self.elements.len();
        let mut i: usize = 0;
        while i < n
            invariant
                n == self.elements@.len(),
                i <= n,
                t == (TileData { point }),
                forall|k: int| 0 <= k < i ==> (#[trigger] self.elements@[k]).point != point,
            decreases n - i,
        {
            if self.elements[i].point.same(&point) {
                proof {
                    assert(self.elements@[i as int].point == point);
                    TileData::lemma_eq(self.elements@[i as int], t);
                    assert(self.elements@[i as int] == t);
                    assert(self.elements@.contains(t));
                }
                return Some(self.elements[i]);
            }
            i += 1;
        }
        assert(!self.elements@.contains(t));
        if let Paternity::ChildFree = self.paternity {
            return None;
        }
        let m = self.children.len();
        let mut j: usize = 0;
        while j < m
            invariant
                m == self.children@.len(),
                j <= m,
                t == (TileData { point }),
                self.local_ok(),
                self.paternity == Paternity::ProudParent,
                forall|k: int| 0 <= k < self.children@.len() ==> #[trigger] self.children@[k].wf(),
                forall|k: int| 0 <= k < j ==> !(#[trigger] self.children@[k]).flat().contains(t),
            decreases m - j,
        {
            proof {
                assert(self.children_ok());
                assert(box_measure(self.children@[j as int].aabb) < box_measure(self.aabb));
            }
            let found = self.children[j].query_point(point);
            if found.is_some() {
                proof {
                    assert(self.children@[j as int]@.contains(t));
                    assert(self.children@[j as int].flat().contains(t));
                }
                return found;
            }
            proof {
                assert(!self.children@[j as int]@.contains(t));
            }
            j += 1;
        }
        None
    }

    /// Every tile of the tree that lies inside `range`, each once.
    #[verifier::loop_isolation(false)]
    pub fn query_range(&self, range: AABB) -> (r: Vec<TileData>)
        requires
            self.wf(),
            range.well_sized(),
        ensures
            r@.no_duplicates(),
            forall|t: TileData|
                r@.contains(t) <==> (self@.contains(t) && range.contains_spec(t.point)),
        decreases box_measure(self.spec_aabb()),
    {
        proof {
            self.lemma_wf_facts();
            self.lemma_wf_unfold();
        }
        let mut result: Vec<TileData> = Vec::new();
        if !self.aabb.intersects_bounds(range) {
            proof {
                assert forall|t: TileData| !(self@.contains(t) && range.contains_spec(t.point)) by {
                    if self.flat().contains(t) {
                        assert(self.aabb.contains_spec(t.point));
                    }
                }
            }
            return result;
        }
        let n = self.elements.len();
        let mut i: usize = 0;
        while i < n
            invariant
                n == self.elements@.len(),
                i <= n,
                range.well_sized(),
                self.elements@.no_duplicates(),
                result@.no_duplicates(),
                forall|t: TileData|
                    result@.contains(t) <==> (self.elements@.subrange(0, i as int).contains(t)
                        && range.contains_spec(t.point)),
            decreases n - i,
        {
            let e = self.elements[i];
            proof {
                let sub = self.elements@.subrange(0, i as int);
                assert(self.elements@.subrange(0, i + 1) =~= sub.push(e));
                if sub.contains(e) {
                    let k = choose|k: int| 0 <= k < i && sub[k] == e;
                    assert(self.elements@[k] == self.elements@[i as int]);
                    assert(false);
                }
                assert(!result@.contains(e));
                vstd::seq_lib::lemma_no_dup_in_concat(result@, seq![e]);
                assert(result@.push(e) =~= result@ + seq![e]);
                assert forall|t: TileData| sub.push(e).contains(t) <==> (sub.contains(t) || t == e) by {
                    Octree::lemma_concat_contains(sub, seq![e], t);
                    assert(sub.push(e) =~= sub + seq![e]);
                    if t == e {
                        assert(seq![e][0] == e);
                    }
                }
                assert forall|t: TileData| result@.push(e).contains(t) <==> (result@.contains(t) || t == e) by {
                    Octree::lemma_concat_contains(result@, seq![e], t);
                    if t == e {
                        assert(seq![e][0] == e);
                    }
                }
            }
            let ghost prev = result@;
            let ghost sub = self.elements@.subrange(0, i as int);
            if range.contains_point(e.point) {
                result.push(e);
            }
            proof {
                assert forall|t: TileData|
                    result@.contains(t) <==> (self.elements@.subrange(0, i + 1).contains(t)
                        && range.contains_spec(t.point)) by {
                    assert(self.elements@.subrange(0, i + 1) =~= sub.push(e));
                    assert(sub.push(e).contains(t) <==> (sub.contains(t) || t == e));
                    assert(prev.contains(t) <==> (sub.contains(t) && range.contains_spec(t.point)));
                    if range.contains_spec(e.point) {
                        assert(result@ == prev.push(e));
                    } else {
                        assert(result@ == prev);
                    }
                }
            }
            i += 1;
        }
        assert(self.elements@.subrange(0, n as int) =~= self.elements@);
        if let Paternity::ChildFree = self.paternity {
            assert(self.flat() =~= self.elements@);
            return result;
        }
        let m = self.children.len();
        let mut j: usize = 0;
        while j < m
            invariant
                m == self.children@.len(),
                j <= m,
                range.well_sized(),
                self.local_ok(),
                self.paternity == Paternity::ProudParent,
                forall|k: int| 0 <= k < self.children@.len() ==> #[trigger] self.children@[k].wf(),
                forall|k: int, l: int, t: TileData|
                    0 <= k < self.children@.len() && 0 <= l < self.children@.len() && k != l
                        && #[trigger] self.children@[k].flat().contains(t)
                        ==> !#[trigger] self.children@[l].flat().contains(t),
                result@.no_duplicates(),
                forall|t: TileData|
                    result@.contains(t) <==> ((self.elements@.contains(t) || exists|k: int|
                        0 <= k < j && (#[trigger] self.children@[k]).flat().contains(t))
                        && range.contains_spec(t.point)),
            decreases m - j,
        {
            proof {
                assert(self.children_ok());
                assert(box_measure(self.children@[j as int].aabb) < box_measure(self.aabb));
            }
            let mut sub = self.children[j].query_range(range);
            let ghost old_result = result@;
            let ghost cj = self.children@[j as int];
            proof {
                assert forall|a: int, b: int|
                    0 <= a < old_result.len() && 0 <= b < sub@.len() implies old_result[a]
                    != sub@[b] by {
                    let t = sub@[b];
                    assert(sub@.contains(t));
                    assert(cj.flat().contains(t));
                    if old_result[a] == t {
                        assert(old_result.contains(t));
                        if self.elements@.contains(t) {
                            let x = choose|x: int| 0 <= x < self.elements@.len() && self.elements@[x] == t;
                            assert(!cj.flat().contains(self.elements@[x]));
                        } else {
                            let k = choose|k: int|
                                0 <= k < j && (#[trigger] self.children@[k]).flat().contains(t);
                            assert(!self.children@[j as int].flat().contains(t));
                        }
                    }
                }
                vstd::seq_lib::lemma_no_dup_in_concat(old_result, sub@);
            }
            let ghost sub_v = sub@;
            result.append(&mut sub);
            proof {
                assert(result@ == old_result + sub_v);
                assert forall|t: TileData|
                    result@.contains(t) <==> ((self.elements@.contains(t) || exists|k: int|
                        0 <= k < j + 1 && (#[trigger] self.children@[k]).flat().contains(t))
                        && range.contains_spec(t.point)) by {
                    Octree::lemma_concat_contains(old_result, sub_v, t);
                    let in_prev = exists|k: int|
                        0 <= k < j && (#[trigger] self.children@[k]).flat().contains(t);
                    let in_next = exists|k: int|
                        0 <= k < j + 1 && (#[trigger] self.children@[k]).flat().contains(t);
                    assert(cj@.contains(t) <==> cj.flat().contains(t));
                    if cj.flat().contains(t) {
                        assert(self.children@[j as int].flat().contains(t));
                        assert(in_next);
                    }
                    if in_prev {
                        let k = choose|k: int|
                            0 <= k < j && (#[trigger] self.children@[k]).flat().contains(t);
                        assert(in_next);
                    }
                    if in_next {
                        let k = choose|k: int|
                            0 <= k < j + 1 && (#[trigger] self.children@[k]).flat().contains(t);
                        if k < j {
                            assert(in_prev);
                        } else {
                            assert(cj.flat().contains(t));
                        }
                    }
                }
            }
            j += 1;
        }
        proof {
            assert forall|t: TileData|
                result@.contains(t) <==> (self@.contains(t) && range.contains_spec(t.point)) by {
                self.lemma_flat_contains(t);
            }
        }
        result
    }

    pub fn get_aabb(&self) -> (r: AABB)
        ensures
            r == self.spec_aabb(),
    {
        self.aabb
    }

    pub fn get_max_elements(&self) -> (r: usize)
        ensures
            r == self.spec_max_elements(),
    {
        self.max_elements
    }
}

} // verus!
