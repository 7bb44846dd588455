//! The uniform grid: cell coordinates, insertion and duplicate-free queries.
use crate::geometry::{intersect_aabb_aabb, intersect_aabb_circle, intersect_circle_circle};
use crate::geometry::{shapes_hit, AabbShape, Shape};
use fxhash::{FxHashMap, FxHashSet};
use vstd::prelude::*;

verus! {

/// fxhash's `FxHasher`, the hasher of the cell map and of query output sets;
/// opaque here, and read only through the map and set wrappers below.
#[verifier::external_type_specification]
#[verifier::external_body]
pub struct ExFxHasher(fxhash::FxHasher);

/// std's `BuildHasherDefault`, which fxhash's `FxBuildHasher` instantiates; opaque here.
#[verifier::external_type_specification]
#[verifier::external_body]
#[verifier::reject_recursive_types(H)]
pub struct ExBuildHasherDefault<H>(std::hash::BuildHasherDefault<H>);

/// The payload stored beside a shape: what a query reports.
#[derive(Clone, Copy, Debug, PartialEq, Eq, Structural, Hash, PartialOrd, Ord)]
pub struct SpatialUserData {
    pub entity_type: u32,
    pub entity_id: u32,
}

/// The 32-bit id of a payload: the type shifted into the upper half, or-ed with the id.
pub open spec fn linear_id(d: SpatialUserData) -> u32 {
    ((d.entity_type << 16u32) | d.entity_id) as u32
}

impl SpatialUserData {
    /// Packs the payload into one 32-bit id.
    pub fn linearize(&self) -> (r: u32)
        ensures
            r == linear_id(*self),
            self.entity_type < 0x1_0000 && self.entity_id < 0x1_0000 ==> r == self.entity_type
                * 0x1_0000 + self.entity_id,
    {
        let t = self.entity_type;
        let i = self.entity_id;
        proof {
            if t < 0x1_0000 && i < 0x1_0000 {
                assert(((t << 16u32) | i) as u32 == t * 0x1_0000u32 + i) by (bit_vector)
                    requires
                        t < 0x1_0000u32,
                        i < 0x1_0000u32,
                ;
            }
        }
        (t << 16) | i
    }

    /// Unpacks an id: the upper half is the type, the lower half the id.
    pub fn from_linearized(linearized: u32) -> (r: Self)
        ensures
            r.entity_type == linearized / 0x1_0000,
            r.entity_id == linearized % 0x1_0000,
    {
        let entity_type = linearized >> 16;
        let entity_id = linearized & 0xFFFF;
        assert(linearized >> 16u32 == linearized / 0x1_0000u32) by (bit_vector);
        assert(linearized & 0xFFFFu32 == linearized % 0x1_0000u32) by (bit_vector);
        SpatialUserData { entity_type, entity_id }
    }
}

/// Packing and then unpacking a payload whose halves fit in 16 bits gives it back.
pub proof fn lemma_linearize_round_trip(d: SpatialUserData)
    requires
        d.entity_type < 0x1_0000,
        d.entity_id < 0x1_0000,
    ensures
        linear_id(d) / 0x1_0000 == d.entity_type,
        linear_id(d) % 0x1_0000 == d.entity_id,
{
    let t = d.entity_type;
    let i = d.entity_id;
    assert(((t << 16u32) | i) as u32 == t * 0x1_0000u32 + i) by (bit_vector)
        requires
            t < 0x1_0000u32,
            i < 0x1_0000u32,
    ;
}

/// A query with a shape: the payloads of the stored shapes that meet it.
#[derive(Clone, Copy, Debug)]
pub enum SpatialQuery {
    ShapeQuery(Shape),
}

/// A stored shape with its payload.
#[derive(Clone, Copy, Debug, PartialEq, Eq, Structural)]
pub struct SpatialHashData {
    pub shape: Shape,
    pub userdata: SpatialUserData,
}

/// The entries of one grid cell, circles and boxes kept apart.
pub struct Cell {
    pub circles: Vec<SpatialHashData>,
    pub aabbs: Vec<SpatialHashData>,
}

impl Cell {
    /// Every entry sits in the list of its own kind.
    pub open spec fn wf(&self) -> bool {
        &&& forall|i: int| 0 <= i < self.circles@.len() ==> (#[trigger] self.circles@[i]).shape is Circle
        &&& forall|i: int| 0 <= i < self.aabbs@.len() ==> (#[trigger] self.aabbs@[i]).shape is Aabb
    }
}

impl Default for Cell {
    fn default() -> (r: Cell)
        ensures
            r.circles@ == Seq::<SpatialHashData>::empty(),
            r.aabbs@ == Seq::<SpatialHashData>::empty(),
    {
        Cell { circles: Vec::new(), aabbs: Vec::new() }
    }
}

/// Floor of `a / c`: for a positive `c` the Euclidean quotient is the floor.
pub open spec fn floor_div(a: int, c: int) -> int {
    a / c
}

/// Ceiling of `a / c`, for a positive `c`.
pub open spec fn ceil_div(a: int, c: int) -> int {
    -((-a) / c)
}

/// Cell `k` lies in the cell range of box `b` on a grid of cell size `c`:
/// floor of the scaled minimum, inclusive, to ceiling of the scaled maximum, exclusive.
pub open spec fn covers(b: AabbShape, c: int, k: (i32, i32)) -> bool {
    &&& floor_div(b.min.x as int, c) <= k.0 < ceil_div(b.max.x as int, c)
    &&& floor_div(b.min.y as int, c) <= k.1 < ceil_div(b.max.y as int, c)
}

proof fn lemma_floor_div_bounds(a: int, c: int)
    requires
        c >= 1,
    ensures
        a >= 0 ==> 0 <= a / c <= a,
        a < 0 ==> a <= a / c < 0,
{
    let q = a / c;
    let r = a % c;
    vstd::arithmetic::div_mod::lemma_fundamental_div_mod(a, c);
    vstd::arithmetic::div_mod::lemma_mod_bound(a, c);
    assert(a >= 0 ==> 0 <= q <= a) by (nonlinear_arith)
        requires
            a == c * q + r,
            0 <= r < c,
            c >= 1,
    ;
    assert(a < 0 ==> a <= q < 0) by (nonlinear_arith)
        requires
            a == c * q + r,
            0 <= r < c,
            c >= 1,
    ;
}

fn floor_cell(v: i32, size: i32) -> (r: i32)
    requires
        size > 0,
    ensures
        r == floor_div(v as int, size as int),
{
    proof {
        lemma_floor_div_bounds(v as int, size as int);
    }
    match (v as i64).checked_div_euclid(size as i64) {
        Some(q) => q as i32,
        None => vstd::pervasive::unreached(),
    }
}

fn ceil_cell(v: i32, size: i32) -> (r: i32)
    requires
        size > 0,
    ensures
        r == ceil_div(v as int, size as int),
{
    proof {
        lemma_floor_div_bounds(-v, size as int);
    }
    match (-(v as i64)).checked_div_euclid(size as i64) {
        Some(q) => (-q) as i32,
        None => vstd::pervasive::unreached(),
    }
}

/// Relies on std's `HashMap::get` over fxhash's `FxBuildHasher`: the hasher is
/// deterministic, so a key is found exactly when the map holds it.
#[verifier::external_body]
fn cell_get(m: &FxHashMap<(i32, i32), Cell>, k: (i32, i32)) -> (r: Option<&Cell>)
    ensures
        match r {
            Some(c) => m@.contains_key(k) && *c == m@[k],
            None => !m@.contains_key(k),
        },
{
    m.get(&k)
}

/// Relies on std's `HashMap::remove` over fxhash's `FxBuildHasher`: it takes
/// out the value held under the key, if any.
#[verifier::external_body]
fn cell_take(m: &mut FxHashMap<(i32, i32), Cell>, k: (i32, i32)) -> (r: Option<Cell>)
    ensures
        final(m)@ == old(m)@.remove(k),
        match r {
            Some(c) => old(m)@.contains_key(k) && c == old(m)@[k],
            None => !old(m)@.contains_key(k),
        },
{
    m.remove(&k)
}

/// Relies on std's `HashMap::insert` over fxhash's `FxBuildHasher`: the key
/// then maps to the new value.
#[verifier::external_body]
fn cell_put(m: &mut FxHashMap<(i32, i32), Cell>, k: (i32, i32), c: Cell)
    ensures
        final(m)@ == old(m)@.insert(k, c),
{
    m.insert(k, c);
}

/// Relies on std's `HashSet::insert` over fxhash's `FxBuildHasher`: the set
/// then holds the value.
#[verifier::external_body]
fn id_insert(s: &mut FxHashSet<u32>, v: u32)
    ensures
        final(s)@ == old(s)@.insert(v),
{
    s.insert(v);
}

/// The cell size the grid is built with.
pub const DEFAULT_GRID_SIZE: i32 = 15;

/// A uniform grid of square cells; each cell holds every stored shape whose
/// bounding box's cell range takes it in.
pub struct SpatialHash {
    grid_size: i32,
    inner: FxHashMap<(i32, i32), Cell>,
}

impl SpatialHash {
    /// The side of a cell.
    pub closed spec fn cell_size(&self) -> int {
        self.grid_size as int
    }

    /// The cells created so far, by coordinate.
    pub closed spec fn cells(&self) -> Map<(i32, i32), Cell> {
        self.inner@
    }

    pub open spec fn wf(&self) -> bool {
        &&& self.cell_size() > 0
        &&& self.cell_size() <= i32::MAX
        &&& forall|k: (i32, i32)| #[trigger] self.cells().contains_key(k) ==> self.cells()[k].wf()
    }

    /// The circles held at cell `k`; none where no cell was created.
    pub open spec fn circles_at(&self, k: (i32, i32)) -> Seq<SpatialHashData> {
        if self.cells().contains_key(k) {
            self.cells()[k].circles@
        } else {
            Seq::empty()
        }
    }

    /// The boxes held at cell `k`; none where no cell was created.
    pub open spec fn aabbs_at(&self, k: (i32, i32)) -> Seq<SpatialHashData> {
        if self.cells().contains_key(k) {
            self.cells()[k].aabbs@
        } else {
            Seq::empty()
        }
    }

    /// Cell `k` is as in `prev`, with `e` appended to the list of its kind.
    pub open spec fn appended_at(&self, prev: &SpatialHash, e: SpatialHashData, k: (i32, i32)) -> bool {
        &&& self.cells().contains_key(k)
        &&& self.circles_at(k) == if e.shape is Circle {
            prev.circles_at(k).push(e)
        } else {
            prev.circles_at(k)
        }
        &&& self.aabbs_at(k) == if e.shape is Aabb {
            prev.aabbs_at(k).push(e)
        } else {
            prev.aabbs_at(k)
        }
    }

    /// Cell `k` is as in `prev`.
    pub open spec fn same_at(&self, prev: &SpatialHash, k: (i32, i32)) -> bool {
        &&& self.cells().contains_key(k) == prev.cells().contains_key(k)
        &&& self.circles_at(k) == prev.circles_at(k)
        &&& self.aabbs_at(k) == prev.aabbs_at(k)
    }

    /// `self` is `prev` after storing `shape` with payload `data`: the entry is
    /// appended to every cell of the shape's cell range, created if need be, and
    /// every other cell is left as it was.
    pub open spec fn inserted(&self, prev: &SpatialHash, shape: Shape, data: SpatialUserData) -> bool {
        &&& self.cell_size() == prev.cell_size()
        &&& forall|k: (i32, i32)|
            covers(shape.spec_bounding_rect(), prev.cell_size(), k) ==> #[trigger] self.appended_at(
                prev,
                (SpatialHashData { shape, userdata: data }),
                k,
            )
        &&& forall|k: (i32, i32)|
            !covers(shape.spec_bounding_rect(), prev.cell_size(), k) ==> #[trigger] self.same_at(
                prev,
                k,
            )
    }

    /// An empty grid with the default cell size.
    pub fn new() -> (r: Self)
        ensures
            r.wf(),
            r.cell_size() == DEFAULT_GRID_SIZE,
            r.cells() == Map::<(i32, i32), Cell>::empty(),
    {
        SpatialHash { grid_size: DEFAULT_GRID_SIZE, inner: FxHashMap::default() }
    }

    /// Removes every cell; the cell size stays.
    pub fn clear(&mut self)
        requires
            old(self).wf(),
        ensures
            final(self).wf(),
            final(self).cell_size() == old(self).cell_size(),
            final(self).cells() == Map::<(i32, i32), Cell>::empty(),
    {
        self.inner.clear();
    }

    /// Appends `e` to cell `k`, creating the cell if need be.
    fn push_entry(&mut self, k: (i32, i32), e: SpatialHashData)
        requires
            old(self).wf(),
        ensures
            final(self).wf(),
            final(self).cell_size() == old(self).cell_size(),
            final(self).appended_at(old(self), e, k),
            forall|j: (i32, i32)| j != k ==> #[trigger] final(self).same_at(old(self), j),
    {
        let ghost pre = *self;
        let mut cell = match cell_take(&mut self.inner, k) {
            Some(c) => {
                assert(pre.cells().contains_key(k));
                c
            },
            None => Cell::default(),
        };
        match e.shape {
            Shape::Circle(_) => cell.circles.push(e),
            Shape::Aabb(_) => cell.aabbs.push(e),
        }
        assert(cell.wf());
        cell_put(&mut self.inner, k, cell);
        assert forall|j: (i32, i32)| #[trigger] self.cells().contains_key(j) implies self.cells()[j].wf() by {
            if j != k {
                assert(pre.cells().contains_key(j));
            }
        }
    }

    /// Stores `shape` with payload `data` in every cell of its bounding box's cell range.
    pub fn add_shape(&mut self, shape: Shape, data: SpatialUserData)
        requires
            old(self).wf(),
            shape.wf(),
        ensures
            final(self).wf(),
            final(self).inserted(old(self), shape, data),
    {
        let ghost pre = *self;
        let ghost size = self.cell_size();
        let bounding_rect = shape.bounding_rect();
        let entry = SpatialHashData { shape, userdata: data };
        let min_x = floor_cell(bounding_rect.min.x, self.grid_size);
        let min_y = floor_cell(bounding_rect.min.y, self.grid_size);
        let max_x = ceil_cell(bounding_rect.max.x, self.grid_size);
        let max_y = ceil_cell(bounding_rect.max.y, self.grid_size);
        let mut x: i32 = min_x;
        while x < max_x
            invariant
                self.wf(),
                self.cell_size() == size,
                size == pre.cell_size(),
                bounding_rect == shape.spec_bounding_rect(),
                entry == (SpatialHashData { shape, userdata: data }),
                min_x == floor_div(bounding_rect.min.x as int, size),
                min_y == floor_div(bounding_rect.min.y as int, size),
                max_x == ceil_div(bounding_rect.max.x as int, size),
                max_y == ceil_div(bounding_rect.max.y as int, size),
                min_x <= x,
                forall|k: (i32, i32)|
                    covers(bounding_rect, size, k) && k.0 < x ==> #[trigger] self.appended_at(
                        &pre,
                        entry,
                        k,
                    ),
                forall|k: (i32, i32)|
                    !(covers(bounding_rect, size, k) && k.0 < x) ==> #[trigger] self.same_at(
                        &pre,
                        k,
                    ),
            decreases max_x - x,
        {
            let mut y: i32 = min_y;
            while y < max_y
                invariant
                    self.wf(),
                    self.cell_size() == size,
                    x < max_x,
                    min_x <= x,
                    min_x == floor_div(bounding_rect.min.x as int, size),
                    min_y == floor_div(bounding_rect.min.y as int, size),
                    max_x == ceil_div(bounding_rect.max.x as int, size),
                    max_y == ceil_div(bounding_rect.max.y as int, size),
                    min_y <= y,
                    forall|k: (i32, i32)|
                        covers(bounding_rect, size, k) && (k.0 < x || (k.0 == x && k.1 < y))
                            ==> #[trigger] self.appended_at(&pre, entry, k),
                    forall|k: (i32, i32)|
                        !(covers(bounding_rect, size, k) && (k.0 < x || (k.0 == x && k.1 < y)))
                            ==> #[trigger] self.same_at(&pre, k),
                decreases max_y - y,
            {
                let ghost before = *self;
                self.push_entry((x, y), entry);
                proof {
                    assert forall|k: (i32, i32)|
                        covers(bounding_rect, size, k) && (k.0 < x || (k.0 == x && k.1 < y + 1))
                            implies #[trigger] self.appended_at(&pre, entry, k) by {
                        if k != (x, y) {
                            assert(self.same_at(&before, k));
                            assert(before.appended_at(&pre, entry, k));
                        } else {
                            assert(before.same_at(&pre, k));
                        }
                    }
                    assert forall|k: (i32, i32)|
                        !(covers(bounding_rect, size, k) && (k.0 < x || (k.0 == x && k.1 < y + 1)))
                            implies #[trigger] self.same_at(&pre, k) by {
                        assert(self.same_at(&before, k));
                        assert(before.same_at(&pre, k));
                    }
                }
                y = y + 1;
            }
            proof {
                assert forall|k: (i32, i32)|
                    covers(bounding_rect, size, k) && k.0 < x + 1 implies #[trigger] self.appended_at(
                        &pre,
                        entry,
                        k,
                    ) by {
                    assert(k.0 < x || (k.0 == x && k.1 < y));
                }
                assert forall|k: (i32, i32)|
                    !(covers(bounding_rect, size, k) && k.0 < x + 1) implies #[trigger] self.same_at(
                        &pre,
                        k,
                    ) by {
                    assert(!(covers(bounding_rect, size, k) && (k.0 < x || (k.0 == x && k.1 < y))));
                }
            }
            x = x + 1;
        }
    }
}

/// The ids of the entries among the first `n` of `s` whose shapes meet `q`.
pub open spec fn hits_in(s: Seq<SpatialHashData>, q: Shape, n: int) -> Set<u32> {
    Set::new(
        |u: u32|
            exists|j: int|
                0 <= j < n && shapes_hit(#[trigger] s[j].shape, q) && linear_id(s[j].userdata) == u,
    )
}

proof fn lemma_hits_in_step(s: Seq<SpatialHashData>, q: Shape, n: int)
    requires
        0 <= n < s.len(),
    ensures
        hits_in(s, q, n + 1) == (if shapes_hit(s[n].shape, q) {
            hits_in(s, q, n).insert(linear_id(s[n].userdata))
        } else {
            hits_in(s, q, n)
        }),
{
    let lhs = hits_in(s, q, n + 1);
    let rhs = if shapes_hit(s[n].shape, q) {
        hits_in(s, q, n).insert(linear_id(s[n].userdata))
    } else {
        hits_in(s, q, n)
    };
    assert forall|u: u32| lhs.contains(u) == rhs.contains(u) by {
        if lhs.contains(u) {
            let j = choose|j: int|
                0 <= j < n + 1 && shapes_hit(#[trigger] s[j].shape, q) && linear_id(s[j].userdata)
                    == u;
            if j < n {
                assert(hits_in(s, q, n).contains(u));
            }
        }
        if hits_in(s, q, n).contains(u) {
            let j = choose|j: int|
                0 <= j < n && shapes_hit(#[trigger] s[j].shape, q) && linear_id(s[j].userdata) == u;
            assert(lhs.contains(u));
        }
        if shapes_hit(s[n].shape, q) && u == linear_id(s[n].userdata) {
            assert(shapes_hit(s[n].shape, q) && linear_id(s[n].userdata) == u);
            assert(lhs.contains(u));
        }
    }
    assert(lhs =~= rhs);
}

impl SpatialQuery {
    /// The shape the query is made with.
    pub open spec fn spec_shape(self) -> Shape {
        match self {
            SpatialQuery::ShapeQuery(s) => s,
        }
    }
}

impl SpatialHash {
    /// The ids of the entries of cell `k` whose shapes meet `q`.
    pub open spec fn hits_at(&self, q: Shape, k: (i32, i32)) -> Set<u32> {
        hits_in(self.circles_at(k), q, self.circles_at(k).len() as int).union(
            hits_in(self.aabbs_at(k), q, self.aabbs_at(k).len() as int),
        )
    }

    /// What a query with `q` reports: the ids of the entries, in the cells of
    /// `q`'s cell range, whose shapes meet `q`.
    pub open spec fn query_result(&self, q: Shape) -> Set<u32> {
        Set::new(
            |u: u32|
                exists|k: (i32, i32)|
                    covers(q.spec_bounding_rect(), self.cell_size(), k) && #[trigger] self.hits_at(
                        q,
                        k,
                    ).contains(u),
        )
    }

    /// The part of `query_result(q)` found in the cells before `(x, y)`, row by row.
    spec fn hits_before(&self, q: Shape, x: int, y: int) -> Set<u32> {
        Set::new(
            |u: u32|
                exists|k: (i32, i32)|
                    covers(q.spec_bounding_rect(), self.cell_size(), k) && (k.0 < x || (k.0 == x
                        && k.1 < y)) && #[trigger] self.hits_at(q, k).contains(u),
        )
    }

    proof fn lemma_before_next_cell(&self, q: Shape, x: i32, y: i32)
        requires
            covers(q.spec_bounding_rect(), self.cell_size(), (x, y)),
        ensures
            self.hits_before(q, x as int, y + 1) == self.hits_before(q, x as int, y as int).union(
                self.hits_at(q, (x, y)),
            ),
    {
        let lhs = self.hits_before(q, x as int, y + 1);
        let rhs = self.hits_before(q, x as int, y as int).union(self.hits_at(q, (x, y)));
        let b = q.spec_bounding_rect();
        let c = self.cell_size();
        assert forall|u: u32| lhs.contains(u) == rhs.contains(u) by {
            if lhs.contains(u) {
                let k = choose|k: (i32, i32)|
                    covers(b, c, k) && (k.0 < x || (k.0 == x && k.1 < y + 1))
                        && #[trigger] self.hits_at(q, k).contains(u);
                if k != (x, y) {
                    assert(self.hits_before(q, x as int, y as int).contains(u));
                }
            }
            if self.hits_before(q, x as int, y as int).contains(u) {
                let k = choose|k: (i32, i32)|
                    covers(b, c, k) && (k.0 < x || (k.0 == x && k.1 < y))
                        && #[trigger] self.hits_at(q, k).contains(u);
                assert(lhs.contains(u));
            }
            if self.hits_at(q, (x, y)).contains(u) {
                assert(lhs.contains(u));
            }
        }
        assert(lhs =~= rhs);
    }

    proof fn lemma_before_next_row(&self, q: Shape, x: int, min_y: int, max_y: int)
        requires
            min_y == floor_div(q.spec_bounding_rect().min.y as int, self.cell_size()),
            max_y == ceil_div(q.spec_bounding_rect().max.y as int, self.cell_size()),
        ensures
            self.hits_before(q, x, max_y) == self.hits_before(q, x + 1, min_y),
    {
        let lhs = self.hits_before(q, x, max_y);
        let rhs = self.hits_before(q, x + 1, min_y);
        let b = q.spec_bounding_rect();
        let c = self.cell_size();
        assert forall|u: u32| lhs.contains(u) == rhs.contains(u) by {
            if lhs.contains(u) {
                let k = choose|k: (i32, i32)|
                    covers(b, c, k) && (k.0 < x || (k.0 == x && k.1 < max_y))
                        && #[trigger] self.hits_at(q, k).contains(u);
                assert(rhs.contains(u));
            }
            if rhs.contains(u) {
                let k = choose|k: (i32, i32)|
                    covers(b, c, k) && (k.0 < x + 1 || (k.0 == x + 1 && k.1 < min_y))
                        && #[trigger] self.hits_at(q, k).contains(u);
                assert(lhs.contains(u));
            }
        }
        assert(lhs =~= rhs);
    }

    proof fn lemma_before_ends(&self, q: Shape, x: int, min_x: int, max_x: int, min_y: int)
        requires
            min_x == floor_div(q.spec_bounding_rect().min.x as int, self.cell_size()),
            max_x == ceil_div(q.spec_bounding_rect().max.x as int, self.cell_size()),
            min_y == floor_div(q.spec_bounding_rect().min.y as int, self.cell_size()),
        ensures
            self.hits_before(q, min_x, min_y) == Set::<u32>::empty(),
            x >= max_x ==> self.hits_before(q, x, min_y) == self.query_result(q),
    {
        let b = q.spec_bounding_rect();
        let c = self.cell_size();
        assert(self.hits_before(q, min_x, min_y) =~= Set::<u32>::empty());
        if x >= max_x {
            let lhs = self.hits_before(q, x, min_y);
            let rhs = self.query_result(q);
            assert forall|u: u32| lhs.contains(u) == rhs.contains(u) by {
                if rhs.contains(u) {
                    let k = choose|k: (i32, i32)|
                        covers(b, c, k) && #[trigger] self.hits_at(q, k).contains(u);
                    assert(lhs.contains(u));
                }
            }
            assert(lhs =~= rhs);
        }
    }

    /// Adds to `out` the ids of the entries of `cell` whose shapes meet `shape`.
    fn scan_cell(cell: &Cell, shape: Shape, out: &mut FxHashSet<u32>)
        requires
            cell.wf(),
        ensures
            final(out)@ == old(out)@.union(
                hits_in(cell.circles@, shape, cell.circles@.len() as int),
            ).union(hits_in(cell.aabbs@, shape, cell.aabbs@.len() as int)),
    {
        let ghost start = out@;
        let mut i: usize = 0;
        while i < cell.aabbs.len()
            invariant
                cell.wf(),
                i <= cell.aabbs@.len(),
                out@ == start.union(hits_in(cell.aabbs@, shape, i as int)),
            decreases cell.aabbs@.len() - i,
        {
            let data = &cell.aabbs[i];
            let ghost before = out@;
            proof {
                lemma_hits_in_step(cell.aabbs@, shape, i as int);
            }
            let hit = match shape {
                Shape::Circle(circle) => intersect_aabb_circle(data.shape.as_aabb(), &circle),
                Shape::Aabb(aabb) => intersect_aabb_aabb(data.shape.as_aabb(), &aabb),
            };
            if hit {
                id_insert(out, data.userdata.linearize());
            }
            assert(out@ =~= start.union(hits_in(cell.aabbs@, shape, i + 1)));
            i = i + 1;
        }
        let ghost mid = out@;
        let mut i: usize = 0;
        while i < cell.circles.len()
            invariant
                cell.wf(),
                i <= cell.circles@.len(),
                out@ == mid.union(hits_in(cell.circles@, shape, i as int)),
            decreases cell.circles@.len() - i,
        {
            let data = &cell.circles[i];
            proof {
                lemma_hits_in_step(cell.circles@, shape, i as int);
            }
            let hit = match shape {
                Shape::Circle(circle) => intersect_circle_circle(data.shape.as_circle(), &circle),
                Shape::Aabb(aabb) => intersect_aabb_circle(&aabb, data.shape.as_circle()),
            };
            if hit {
                id_insert(out, data.userdata.linearize());
            }
            assert(out@ =~= mid.union(hits_in(cell.circles@, shape, i + 1)));
            i = i + 1;
        }
        assert(out@ =~= start.union(
            hits_in(cell.circles@, shape, cell.circles@.len() as int),
        ).union(hits_in(cell.aabbs@, shape, cell.aabbs@.len() as int)));
    }

    /// Fills `out_vec`, cleared first, with the ids of the stored entries that
    /// meet the query's shape, each id once.
    pub fn query(&self, query: SpatialQuery, out_vec: &mut FxHashSet<u32>)
        requires
            self.wf(),
            query.spec_shape().wf(),
        ensures
            final(out_vec)@ == self.query_result(query.spec_shape()),
    {
        match query {
            SpatialQuery::ShapeQuery(shape) => {
                let bounding_rect = shape.bounding_rect();
                let min_x = floor_cell(bounding_rect.min.x, self.grid_size);
                let min_y = floor_cell(bounding_rect.min.y, self.grid_size);
                let max_x = ceil_cell(bounding_rect.max.x, self.grid_size);
                let max_y = ceil_cell(bounding_rect.max.y, self.grid_size);
                out_vec.clear();
                proof {
                    self.lemma_before_ends(shape, min_x as int, min_x as int, max_x as int, min_y as int);
                }
                let mut x: i32 = min_x;
                while x < max_x
                    invariant
                        self.wf(),
                        bounding_rect == shape.spec_bounding_rect(),
                        min_x == floor_div(bounding_rect.min.x as int, self.cell_size()),
                        min_y == floor_div(bounding_rect.min.y as int, self.cell_size()),
                        max_x == ceil_div(bounding_rect.max.x as int, self.cell_size()),
                        max_y == ceil_div(bounding_rect.max.y as int, self.cell_size()),
                        min_x <= x,
                        out_vec@ == self.hits_before(shape, x as int, min_y as int),
                    decreases max_x - x,
                {
                    let mut y: i32 = min_y;
                    while y < max_y
                        invariant
                            self.wf(),
                            bounding_rect == shape.spec_bounding_rect(),
                            min_x == floor_div(bounding_rect.min.x as int, self.cell_size()),
                            min_y == floor_div(bounding_rect.min.y as int, self.cell_size()),
                            max_x == ceil_div(bounding_rect.max.x as int, self.cell_size()),
                            max_y == ceil_div(bounding_rect.max.y as int, self.cell_size()),
                            min_x <= x < max_x,
                            min_y <= y,
                            out_vec@ == self.hits_before(shape, x as int, y as int),
                        decreases max_y - y,
                    {
                        let key = (x, y);
                        proof {
                            self.lemma_before_next_cell(shape, x, y);
                        }
                        match cell_get(&self.inner, key) {
                            Some(cell) => {
                                assert(self.cells().contains_key(key));
                                Self::scan_cell(cell, shape, out_vec);
                            },
                            None => {
                                assert(self.hits_at(shape, key) =~= Set::<u32>::empty());
                            },
                        }
                        y = y + 1;
                    }
                    proof {
                        self.lemma_before_next_row(shape, x as int, min_y as int, max_y as int);
                    }
                    x = x + 1;
                }
                proof {
                    self.lemma_before_ends(shape, x as int, min_x as int, max_x as int, min_y as int);
                }
            },
        }
    }
}

/// A stored shape is reported by any later query whose shape meets it and
/// whose cell range shares a cell with the stored shape's, also when the
/// stored shape straddles a cell border.
pub proof fn lemma_query_finds_inserted(
    prev: SpatialHash,
    next: SpatialHash,
    shape: Shape,
    data: SpatialUserData,
    q: Shape,
    k: (i32, i32),
)
    requires
        next.inserted(&prev, shape, data),
        shapes_hit(shape, q),
        covers(shape.spec_bounding_rect(), prev.cell_size(), k),
        covers(q.spec_bounding_rect(), next.cell_size(), k),
    ensures
        next.query_result(q).contains(linear_id(data)),
{
    let e = SpatialHashData { shape, userdata: data };
    assert(next.appended_at(&prev, e, k));
    if shape is Circle {
        let s = next.circles_at(k);
        assert(s[s.len() - 1] == e);
        assert(hits_in(s, q, s.len() as int).contains(linear_id(data)));
    } else {
        let s = next.aabbs_at(k);
        assert(s[s.len() - 1] == e);
        assert(hits_in(s, q, s.len() as int).contains(linear_id(data)));
    }
    assert(next.hits_at(q, k).contains(linear_id(data)));
}

/// A shape stored in an empty grid, however many cells it spans, is reported
/// once and alone by a query that meets it and whose cell range takes in all
/// of the shape's cells.
pub proof fn lemma_query_reports_once(
    prev: SpatialHash,
    next: SpatialHash,
    shape: Shape,
    data: SpatialUserData,
    q: Shape,
    k: (i32, i32),
)
    requires
        prev.cells() == Map::<(i32, i32), Cell>::empty(),
        next.inserted(&prev, shape, data),
        shapes_hit(shape, q),
        covers(shape.spec_bounding_rect(), prev.cell_size(), k),
        forall|j: (i32, i32)|
            covers(shape.spec_bounding_rect(), prev.cell_size(), j) ==> covers(
                q.spec_bounding_rect(),
                next.cell_size(),
                j,
            ),
    ensures
        next.query_result(q) == set![linear_id(data)],
{
    let e = SpatialHashData { shape, userdata: data };
    let id = linear_id(data);
    lemma_query_finds_inserted(prev, next, shape, data, q, k);
    assert forall|u: u32| #[trigger] next.query_result(q).contains(u) implies u == id by {
        let j = choose|j: (i32, i32)|
            covers(q.spec_bounding_rect(), next.cell_size(), j) && #[trigger] next.hits_at(
                q,
                j,
            ).contains(u);
        if covers(shape.spec_bounding_rect(), prev.cell_size(), j) {
            assert(next.appended_at(&prev, e, j));
            assert(forall|i: int| 0 <= i < next.circles_at(j).len() ==> next.circles_at(j)[i] == e);
            assert(forall|i: int| 0 <= i < next.aabbs_at(j).len() ==> next.aabbs_at(j)[i] == e);
        } else {
            assert(next.same_at(&prev, j));
        }
    }
    assert(next.query_result(q) =~= set![id]);
}

/// A grid without cells, as built or as cleared, reports nothing to any query.
pub proof fn lemma_empty_grid_reports_nothing(g: SpatialHash, q: Shape)
    requires
        g.cells() == Map::<(i32, i32), Cell>::empty(),
    ensures
        g.query_result(q) == Set::<u32>::empty(),
{
    assert(g.query_result(q) =~= Set::<u32>::empty());
}

/// After a clear, whatever was stored before, a grid answers every query as
/// a freshly built one does: with nothing.
pub proof fn lemma_clear_resets(stored: SpatialHash, cleared: SpatialHash, fresh: SpatialHash, q: Shape)
    requires
        cleared.cell_size() == stored.cell_size(),
        cleared.cells() == Map::<(i32, i32), Cell>::empty(),
        fresh.cells() == Map::<(i32, i32), Cell>::empty(),
    ensures
        cleared.query_result(q) == fresh.query_result(q),
        cleared.query_result(q) == Set::<u32>::empty(),
{
    lemma_empty_grid_reports_nothing(cleared, q);
    lemma_empty_grid_reports_nothing(fresh, q);
}

} // verus!
