//! The general collision pass: terrain baseline plus dynamic circles,
//! broad and narrow phase, one event per unordered entity pair.
use vstd::prelude::*;
use crate::circle::{EntityId, HitCircle};
use crate::index::GridDims;
use crate::bucket::Collision;
use crate::grid::{CellsView, Grid, cell_of, grid_pairs, members};

verus! {

/// The unordered entity pair of a collision, smaller handle first.
pub open spec fn pair_key(e: Collision) -> (EntityId, EntityId) {
    if e.a.ent <= e.b.ent {
        (e.a.ent, e.b.ent)
    } else {
        (e.b.ent, e.a.ent)
    }
}

/// Some collision of `d` is between the pair `key`.
pub open spec fn has_key(d: Seq<Collision>, key: (EntityId, EntityId)) -> bool {
    exists|i: int| 0 <= i < d.len() && pair_key(#[trigger] d[i]) == key
}

/// Keeps the first collision of each unordered pair of distinct entities,
/// in order; contacts of an entity with itself are dropped.
pub open spec fn dedup_pairs(s: Seq<Collision>) -> Seq<Collision>
    decreases s.len(),
{
    if s.len() == 0 {
        Seq::empty()
    } else {
        let d = dedup_pairs(s.drop_last());
        if s.last().a.ent == s.last().b.ent || has_key(d, pair_key(s.last())) {
            d
        } else {
            d.push(s.last())
        }
    }
}

fn key_of(e: &Collision) -> (r: (EntityId, EntityId))
    ensures
        r == pair_key(*e),
{
    if e.a.ent <= e.b.ent {
        (e.a.ent, e.b.ent)
    } else {
        (e.b.ent, e.a.ent)
    }
}

fn contains_key(d: &Vec<Collision>, key: (EntityId, EntityId)) -> (r: bool)
    ensures
        r == has_key(d@, key),
{
    let mut i: usize = 0;
    while i < d.len()
        invariant
            i <= d@.len(),
            forall|j: int| 0 <= j < i ==> pair_key(#[trigger] d@[j]) != key,
        decreases d@.len() - i,
    {
        let k = key_of(&d[i]);
        if k.0 == key.0 && k.1 == key.1 {
            return true;
        }
        i = i + 1;
    }
    false
}

/// Reduces raw contacts to one collision per unordered entity pair.
pub fn dedup_collisions(raw: &Vec<Collision>) -> (r: Vec<Collision>)
    ensures
        r@ == dedup_pairs(raw@),
{
    let mut out: Vec<Collision> = Vec::new();
    let mut i: usize = 0;
    while i < raw.len()
        invariant
            i <= raw@.len(),
            out@ == dedup_pairs(raw@.take(i as int)),
        decreases raw@.len() - i,
    {
        let e = raw[i];
        proof {
            let t = raw@.take(i + 1);
            assert(t.drop_last() == raw@.take(i as int));
            assert(t.last() == e);
        }
        if e.a.ent != e.b.ent && !contains_key(&out, key_of(&e)) {
            out.push(e);
        }
        i = i + 1;
    }
    assert(raw@.take(raw@.len() as int) == raw@);
    out
}

/// Per-tick uniqueness: no two collisions that deduplication keeps concern
/// the same unordered entity pair, none pairs an entity with itself, and
/// every pair of distinct entities found in contact is kept.
pub proof fn lemma_dedup_unique(s: Seq<Collision>)
    ensures
        forall|i: int, j: int| 0 <= i < j < dedup_pairs(s).len() ==>
            pair_key(#[trigger] dedup_pairs(s)[i]) != pair_key(#[trigger] dedup_pairs(s)[j]),
        forall|i: int| 0 <= i < dedup_pairs(s).len() ==>
            (#[trigger] dedup_pairs(s)[i]).a.ent != dedup_pairs(s)[i].b.ent,
        forall|i: int| 0 <= i < s.len() && (#[trigger] s[i]).a.ent != s[i].b.ent ==>
            has_key(dedup_pairs(s), pair_key(s[i])),
        forall|i: int| 0 <= i < dedup_pairs(s).len() ==> s.contains(#[trigger] dedup_pairs(s)[i]),
    decreases s.len(),
{
    if s.len() > 0 {
        let p = s.drop_last();
        lemma_dedup_unique(p);
        let d = dedup_pairs(p);
        let e = s.last();
        let r = dedup_pairs(s);
        assert forall|i: int| 0 <= i < r.len() implies s.contains(#[trigger] r[i]) by {
            if i < d.len() {
                assert(r[i] == d[i]);
                let k = choose|k: int| 0 <= k < p.len() && p[k] == d[i];
                assert(s[k] == p[k]);
            } else {
                assert(r[i] == e);
                assert(s[s.len() - 1] == e);
            }
        }
        assert forall|i: int| 0 <= i < s.len() && (#[trigger] s[i]).a.ent != s[i].b.ent implies
            has_key(r, pair_key(s[i])) by {
            if i < p.len() {
                assert(s[i] == p[i]);
                assert(has_key(d, pair_key(s[i])));
                let k = choose|k: int| 0 <= k < d.len() && pair_key(#[trigger] d[k]) == pair_key(s[i]);
                assert(r[k] == d[k]);
            } else {
                assert(s[i] == e);
                if !has_key(d, pair_key(e)) {
                    assert(r[d.len() as int] == e);
                } else {
                    let k = choose|k: int| 0 <= k < d.len() && pair_key(#[trigger] d[k]) == pair_key(e);
                    assert(r[k] == d[k]);
                }
            }
        }
        assert forall|i: int, j: int| 0 <= i < j < r.len() implies
            pair_key(#[trigger] r[i]) != pair_key(#[trigger] r[j]) by {
            if j < d.len() {
                assert(r[i] == d[i] && r[j] == d[j]);
            } else {
                assert(r[i] == d[i]);
                assert(r[j] == e);
                assert(!has_key(d, pair_key(e)));
            }
        }
        assert forall|i: int| 0 <= i < r.len() implies (#[trigger] r[i]).a.ent != r[i].b.ent by {
            if i < d.len() {
                assert(r[i] == d[i]);
            }
        }
    }
}

/// The cells of a tick's working grid: each baseline cell followed by the
/// dynamic circles that touch it, with the baseline count kept.
pub open spec fn tick_cells(base: CellsView, g: GridDims, dynamic: Seq<HitCircle>) -> CellsView {
    Seq::new(base.len(), |k: int| (base[k].0 + members(g, dynamic, cell_of(g, k)), base[k].1))
}

/// The static obstacle field: a grid filled once and frozen.
pub struct Terrain {
    grid: Grid,
}

impl Terrain {
    pub closed spec fn view(&self) -> Grid {
        self.grid
    }

    pub open spec fn wf(&self) -> bool {
        self@.wf()
    }

    /// Indexes every obstacle circle and makes it part of each cell's baseline.
    pub fn new(dims: GridDims, obstacles: &Vec<HitCircle>) -> (r: Terrain)
        requires
            dims.wf(),
        ensures
            r.wf(),
            r@.dims == dims,
            forall|k: int| 0 <= k < r@.cells().len() ==> #[trigger] r@.cells()[k] == (
                members(dims, obstacles@, cell_of(dims, k)),
                members(dims, obstacles@, cell_of(dims, k)).len() as int,
            ),
    {
        let mut grid = Grid::new(dims);
        grid.insert_all(obstacles);
        let ghost filled = grid.buckets@;
        grid.freeze_all();
        proof {
            assert forall|k: int| 0 <= k < grid.cells().len() implies #[trigger] grid.cells()[k] == (
                members(dims, obstacles@, cell_of(dims, k)),
                members(dims, obstacles@, cell_of(dims, k)).len() as int,
            ) by {
                assert(filled[k]@ == Seq::<HitCircle>::empty() + members(dims, obstacles@, cell_of(dims, k)));
                assert(grid.buckets@[k]@ == filled[k]@);
            }
        }
        Terrain { grid }
    }

    /// The baseline grid.
    pub fn grid(&self) -> (r: &Grid)
        ensures
            *r == self@,
    {
        &self.grid
    }
}

/// The general collision pass over a fixed terrain baseline.
pub struct CollisionSystem {
    terrain: Terrain,
}

impl CollisionSystem {
    pub closed spec fn terrain(&self) -> Terrain {
        self.terrain
    }

    pub open spec fn wf(&self) -> bool {
        self.terrain().wf()
    }

    pub fn new(terrain: Terrain) -> (r: CollisionSystem)
        ensures
            r.terrain() == terrain,
    {
        CollisionSystem { terrain }
    }

    /// The baseline this system starts every tick from.
    pub fn terrain_ref(&self) -> (r: &Terrain)
        ensures
            *r == self.terrain(),
    {
        &self.terrain
    }

    /// One tick: copies the baseline, indexes the dynamic circles, tests
    /// every bucket, and keeps one collision per unordered entity pair.
    /// The baseline itself is only read.
    pub fn run(&self, dynamic: &Vec<HitCircle>) -> (r: Vec<Collision>)
        requires
            self.wf(),
        ensures
            r@ == dedup_pairs(grid_pairs(tick_cells(self.terrain()@.cells(), self.terrain()@.dims, dynamic@))),
    {
        let base = self.terrain.grid();
        let mut work = base.duplicate();
        work.insert_all(dynamic);
        proof {
            assert(work.cells() =~= tick_cells(base.cells(), base.dims, dynamic@));
        }
        let mut raw: Vec<Collision> = Vec::new();
        work.collide_all(&mut raw);
        assert(raw@ == Seq::<Collision>::empty() + grid_pairs(work.cells()));
        dedup_collisions(&raw)
    }
}

/// A tick with no dynamic circles works on exactly the baseline cells.
pub proof fn lemma_empty_tick_is_baseline(t: Terrain)
    requires
        t.wf(),
    ensures
        tick_cells(t@.cells(), t@.dims, Seq::empty()) == t@.cells(),
{
    let g = t@.dims;
    assert forall|k: int| 0 <= k < t@.cells().len() implies
        #[trigger] tick_cells(t@.cells(), g, Seq::empty())[k] == t@.cells()[k] by {
        assert(members(g, Seq::<HitCircle>::empty(), cell_of(g, k)) == Seq::<HitCircle>::empty());
        assert(t@.cells()[k].0 + Seq::<HitCircle>::empty() == t@.cells()[k].0);
    }
    assert(tick_cells(t@.cells(), g, Seq::empty()) =~= t@.cells());
}

/// Per-tick uniqueness of the general pass: the events of a tick name each
/// unordered pair of distinct entities at most once, however many cells
/// or circles the two share.
pub proof fn lemma_tick_events_unique(t: Terrain, dynamic: Seq<HitCircle>)
    ensures
        ({
            let r = dedup_pairs(grid_pairs(tick_cells(t@.cells(), t@.dims, dynamic)));
            forall|i: int, j: int| 0 <= i < j < r.len() ==> pair_key(#[trigger] r[i]) != pair_key(#[trigger] r[j])
        }),
{
    lemma_dedup_unique(grid_pairs(tick_cells(t@.cells(), t@.dims, dynamic)));
}

} // verus!
