//! A fixed-size two-dimensional array of buckets covering the world.
use vstd::prelude::*;
use crate::circle::HitCircle;
use crate::index::{GridDims, covers, intersected_buckets};
use crate::bucket::{Bucket, Collision, all_pairs};

verus! {

/// The cell stored at flat position `k` (row-major over columns).
pub open spec fn cell_of(g: GridDims, k: int) -> (usize, usize) {
    ((k / g.rows as int) as usize, (k % g.rows as int) as usize)
}

/// The circles of `s` whose bounding box meets cell `p`, in order.
pub open spec fn members(g: GridDims, s: Seq<HitCircle>, p: (usize, usize)) -> Seq<HitCircle>
    decreases s.len(),
{
    if s.len() == 0 {
        Seq::empty()
    } else {
        members(g, s.drop_last(), p) + if covers(g, s.last(), p) {
            seq![s.last()]
        } else {
            Seq::empty()
        }
    }
}

/// Contents of each cell (circles, baseline count).
pub type CellsView = Seq<(Seq<HitCircle>, int)>;

/// The all-pairs results of every cell, in cell order.
pub open spec fn grid_pairs(cells: CellsView) -> Seq<Collision>
    decreases cells.len(),
{
    if cells.len() == 0 {
        Seq::empty()
    } else {
        grid_pairs(cells.drop_last()) + all_pairs(cells.last().0, cells.last().1)
    }
}

pub struct Grid {
    pub dims: GridDims,
    pub buckets: Vec<Bucket>,
}

pub(crate) proof fn lemma_flat_cell(g: GridDims, p: (usize, usize))
    requires
        g.wf(),
        p.0 < g.cols,
        p.1 < g.rows,
    ensures
        0 <= g.flat(p.0 as int, p.1 as int) < g.cell_count(),
        cell_of(g, g.flat(p.0 as int, p.1 as int)) == p,
{
    let k = p.0 * g.rows + p.1;
    vstd::arithmetic::div_mod::lemma_fundamental_div_mod_converse(k, g.rows as int, p.0 as int, p.1 as int);
    assert(k < g.cols * g.rows) by (nonlinear_arith)
        requires
            k == p.0 * g.rows + p.1,
            p.0 < g.cols,
            p.1 < g.rows,
    ;
}

pub(crate) proof fn lemma_cell_count_fits(g: GridDims)
    requires
        g.wf(),
    ensures
        g.cols * g.rows <= 0xffff_ffff,
{
    assert(g.cols * g.rows <= 0xffff_ffff) by (nonlinear_arith)
        requires
            g.cols <= 0xffff,
            g.rows <= 0xffff,
    ;
}

proof fn lemma_cell_flat(g: GridDims, k: int)
    requires
        g.wf(),
        0 <= k < g.cell_count(),
    ensures
        cell_of(g, k).0 < g.cols,
        cell_of(g, k).1 < g.rows,
        g.flat(cell_of(g, k).0 as int, cell_of(g, k).1 as int) == k,
{
    let r = g.rows as int;
    vstd::arithmetic::div_mod::lemma_fundamental_div_mod(k, r);
    vstd::arithmetic::div_mod::lemma_mod_bound(k, r);
    vstd::arithmetic::div_mod::lemma_div_pos_is_pos(k, r);
    let q = k / r;
    assert(q < g.cols) by (nonlinear_arith)
        requires
            k == r * q + k % r,
            0 <= k % r,
            k < g.cols * r,
            r > 0,
    ;
}

/// Cell `p` is among the first `i` entries of `cells`.
pub open spec fn listed(cells: Seq<(usize, usize)>, i: int, p: (usize, usize)) -> bool {
    exists|m: int| 0 <= m < i && cells[m] == p
}

impl Grid {
    pub open spec fn wf(&self) -> bool {
        &&& self.dims.wf()
        &&& self.buckets@.len() == self.dims.cell_count()
        &&& forall|k: int| 0 <= k < self.buckets@.len() ==> #[trigger] self.buckets@[k].wf()
    }

    pub open spec fn cells(&self) -> CellsView {
        Seq::new(self.buckets@.len(), |k: int| (self.buckets@[k]@, self.buckets@[k].fixed as int))
    }

    /// A grid of empty buckets.
    pub fn new(dims: GridDims) -> (r: Grid)
        requires
            dims.wf(),
        ensures
            r.wf(),
            r.dims == dims,
            forall|k: int| 0 <= k < r.buckets@.len() ==> #[trigger] r.buckets@[k]@ == Seq::<HitCircle>::empty()
                && r.buckets@[k].fixed == 0,
    {
        proof {
            lemma_cell_count_fits(dims);
        }
        let n: usize = dims.cols * dims.rows;
        let mut buckets: Vec<Bucket> = Vec::new();
        let mut i: usize = 0;
        while i < n
            invariant
                i <= n == dims.cell_count(),
                buckets@.len() == i,
                forall|k: int| 0 <= k < i ==> (#[trigger] buckets@[k])@ == Seq::<HitCircle>::empty()
                    && buckets@[k].fixed == 0 && buckets@[k].wf(),
            decreases n - i,
        {
            buckets.push(Bucket::new());
            i = i + 1;
        }
        let r = Grid { dims, buckets };
        assert forall|k: int| 0 <= k < r.buckets@.len() implies #[trigger] r.buckets@[k].wf() by {
            assert(buckets@[k].wf());
        }
        r
    }

    /// The same grid, bucket for bucket.
    pub fn duplicate(&self) -> (r: Grid)
        requires
            self.wf(),
        ensures
            r.wf(),
            r.dims == self.dims,
            r.cells() == self.cells(),
    {
        let mut buckets: Vec<Bucket> = Vec::new();
        let mut i: usize = 0;
        while i < self.buckets.len()
            invariant
                self.wf(),
                i <= self.buckets@.len(),
                buckets@.len() == i,
                forall|k: int| 0 <= k < i ==> (#[trigger] buckets@[k])@ == self.buckets@[k]@
                    && buckets@[k].fixed == self.buckets@[k].fixed && buckets@[k].wf(),
            decreases self.buckets@.len() - i,
        {
            buckets.push(self.buckets[i].duplicate());
            i = i + 1;
        }
        let r = Grid { dims: self.dims, buckets };
        assert forall|k: int| 0 <= k < r.buckets@.len() implies #[trigger] r.buckets@[k].wf() by {
            assert(buckets@[k].wf());
        }
        assert(r.cells() =~= self.cells());
        r
    }

    /// Adds the circle to every bucket that the grid index gives for it.
    pub fn insert(&mut self, c: HitCircle)
        requires
            old(self).wf(),
        ensures
            final(self).wf(),
            final(self).dims == old(self).dims,
            forall|k: int| 0 <= k < final(self).buckets@.len() ==> #[trigger] final(self).buckets@[k]@ == (
                if covers(old(self).dims, c, cell_of(old(self).dims, k)) {
                    old(self).buckets@[k]@.push(c)
                } else {
                    old(self).buckets@[k]@
                }) && final(self).buckets@[k].fixed == old(self).buckets@[k].fixed,
    {
        let g = self.dims;
        let cells = intersected_buckets(&g, &c);
        let mut i: usize = 0;
        while i < cells.len()
            invariant
                self.wf(),
                self.dims == g,
                self.buckets@.len() == old(self).buckets@.len(),
                i <= cells@.len(),
                cells@.no_duplicates(),
                forall|p: (usize, usize)| cells@.contains(p) <==> covers(g, c, p),
                forall|k: int| 0 <= k < self.buckets@.len() ==> #[trigger] self.buckets@[k]@ == (
                    if listed(cells@, i as int, cell_of(g, k)) {
                        old(self).buckets@[k]@.push(c)
                    } else {
                        old(self).buckets@[k]@
                    }) && self.buckets@[k].fixed == old(self).buckets@[k].fixed,
            decreases cells@.len() - i,
        {
            let p = cells[i];
            proof {
                assert(cells@.contains(p));
                lemma_flat_cell(g, p);
            }
            proof {
                lemma_cell_count_fits(g);
            }
            let idx: usize = p.0 * g.rows + p.1;
            let ghost before = self.buckets@;
            self.buckets[idx].insert(c);
            proof {
                assert forall|k: int| 0 <= k < self.buckets@.len() implies #[trigger] self.buckets@[k]@ == (
                    if listed(cells@, i + 1, cell_of(g, k)) {
                        old(self).buckets@[k]@.push(c)
                    } else {
                        old(self).buckets@[k]@
                    }) && self.buckets@[k].fixed == old(self).buckets@[k].fixed by {
                    lemma_cell_flat(g, k);
                    assert(before[k]@ == if listed(cells@, i as int, cell_of(g, k)) {
                        old(self).buckets@[k]@.push(c)
                    } else {
                        old(self).buckets@[k]@
                    });
                    if k == idx {
                        assert(cells@[i as int] == cell_of(g, k));
                        assert(!listed(cells@, i as int, cell_of(g, k)));
                        assert(listed(cells@, i + 1, cell_of(g, k)));
                        assert(self.buckets@[k]@ == before[k]@.push(c));
                    } else {
                        assert(self.buckets@[k] == before[k]);
                        assert(cell_of(g, k) != p);
                        if listed(cells@, i + 1, cell_of(g, k)) {
                            let m = choose|m: int| 0 <= m < i + 1 && cells@[m] == cell_of(g, k);
                            assert(m < i);
                        }
                    }
                }
                assert forall|k: int| 0 <= k < self.buckets@.len() implies #[trigger] self.buckets@[k].wf() by {
                    if k != idx {
                        assert(self.buckets@[k] == before[k]);
                    }
                }
            }
            i = i + 1;
        }
        proof {
            assert forall|k: int| 0 <= k < self.buckets@.len() implies
                listed(cells@, cells@.len() as int, cell_of(g, k))
                    == covers(g, c, cell_of(g, k)) by {
                if covers(g, c, cell_of(g, k)) {
                    assert(cells@.contains(cell_of(g, k)));
                }
            }
            assert forall|k: int| 0 <= k < self.buckets@.len() implies #[trigger] self.buckets@[k]@ == (
                if covers(g, c, cell_of(g, k)) {
                    old(self).buckets@[k]@.push(c)
                } else {
                    old(self).buckets@[k]@
                }) && self.buckets@[k].fixed == old(self).buckets@[k].fixed by {
                assert(self.buckets@[k]@ == if listed(cells@, cells@.len() as int, cell_of(g, k)) {
                    old(self).buckets@[k]@.push(c)
                } else {
                    old(self).buckets@[k]@
                });
                if covers(g, c, cell_of(g, k)) {
                    assert(cells@.contains(cell_of(g, k)));
                    assert(listed(cells@, cells@.len() as int, cell_of(g, k)));
                }
            }
        }
    }

    /// Inserts every circle of `s`, in order.
    pub fn insert_all(&mut self, s: &Vec<HitCircle>)
        requires
            old(self).wf(),
        ensures
            final(self).wf(),
            final(self).dims == old(self).dims,
            forall|k: int| 0 <= k < final(self).buckets@.len() ==> #[trigger] final(self).buckets@[k]@
                == old(self).buckets@[k]@ + members(old(self).dims, s@, cell_of(old(self).dims, k))
                && final(self).buckets@[k].fixed == old(self).buckets@[k].fixed,
    {
        let mut i: usize = 0;
        while i < s.len()
            invariant
                self.wf(),
                self.dims == old(self).dims,
                self.buckets@.len() == old(self).buckets@.len(),
                i <= s@.len(),
                forall|k: int| 0 <= k < self.buckets@.len() ==> #[trigger] self.buckets@[k]@
                    == old(self).buckets@[k]@ + members(self.dims, s@.take(i as int), cell_of(self.dims, k))
                    && self.buckets@[k].fixed == old(self).buckets@[k].fixed,
            decreases s@.len() - i,
        {
            let ghost before = self.buckets@;
            self.insert(s[i]);
            proof {
                let g = self.dims;
                assert forall|k: int| 0 <= k < self.buckets@.len() implies #[trigger] self.buckets@[k]@
                    == old(self).buckets@[k]@ + members(g, s@.take(i + 1), cell_of(g, k))
                    && self.buckets@[k].fixed == old(self).buckets@[k].fixed by {
                    let t = s@.take(i + 1);
                    assert(t.drop_last() == s@.take(i as int));
                    assert(t.last() == s@[i as int]);
                    assert(before[k]@ == old(self).buckets@[k]@ + members(g, s@.take(i as int), cell_of(g, k)));
                    if covers(g, s@[i as int], cell_of(g, k)) {
                        assert(members(g, t, cell_of(g, k)) == members(g, s@.take(i as int), cell_of(g, k))
                            + seq![s@[i as int]]);
                    } else {
                        assert(members(g, t, cell_of(g, k)) == members(g, s@.take(i as int), cell_of(g, k))
                            + Seq::<HitCircle>::empty());
                    }
                }
            }
            i = i + 1;
        }
        assert(s@.take(s@.len() as int) == s@);
    }

    /// Makes the current contents of every bucket its static baseline.
    pub fn freeze_all(&mut self)
        requires
            old(self).wf(),
        ensures
            final(self).wf(),
            final(self).dims == old(self).dims,
            forall|k: int| 0 <= k < final(self).buckets@.len() ==> (#[trigger] final(self).buckets@[k])@
                == old(self).buckets@[k]@ && final(self).buckets@[k].fixed == old(self).buckets@[k]@.len(),
            final(self).buckets@.len() == old(self).buckets@.len(),
    {
        let mut i: usize = 0;
        while i < self.buckets.len()
            invariant
                self.wf(),
                self.dims == old(self).dims,
                self.buckets@.len() == old(self).buckets@.len(),
                i <= self.buckets@.len(),
                forall|k: int| 0 <= k < self.buckets@.len() ==> (#[trigger] self.buckets@[k])@
                    == old(self).buckets@[k]@ && self.buckets@[k].fixed == (if k < i {
                        old(self).buckets@[k]@.len() as int
                    } else {
                        old(self).buckets@[k].fixed as int
                    }),
            decreases self.buckets@.len() - i,
        {
            let ghost before = self.buckets@;
            self.buckets[i].freeze();
            proof {
                assert forall|k: int| 0 <= k < self.buckets@.len() implies (#[trigger] self.buckets@[k])@
                    == old(self).buckets@[k]@ && self.buckets@[k].fixed == (if k < i + 1 {
                        old(self).buckets@[k]@.len() as int
                    } else {
                        old(self).buckets@[k].fixed as int
                    }) && self.buckets@[k].wf() by {
                    if k != i {
                        assert(self.buckets@[k] == before[k]);
                    }
                }
            }
            i = i + 1;
        }
    }

    /// Runs the all-pairs test of every bucket in cell order and appends
    /// what it reports to `out`.
    pub fn collide_all(&self, out: &mut Vec<Collision>)
        requires
            self.wf(),
        ensures
            final(out)@ == old(out)@ + grid_pairs(self.cells()),
    {
        let mut i: usize = 0;
        while i < self.buckets.len()
            invariant
                self.wf(),
                i <= self.buckets@.len(),
                out@ == old(out)@ + grid_pairs(self.cells().take(i as int)),
            decreases self.buckets@.len() - i,
        {
            assert(self.buckets@[i as int].wf());
            self.buckets[i].collide_all(out);
            proof {
                let t = self.cells().take(i + 1);
                assert(t.drop_last() == self.cells().take(i as int));
                assert(t.last() == (self.buckets@[i as int]@, self.buckets@[i as int].fixed as int));
                vstd::seq_lib::lemma_concat_associative(
                    old(out)@,
                    grid_pairs(self.cells().take(i as int)),
                    all_pairs(self.buckets@[i as int]@, self.buckets@[i as int].fixed as int),
                );
            }
            i = i + 1;
        }
        assert(self.cells().take(self.buckets@.len() as int) == self.cells());
    }
}

/// A cell's members are exactly the circles of `s` that touch it.
pub proof fn lemma_members_contains(g: GridDims, s: Seq<HitCircle>, p: (usize, usize))
    ensures
        forall|x: HitCircle| #[trigger] members(g, s, p).contains(x) <==> s.contains(x) && covers(g, x, p),
    decreases s.len(),
{
    if s.len() > 0 {
        let q = s.drop_last();
        lemma_members_contains(g, q, p);
        let l = members(g, q, p);
        let t: Seq<HitCircle> = if covers(g, s.last(), p) {
            seq![s.last()]
        } else {
            Seq::empty()
        };
        assert(members(g, s, p) == l + t);
        assert forall|x: HitCircle| #[trigger] members(g, s, p).contains(x) <==> s.contains(x) && covers(g, x, p) by {
            if members(g, s, p).contains(x) {
                let k = choose|k: int| 0 <= k < members(g, s, p).len() && members(g, s, p)[k] == x;
                if k < l.len() {
                    assert(l[k] == x);
                    assert(l.contains(x));
                    let j = choose|j: int| 0 <= j < q.len() && q[j] == x;
                    assert(s[j] == x);
                } else {
                    assert(t[k - l.len()] == x);
                    assert(s[s.len() - 1] == x);
                }
            }
            if s.contains(x) && covers(g, x, p) {
                let j = choose|j: int| 0 <= j < s.len() && s[j] == x;
                if j < q.len() {
                    assert(q[j] == x);
                    assert(q.contains(x));
                    assert(l.contains(x));
                    let k = choose|k: int| 0 <= k < l.len() && l[k] == x;
                    assert(members(g, s, p)[k] == x);
                } else {
                    assert(members(g, s, p)[l.len() as int] == x);
                }
            }
        }
    }
}

} // verus!
