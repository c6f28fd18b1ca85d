//! The missile-versus-player pass: players are indexed in a grid of their
//! own, each live missile circle probes the cells it touches, and each
//! (missile, player) pair is reported at most once per tick.
use vstd::prelude::*;
use crate::circle::{EntityId, HitCircle, overlap};
use crate::index::{GridDims, covers, intersected_buckets};
use crate::bucket::{Collision, lemma_probe_members, lemma_probe_sound, probe};
use crate::grid::{Grid, cell_of, lemma_members_contains, members};

verus! {

/// A missile in contact with a player, at the missile circle's position.
#[derive(Clone, Copy, Debug, PartialEq, Eq, Structural)]
pub struct PlayerMissileCollision {
    pub missile: EntityId,
    pub player: EntityId,
    pub x: i32,
    pub y: i32,
}

/// Both circles touch some common cell of the grid.
pub open spec fn shares_cell(g: GridDims, a: HitCircle, b: HitCircle) -> bool {
    exists|p: (usize, usize)| covers(g, a, p) && covers(g, b, p)
}

/// Missile circle `m` meets some circle of player `pe` in a common cell.
pub open spec fn detects(g: GridDims, players: Seq<HitCircle>, m: HitCircle, pe: EntityId) -> bool {
    exists|j: int|
        0 <= j < players.len() && (#[trigger] players[j]).ent == pe && overlap(m, players[j])
            && shares_cell(g, m, players[j])
}

/// Some circle of missile `me` meets some circle of player `pe`.
pub open spec fn hit_by(
    g: GridDims,
    players: Seq<HitCircle>,
    missiles: Seq<HitCircle>,
    me: EntityId,
    pe: EntityId,
) -> bool {
    exists|i: int| 0 <= i < missiles.len() && (#[trigger] missiles[i]).ent == me && detects(g, players, missiles[i], pe)
}

/// Some event of `d` is for the pair (`me`, `pe`).
pub open spec fn has_hit(d: Seq<PlayerMissileCollision>, me: EntityId, pe: EntityId) -> bool {
    exists|k: int| 0 <= k < d.len() && (#[trigger] d[k]).missile == me && d[k].player == pe
}

/// No two events of `d` are for the same (missile, player) pair.
pub open spec fn unique_hits(d: Seq<PlayerMissileCollision>) -> bool {
    forall|i: int, j: int| 0 <= i < j < d.len() ==>
        !((#[trigger] d[i]).missile == (#[trigger] d[j]).missile && d[i].player == d[j].player)
}

/// The event stands for a contact of one of the missile circles.
pub open spec fn justified(
    g: GridDims,
    players: Seq<HitCircle>,
    missiles: Seq<HitCircle>,
    e: PlayerMissileCollision,
) -> bool {
    exists|i: int|
        0 <= i < missiles.len() && (#[trigger] missiles[i]).ent == e.missile && missiles[i].x == e.x
            && missiles[i].y == e.y && detects(g, players, missiles[i], e.player)
}

fn is_live(live: &Vec<EntityId>, e: EntityId) -> (r: bool)
    ensures
        r == live@.contains(e),
{
    let mut i: usize = 0;
    while i < live.len()
        invariant
            i <= live@.len(),
            forall|j: int| 0 <= j < i ==> live@[j] != e,
        decreases live@.len() - i,
    {
        if live[i] == e {
            return true;
        }
        i = i + 1;
    }
    false
}

fn contains_hit(d: &Vec<PlayerMissileCollision>, me: EntityId, pe: EntityId) -> (r: bool)
    ensures
        r == has_hit(d@, me, pe),
{
    let mut i: usize = 0;
    while i < d.len()
        invariant
            i <= d@.len(),
            forall|j: int| 0 <= j < i ==> !((#[trigger] d@[j]).missile == me && d@[j].player == pe),
        decreases d@.len() - i,
    {
        if d[i].missile == me && d[i].player == pe {
            return true;
        }
        i = i + 1;
    }
    false
}

/// Records the pair unless it is already there.
fn add_hit(out: &mut Vec<PlayerMissileCollision>, e: PlayerMissileCollision)
    requires
        unique_hits(old(out)@),
    ensures
        unique_hits(final(out)@),
        final(out)@ == if has_hit(old(out)@, e.missile, e.player) {
            old(out)@
        } else {
            old(out)@.push(e)
        },
{
    if !contains_hit(out, e.missile, e.player) {
        out.push(e);
        proof {
            let d = out@;
            assert forall|i: int, j: int| 0 <= i < j < d.len() implies
                !((#[trigger] d[i]).missile == (#[trigger] d[j]).missile && d[i].player == d[j].player) by {
                if j == d.len() - 1 {
                    assert(d[i] == old(out)@[i]);
                } else {
                    assert(d[i] == old(out)@[i] && d[j] == old(out)@[j]);
                }
            }
        }
    }
}

/// Probes one missile circle against the player grid.
fn collide_missile(
    grid: &Grid,
    players: &Vec<HitCircle>,
    m: &HitCircle,
    out: &mut Vec<PlayerMissileCollision>,
)
    requires
        grid.wf(),
        forall|k: int| 0 <= k < grid.buckets@.len() ==> #[trigger] grid.buckets@[k]@ == members(
            grid.dims,
            players@,
            cell_of(grid.dims, k),
        ),
        unique_hits(old(out)@),
    ensures
        unique_hits(final(out)@),
        final(out)@.len() >= old(out)@.len(),
        forall|k: int| 0 <= k < old(out)@.len() ==> #[trigger] final(out)@[k] == old(out)@[k],
        forall|k: int| old(out)@.len() <= k < final(out)@.len() ==> (#[trigger] final(out)@[k]).missile == m.ent
            && final(out)@[k].x == m.x && final(out)@[k].y == m.y
            && detects(grid.dims, players@, *m, final(out)@[k].player),
        forall|pe: EntityId| detects(grid.dims, players@, *m, pe) ==> has_hit(final(out)@, m.ent, pe),
{
    let g = grid.dims;
    let cells = intersected_buckets(&g, m);
    let ghost start = out@;
    let mut ci: usize = 0;
    while ci < cells.len()
        invariant
            grid.wf(),
            grid.dims == g,
            forall|k: int| 0 <= k < grid.buckets@.len() ==> #[trigger] grid.buckets@[k]@ == members(
                g,
                players@,
                cell_of(g, k),
            ),
            forall|p: (usize, usize)| cells@.contains(p) <==> covers(g, *m, p),
            ci <= cells@.len(),
            unique_hits(out@),
            out@.len() >= start.len(),
            forall|k: int| 0 <= k < start.len() ==> #[trigger] out@[k] == start[k],
            forall|k: int| start.len() <= k < out@.len() ==> (#[trigger] out@[k]).missile == m.ent
                && out@[k].x == m.x && out@[k].y == m.y && detects(g, players@, *m, out@[k].player),
            forall|x: HitCircle| #[trigger] players@.contains(x) && overlap(*m, x) && (exists|c: int|
                0 <= c < ci && covers(g, x, cells@[c])) ==> has_hit(out@, m.ent, x.ent),
        decreases cells@.len() - ci,
    {
        let p = cells[ci];
        proof {
            assert(cells@.contains(p));
            crate::grid::lemma_flat_cell(g, p);
            crate::grid::lemma_cell_count_fits(g);
        }
        let idx: usize = p.0 * g.rows + p.1;
        let mut tmp: Vec<Collision> = Vec::new();
        grid.buckets[idx].collide(m, &mut tmp);
        let ghost bucket = members(g, players@, p);
        proof {
            assert(grid.buckets@[idx as int]@ == bucket);
            assert(tmp@ == Seq::<Collision>::empty() + probe(bucket, *m));
            assert(tmp@ == probe(bucket, *m));
            lemma_probe_members(bucket, *m);
            lemma_probe_sound(bucket, *m);
            lemma_members_contains(g, players@, p);
        }
        let ghost mid = out@;
        let mut ti: usize = 0;
        while ti < tmp.len()
            invariant
                tmp@ == probe(bucket, *m),
                forall|k: int| 0 <= k < tmp@.len() ==> bucket.contains(#[trigger] tmp@[k].b),
                forall|k: int| 0 <= k < tmp@.len() ==> (#[trigger] tmp@[k]).a == *m && overlap(tmp@[k].a, tmp@[k].b),
                forall|x: HitCircle| #[trigger] bucket.contains(x) <==> players@.contains(x) && covers(g, x, p),
                covers(g, *m, p),
                ti <= tmp@.len(),
                unique_hits(out@),
                out@.len() >= mid.len(),
                forall|k: int| 0 <= k < mid.len() ==> #[trigger] out@[k] == mid[k],
                forall|k: int| start.len() <= k < out@.len() ==> (#[trigger] out@[k]).missile == m.ent
                    && out@[k].x == m.x && out@[k].y == m.y && detects(g, players@, *m, out@[k].player),
                mid.len() >= start.len(),
                forall|k: int| 0 <= k < ti ==> has_hit(out@, m.ent, (#[trigger] tmp@[k]).b.ent),
            decreases tmp@.len() - ti,
        {
            let e = tmp[ti];
            let ghost prev = out@;
            proof {
                assert(bucket.contains(e.b));
                let j = choose|j: int| 0 <= j < players@.len() && players@[j] == e.b;
                assert(shares_cell(g, *m, e.b));
                assert(detects(g, players@, *m, e.b.ent));
            }
            add_hit(out, PlayerMissileCollision { missile: m.ent, player: e.b.ent, x: m.x, y: m.y });
            proof {
                assert forall|k: int| 0 <= k < ti + 1 implies has_hit(out@, m.ent, (#[trigger] tmp@[k]).b.ent) by {
                    if k < ti {
                        assert(has_hit(prev, m.ent, tmp@[k].b.ent));
                        let q = choose|q: int| 0 <= q < prev.len() && (#[trigger] prev[q]).missile == m.ent
                            && prev[q].player == tmp@[k].b.ent;
                        assert(out@[q] == prev[q]);
                    } else if !has_hit(prev, m.ent, e.b.ent) {
                        assert(out@[prev.len() as int].player == e.b.ent);
                    }
                }
            }
            ti = ti + 1;
        }
        proof {
            assert forall|x: HitCircle| #[trigger] players@.contains(x) && overlap(*m, x) && (exists|c: int|
                0 <= c < ci + 1 && covers(g, x, cells@[c])) implies has_hit(out@, m.ent, x.ent) by {
                let c = choose|c: int| 0 <= c < ci + 1 && covers(g, x, cells@[c]);
                if c == ci {
                    assert(bucket.contains(x));
                    assert(tmp@.contains(Collision { a: *m, b: x }));
                    let k = choose|k: int| 0 <= k < tmp@.len() && tmp@[k] == Collision { a: *m, b: x };
                    assert(has_hit(out@, m.ent, tmp@[k].b.ent));
                } else {
                    assert(has_hit(mid, m.ent, x.ent));
                    let q = choose|q: int| 0 <= q < mid.len() && (#[trigger] mid[q]).missile == m.ent
                        && mid[q].player == x.ent;
                    assert(out@[q] == mid[q]);
                }
            }
        }
        ci = ci + 1;
    }
    proof {
        assert forall|pe: EntityId| detects(g, players@, *m, pe) implies has_hit(out@, m.ent, pe) by {
            let j = choose|j: int| 0 <= j < players@.len() && (#[trigger] players@[j]).ent == pe
                && overlap(*m, players@[j]) && shares_cell(g, *m, players@[j]);
            let x = players@[j];
            let p = choose|p: (usize, usize)| covers(g, *m, p) && covers(g, x, p);
            assert(cells@.contains(p));
            let c = choose|c: int| 0 <= c < cells@.len() && cells@[c] == p;
            assert(players@.contains(x));
            assert(covers(g, x, cells@[c]));
        }
    }
}

/// The missile-versus-player pass.  It holds no state between ticks.
pub struct PlayerMissileCollisionSystem;

impl PlayerMissileCollisionSystem {
    pub fn new() -> Self {
        PlayerMissileCollisionSystem
    }

    /// One tick of the missile pass.  Every live missile's circles are tested
    /// against the players' circles through a grid of the players alone; the
    /// result holds one event per (missile, player) pair in contact, at the
    /// position of one of the missile's circles that made the contact.
    pub fn run(
        &self,
        dims: &GridDims,
        players: &Vec<HitCircle>,
        missiles: &Vec<HitCircle>,
        live: &Vec<EntityId>,
    ) -> (r: Vec<PlayerMissileCollision>)
        requires
            dims.wf(),
        ensures
            unique_hits(r@),
            forall|me: EntityId, pe: EntityId| has_hit(r@, me, pe) <==> (live@.contains(me) && hit_by(
                *dims,
                players@,
                missiles@,
                me,
                pe,
            )),
            forall|k: int| 0 <= k < r@.len() ==> justified(*dims, players@, missiles@, #[trigger] r@[k]),
    {
        let g = *dims;
        let mut grid = Grid::new(g);
        grid.insert_all(players);
        proof {
            assert forall|k: int| 0 <= k < grid.buckets@.len() implies #[trigger] grid.buckets@[k]@ == members(
                g,
                players@,
                cell_of(g, k),
            ) by {
                assert(Seq::<HitCircle>::empty() + members(g, players@, cell_of(g, k)) == members(g, players@, cell_of(g, k)));
            }
        }
        let mut out: Vec<PlayerMissileCollision> = Vec::new();
        let mut i: usize = 0;
        while i < missiles.len()
            invariant
                grid.wf(),
                grid.dims == g,
                forall|k: int| 0 <= k < grid.buckets@.len() ==> #[trigger] grid.buckets@[k]@ == members(
                    g,
                    players@,
                    cell_of(g, k),
                ),
                i <= missiles@.len(),
                unique_hits(out@),
                forall|k: int| 0 <= k < out@.len() ==> justified(g, players@, missiles@, #[trigger] out@[k])
                    && live@.contains(out@[k].missile),
                forall|ii: int, pe: EntityId| 0 <= ii < i && live@.contains(missiles@[ii].ent)
                    && #[trigger] detects(g, players@, missiles@[ii], pe) ==> has_hit(out@, missiles@[ii].ent, pe),
            decreases missiles@.len() - i,
        {
            let m = missiles[i];
            if is_live(live, m.ent) {
                let ghost before = out@;
                collide_missile(&grid, players, &m, &mut out);
                proof {
                    assert forall|k: int| 0 <= k < out@.len() implies justified(g, players@, missiles@, #[trigger] out@[k])
                        && live@.contains(out@[k].missile) by {
                        if k < before.len() {
                            assert(out@[k] == before[k]);
                        } else {
                            assert(missiles@[i as int] == m);
                        }
                    }
                    assert forall|ii: int, pe: EntityId| 0 <= ii < i + 1 && live@.contains(missiles@[ii].ent)
                        && #[trigger] detects(g, players@, missiles@[ii], pe) implies has_hit(out@, missiles@[ii].ent, pe) by {
                        if ii < i {
                            assert(has_hit(before, missiles@[ii].ent, pe));
                            let q = choose|q: int| 0 <= q < before.len() && (#[trigger] before[q]).missile == missiles@[ii].ent
                                && before[q].player == pe;
                            assert(out@[q] == before[q]);
                        }
                    }
                }
            }
            i = i + 1;
        }
        proof {
            assert forall|me: EntityId, pe: EntityId| has_hit(out@, me, pe) <==> (live@.contains(me) && hit_by(
                g,
                players@,
                missiles@,
                me,
                pe,
            )) by {
                if has_hit(out@, me, pe) {
                    let k = choose|k: int| 0 <= k < out@.len() && (#[trigger] out@[k]).missile == me && out@[k].player == pe;
                    assert(justified(g, players@, missiles@, out@[k]));
                }
                if live@.contains(me) && hit_by(g, players@, missiles@, me, pe) {
                    let ii = choose|ii: int| 0 <= ii < missiles@.len() && (#[trigger] missiles@[ii]).ent == me
                        && detects(g, players@, missiles@[ii], pe);
                    assert(has_hit(out@, missiles@[ii].ent, pe));
                }
            }
        }
        out
    }
}

} // verus!
