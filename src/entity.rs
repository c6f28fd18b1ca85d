//! Placing each entity's configured hit circles in the world for a tick.
use vstd::prelude::*;
use crate::circle::{EntityId, HitCircle, Layer};
use crate::index::floor_div;

verus! {

/// One circle of a plane or missile shape, relative to the entity's
/// position at heading zero.
#[derive(Clone, Copy, Debug, PartialEq, Eq, Structural)]
pub struct CircleDef {
    pub dx: i16,
    pub dy: i16,
    pub rad: u32,
}

/// A heading as a unit vector in fixed point: `cos` and `sin` scaled by
/// `ONE`.
#[derive(Clone, Copy, Debug, PartialEq, Eq, Structural)]
pub struct Heading {
    pub cos: i32,
    pub sin: i32,
}

/// Fixed-point scale of a heading's components.
pub const ONE: i64 = 65536;

impl Heading {
    /// Both components lie in `[-1, 1]`.
    pub open spec fn wf(self) -> bool {
        -65536 <= self.cos <= 65536 && -65536 <= self.sin <= 65536
    }

    pub fn is_valid(&self) -> (r: bool)
        ensures
            r == self.wf(),
    {
        -65536 <= self.cos && self.cos <= 65536 && -65536 <= self.sin && self.sin <= 65536
    }
}

/// What the collision pass reads of a live entity.
#[derive(Clone, Copy, Debug, PartialEq, Eq, Structural)]
pub struct EntityState {
    pub ent: EntityId,
    pub x: i32,
    pub y: i32,
    pub heading: Heading,
    pub layer: Layer,
    /// Plane or mob type: the index of its shape in the configuration table.
    pub kind: usize,
}

/// The offset `(dx, dy)` turned by the heading, rounded down on each axis.
pub open spec fn rot_x(d: CircleDef, h: Heading) -> int {
    (d.dx * h.cos - d.dy * h.sin) / 65536
}

pub open spec fn rot_y(d: CircleDef, h: Heading) -> int {
    (d.dx * h.sin + d.dy * h.cos) / 65536
}

/// Saturates to the range of `i32`.
pub open spec fn clamp_i32(v: int) -> int {
    if v < i32::MIN {
        i32::MIN as int
    } else if v > i32::MAX {
        i32::MAX as int
    } else {
        v
    }
}

/// Where circle `d` of entity `e` stands this tick.
pub open spec fn placed(e: EntityState, d: CircleDef) -> HitCircle {
    HitCircle {
        x: clamp_i32(e.x + rot_x(d, e.heading)) as i32,
        y: clamp_i32(e.y + rot_y(d, e.heading)) as i32,
        rad: d.rad,
        layer: e.layer,
        ent: e.ent,
    }
}

/// The entity has a shape in the table.
pub open spec fn configured(e: EntityState, cfg: Seq<Vec<CircleDef>>) -> bool {
    e.kind < cfg.len()
}

/// All circles of all configured entities, entity by entity, each in the
/// order of its shape.
pub open spec fn placed_all(es: Seq<EntityState>, cfg: Seq<Vec<CircleDef>>) -> Seq<HitCircle>
    decreases es.len(),
{
    if es.len() == 0 {
        Seq::empty()
    } else {
        let e = es.last();
        placed_all(es.drop_last(), cfg) + if configured(e, cfg) {
            cfg[e.kind as int]@.map_values(|d: CircleDef| placed(e, d))
        } else {
            Seq::empty()
        }
    }
}

/// The entities without a shape in the table, in order.
pub open spec fn unconfigured(es: Seq<EntityState>, cfg: Seq<Vec<CircleDef>>) -> Seq<EntityId>
    decreases es.len(),
{
    if es.len() == 0 {
        Seq::empty()
    } else {
        let e = es.last();
        unconfigured(es.drop_last(), cfg) + if configured(e, cfg) {
            Seq::empty()
        } else {
            seq![e.ent]
        }
    }
}

fn clamp_to_i32(v: i64) -> (r: i32)
    ensures
        r == clamp_i32(v as int),
{
    if v < i32::MIN as i64 {
        i32::MIN
    } else if v > i32::MAX as i64 {
        i32::MAX
    } else {
        v as i32
    }
}

/// Circle `d` of entity `e`, placed in the world.
pub fn place(e: &EntityState, d: &CircleDef) -> (r: HitCircle)
    requires
        e.heading.wf(),
    ensures
        r == placed(*e, *d),
{
    let h = e.heading;
    proof {
        assert(-0x8000_0000 <= d.dx * h.cos <= 0x8000_0000) by (nonlinear_arith)
            requires -32768 <= d.dx <= 32767, -65536 <= h.cos <= 65536;
        assert(-0x8000_0000 <= d.dy * h.sin <= 0x8000_0000) by (nonlinear_arith)
            requires -32768 <= d.dy <= 32767, -65536 <= h.sin <= 65536;
        assert(-0x8000_0000 <= d.dx * h.sin <= 0x8000_0000) by (nonlinear_arith)
            requires -32768 <= d.dx <= 32767, -65536 <= h.sin <= 65536;
        assert(-0x8000_0000 <= d.dy * h.cos <= 0x8000_0000) by (nonlinear_arith)
            requires -32768 <= d.dy <= 32767, -65536 <= h.cos <= 65536;
    }
    let rx: i64 = d.dx as i64 * h.cos as i64 - d.dy as i64 * h.sin as i64;
    let ry: i64 = d.dx as i64 * h.sin as i64 + d.dy as i64 * h.cos as i64;
    let ox: i64 = floor_div(rx, ONE as u32);
    let oy: i64 = floor_div(ry, ONE as u32);
    proof {
        vstd::arithmetic::div_mod::lemma_div_is_ordered(rx as int, 0x1_0000_0000, 65536);
        vstd::arithmetic::div_mod::lemma_div_is_ordered(-0x1_0000_0000, rx as int, 65536);
        vstd::arithmetic::div_mod::lemma_div_is_ordered(ry as int, 0x1_0000_0000, 65536);
        vstd::arithmetic::div_mod::lemma_div_is_ordered(-0x1_0000_0000, ry as int, 65536);
        assert(0x1_0000_0000int / 65536 == 65536);
        assert(-0x1_0000_0000int / 65536 == -65536);
    }
    HitCircle {
        x: clamp_to_i32(e.x as i64 + ox),
        y: clamp_to_i32(e.y as i64 + oy),
        rad: d.rad,
        layer: e.layer,
        ent: e.ent,
    }
}

/// The hit circles of one tick, and the entities that were skipped for
/// want of a shape in the table.
pub struct Placement {
    pub circles: Vec<HitCircle>,
    pub skipped: Vec<EntityId>,
}

/// Resolves each entity's shape by its kind and places every circle of it.
/// An entity whose kind has no shape is skipped and reported, not fatal.
pub fn place_hit_circles(entities: &Vec<EntityState>, config: &Vec<Vec<CircleDef>>) -> (r: Placement)
    requires
        forall|i: int| 0 <= i < entities@.len() ==> (#[trigger] entities@[i]).heading.wf(),
    ensures
        r.circles@ == placed_all(entities@, config@),
        r.skipped@ == unconfigured(entities@, config@),
{
    let mut circles: Vec<HitCircle> = Vec::new();
    let mut skipped: Vec<EntityId> = Vec::new();
    let mut i: usize = 0;
    while i < entities.len()
        invariant
            forall|i: int| 0 <= i < entities@.len() ==> (#[trigger] entities@[i]).heading.wf(),
            i <= entities@.len(),
            circles@ == placed_all(entities@.take(i as int), config@),
            skipped@ == unconfigured(entities@.take(i as int), config@),
        decreases entities@.len() - i,
    {
        let e = entities[i];
        let ghost es = entities@.take(i + 1);
        proof {
            assert(es.drop_last() == entities@.take(i as int));
            assert(es.last() == e);
            assert(e.heading.wf());
        }
        if e.kind < config.len() {
            let shape = &config[e.kind];
            let ghost start = circles@;
            let mut j: usize = 0;
            while j < shape.len()
                invariant
                    e.heading.wf(),
                    j <= shape@.len(),
                    circles@ == start + shape@.take(j as int).map_values(|d: CircleDef| placed(e, d)),
                decreases shape@.len() - j,
            {
                let c = place(&e, &shape[j]);
                circles.push(c);
                proof {
                    assert(shape@.take(j + 1).map_values(|d: CircleDef| placed(e, d))
                        =~= shape@.take(j as int).map_values(|d: CircleDef| placed(e, d)).push(c));
                }
                j = j + 1;
            }
            proof {
                assert(shape@.take(shape@.len() as int) == shape@);
            }
        } else {
            skipped.push(e.ent);
        }
        i = i + 1;
    }
    assert(entities@.take(entities@.len() as int) == entities@);
    Placement { circles, skipped }
}

/// Every radius in the table is positive.
pub open spec fn radii_positive(cfg: Seq<Vec<CircleDef>>) -> bool {
    forall|k: int, j: int| 0 <= k < cfg.len() && 0 <= j < cfg[k]@.len() ==> (#[trigger] cfg[k]@[j]).rad > 0
}

/// Load-time check of a shape table: `false` when some radius is zero.
pub fn validate_config(config: &Vec<Vec<CircleDef>>) -> (r: bool)
    ensures
        r == radii_positive(config@),
{
    let mut k: usize = 0;
    while k < config.len()
        invariant
            k <= config@.len(),
            forall|a: int, j: int| 0 <= a < k && 0 <= j < config@[a]@.len() ==> (#[trigger] config@[a]@[j]).rad > 0,
        decreases config@.len() - k,
    {
        let shape = &config[k];
        let mut j: usize = 0;
        while j < shape.len()
            invariant
                k < config@.len(),
                shape@ == config@[k as int]@,
                j <= shape@.len(),
                forall|a: int, j: int| 0 <= a < k && 0 <= j < config@[a]@.len() ==> (#[trigger] config@[a]@[j]).rad > 0,
                forall|b: int| 0 <= b < j ==> (#[trigger] shape@[b]).rad > 0,
            decreases shape@.len() - j,
        {
            if shape[j].rad == 0 {
                return false;
            }
            j = j + 1;
        }
        k = k + 1;
    }
    true
}

} // verus!
