//! Hit circles and the narrow-phase overlap test.
use vstd::prelude::*;

verus! {

/// Opaque handle of a simulation object (a plane, a missile, the terrain).
pub type EntityId = u32;

/// Team tag of a hit circle; `0` is neutral and never exempts a pair.
pub type Layer = u16;

/// A circle approximating part of an entity's collidable shape, in world
/// units (integer fixed-point coordinates).
#[derive(Clone, Copy, Debug, PartialEq, Eq, Structural)]
pub struct HitCircle {
    pub x: i32,
    pub y: i32,
    pub rad: u32,
    pub layer: Layer,
    pub ent: EntityId,
}

/// Squared distance between the centres of two circles.
pub open spec fn dist_sq(a: HitCircle, b: HitCircle) -> int {
    (a.x - b.x) * (a.x - b.x) + (a.y - b.y) * (a.y - b.y)
}

/// Two layers exempt a pair exactly when they are equal and not neutral.
pub open spec fn layers_collide(la: Layer, lb: Layer) -> bool {
    la == 0 || lb == 0 || la != lb
}

/// The centres are no farther apart than the sum of the radii.
pub open spec fn touching(a: HitCircle, b: HitCircle) -> bool {
    dist_sq(a, b) <= (a.rad + b.rad) * (a.rad + b.rad)
}

/// The narrow-phase rule: geometric contact between non-exempt layers.
pub open spec fn overlap(a: HitCircle, b: HitCircle) -> bool {
    touching(a, b) && layers_collide(a.layer, b.layer)
}

proof fn lemma_square_bound(v: int)
    requires
        -0x2_0000_0000 <= v <= 0x2_0000_0000,
    ensures
        0 <= v * v <= 0x4_0000_0000_0000_0000,
{
    assert(0 <= v * v <= 0x4_0000_0000_0000_0000) by (nonlinear_arith)
        requires
            -0x2_0000_0000 <= v <= 0x2_0000_0000,
    ;
}

/// Exact narrow-phase test of two hit circles.
pub fn overlaps(a: &HitCircle, b: &HitCircle) -> (r: bool)
    ensures
        r == overlap(*a, *b),
{
    if !(a.layer == 0 || b.layer == 0 || a.layer != b.layer) {
        return false;
    }
    let dx: i64 = a.x as i64 - b.x as i64;
    let dy: i64 = a.y as i64 - b.y as i64;
    let rs: i64 = a.rad as i64 + b.rad as i64;
    proof {
        lemma_square_bound(dx as int);
        lemma_square_bound(dy as int);
        lemma_square_bound(rs as int);
    }
    let dx2: i128 = dx as i128 * dx as i128;
    let dy2: i128 = dy as i128 * dy as i128;
    let rs2: i128 = rs as i128 * rs as i128;
    dx2 + dy2 <= rs2
}

} // verus!
