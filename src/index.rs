//! The broad phase: which grid cells a circle's bounding box touches.
use vstd::prelude::*;
use crate::circle::HitCircle;

verus! {

/// Shape of the uniform grid laid over the world.  The world spans
/// `[0, cols * cell_w) x [0, rows * cell_h)`; cell `(i, j)` covers
/// `[i * cell_w, (i + 1) * cell_w) x [j * cell_h, (j + 1) * cell_h)`.
#[derive(Clone, Copy, Debug, PartialEq, Eq, Structural)]
pub struct GridDims {
    pub cols: usize,
    pub rows: usize,
    pub cell_w: u32,
    pub cell_h: u32,
}

impl GridDims {
    pub open spec fn wf(self) -> bool {
        self.cols > 0 && self.rows > 0 && self.cell_w > 0 && self.cell_h > 0
            && self.cols <= 0xffff && self.rows <= 0xffff
    }

    pub open spec fn cell_count(self) -> nat {
        (self.cols * self.rows) as nat
    }

    /// Position of cell `(i, j)` in a row-major array of cells.
    pub open spec fn flat(self, i: int, j: int) -> int {
        i * self.rows + j
    }

    pub fn is_valid(&self) -> (r: bool)
        ensures
            r == self.wf(),
    {
        self.cols > 0 && self.rows > 0 && self.cell_w > 0 && self.cell_h > 0 && self.cols <= 0xffff
            && self.rows <= 0xffff
    }

    /// Splits a world of `width x height` units into `cols x rows` cells;
    /// `None` when a count is zero or a cell would be narrower than one unit.
    pub fn new(width: u32, height: u32, cols: u16, rows: u16) -> (r: Option<GridDims>)
        ensures
            r is Some <==> (0 < cols && cols as u32 <= width && 0 < rows && rows as u32 <= height),
            r matches Some(d) ==> d.wf() && d.cols == cols && d.rows == rows
                && d.cell_w == width / (cols as u32) && d.cell_h == height / (rows as u32),
    {
        let c: u32 = cols as u32;
        let r: u32 = rows as u32;
        if c == 0 || r == 0 || c > width || r > height {
            return None;
        }
        proof {
            assert(width / c >= 1) by (nonlinear_arith)
                requires 0 < c <= width;
            assert(height / r >= 1) by (nonlinear_arith)
                requires 0 < r <= height;
        }
        Some(GridDims { cols: cols as usize, rows: rows as usize, cell_w: width / c, cell_h: height / r })
    }
}

/// Lowest column touched by the circle's bounding box, before clamping.
pub open spec fn raw_lo(p: int, rad: int, cell: int) -> int {
    (p - rad) / cell
}

/// Highest column touched by the circle's bounding box, before clamping.
pub open spec fn raw_hi(p: int, rad: int, cell: int) -> int {
    (p + rad) / cell
}

pub open spec fn x_lo(g: GridDims, c: HitCircle) -> int {
    let v = raw_lo(c.x as int, c.rad as int, g.cell_w as int);
    if v < 0 { 0 } else { v }
}

pub open spec fn x_hi(g: GridDims, c: HitCircle) -> int {
    let v = raw_hi(c.x as int, c.rad as int, g.cell_w as int);
    if v > g.cols - 1 { g.cols - 1 } else { v }
}

pub open spec fn y_lo(g: GridDims, c: HitCircle) -> int {
    let v = raw_lo(c.y as int, c.rad as int, g.cell_h as int);
    if v < 0 { 0 } else { v }
}

pub open spec fn y_hi(g: GridDims, c: HitCircle) -> int {
    let v = raw_hi(c.y as int, c.rad as int, g.cell_h as int);
    if v > g.rows - 1 { g.rows - 1 } else { v }
}

/// Cell `p` meets the circle's closed bounding box and lies in the grid.
pub open spec fn covers(g: GridDims, c: HitCircle, p: (usize, usize)) -> bool {
    x_lo(g, c) <= p.0 <= x_hi(g, c) && y_lo(g, c) <= p.1 <= y_hi(g, c)
}

/// Floor of `n / d` for a positive divisor, on machine integers.
pub(crate) fn floor_div(n: i64, d: u32) -> (q: i64)
    requires
        d > 0,
        -0x2_0000_0000 <= n <= 0x2_0000_0000,
    ensures
        q == n as int / d as int,
{
    let d64: i64 = d as i64;
    if n >= 0 {
        n / d64
    } else {
        let m: i64 = -n;
        let q: i64 = (m + d64 - 1) / d64;
        proof {
            lemma_neg_floor(n as int, d as int);
        }
        -q
    }
}

proof fn lemma_neg_floor(n: int, d: int)
    requires
        d > 0,
        n < 0,
    ensures
        n / d == -((-n + d - 1) / d),
{
    let m = -n + d - 1;
    let q = m / d;
    let r = m % d;
    vstd::arithmetic::div_mod::lemma_fundamental_div_mod(m, d);
    vstd::arithmetic::div_mod::lemma_mod_bound(m, d);
    assert(n == (-q) * d + (d - 1 - r)) by (nonlinear_arith)
        requires
            m == d * q + r,
            m == -n + d - 1,
    ;
    vstd::arithmetic::div_mod::lemma_fundamental_div_mod_converse(n, d, -q, d - 1 - r);
}

/// Every grid cell whose bounds meet the circle's axis-aligned bounding box,
/// each once.  A circle wholly outside the world touches no cell.
pub fn intersected_buckets(g: &GridDims, c: &HitCircle) -> (r: Vec<(usize, usize)>)
    requires
        g.wf(),
    ensures
        forall|p: (usize, usize)| r@.contains(p) <==> covers(*g, *c, p),
        r@.no_duplicates(),
{
    let xl: i64 = floor_div(c.x as i64 - c.rad as i64, g.cell_w);
    let xh: i64 = floor_div(c.x as i64 + c.rad as i64, g.cell_w);
    let yl: i64 = floor_div(c.y as i64 - c.rad as i64, g.cell_h);
    let yh: i64 = floor_div(c.y as i64 + c.rad as i64, g.cell_h);
    proof {
        vstd::arithmetic::div_mod::lemma_div_is_ordered(
            c.x - c.rad,
            c.x + c.rad,
            g.cell_w as int,
        );
        vstd::arithmetic::div_mod::lemma_div_is_ordered(
            c.y - c.rad,
            c.y + c.rad,
            g.cell_h as int,
        );
    }
    let mut out: Vec<(usize, usize)> = Vec::new();
    if xh < 0 || yh < 0 || xl >= g.cols as i64 || yl >= g.rows as i64 {
        proof {
            assert forall|p: (usize, usize)| !covers(*g, *c, p) by {}
        }
        return out;
    }
    let x0: usize = if xl < 0 { 0 } else { xl as usize };
    let y0: usize = if yl < 0 { 0 } else { yl as usize };
    let x1: usize = if xh >= g.cols as i64 { g.cols - 1 } else { xh as usize };
    let y1: usize = if yh >= g.rows as i64 { g.rows - 1 } else { yh as usize };
    assert(x0 == x_lo(*g, *c) && x1 == x_hi(*g, *c));
    assert(y0 == y_lo(*g, *c) && y1 == y_hi(*g, *c));
    let mut i: usize = x0;
    while i <= x1
        invariant
            x0 <= i <= x1 + 1,
            x1 < g.cols,
            y0 <= y1 < g.rows,
            x0 == x_lo(*g, *c),
            x1 == x_hi(*g, *c),
            y0 == y_lo(*g, *c),
            y1 == y_hi(*g, *c),
            out@.no_duplicates(),
            forall|p: (usize, usize)| out@.contains(p) <==> (covers(*g, *c, p) && p.0 < i),
        decreases x1 + 1 - i,
    {
        let mut j: usize = y0;
        while j <= y1
            invariant
                x0 <= i <= x1,
                x1 < g.cols,
                y0 <= j <= y1 + 1,
                y1 < g.rows,
                x0 == x_lo(*g, *c),
                x1 == x_hi(*g, *c),
                y0 == y_lo(*g, *c),
                y1 == y_hi(*g, *c),
                out@.no_duplicates(),
                forall|p: (usize, usize)| out@.contains(p) <==> (covers(*g, *c, p) && (p.0 < i
                    || (p.0 == i && p.1 < j))),
            decreases y1 + 1 - j,
        {
            let ghost prev = out@;
            proof {
                assert(!prev.contains((i, j)));
            }
            out.push((i, j));
            proof {
                assert(out@ == prev.push((i, j)));
                assert forall|p: (usize, usize)| out@.contains(p) <==> (covers(*g, *c, p) && (p.0 < i
                    || (p.0 == i && p.1 < j + 1))) by {
                    if out@.contains(p) && p != (i, j) {
                        let k = choose|k: int| 0 <= k < out@.len() && out@[k] == p;
                        assert(prev[k] == p);
                    }
                    if covers(*g, *c, p) && (p.0 < i || (p.0 == i && p.1 < j)) {
                        assert(prev.contains(p));
                        let k = choose|k: int| 0 <= k < prev.len() && prev[k] == p;
                        assert(out@[k] == p);
                    }
                    if p == (i, j) {
                        assert(out@[out@.len() - 1] == p);
                    }
                }
            }
            j = j + 1;
        }
        i = i + 1;
    }
    out
}

/// One axis of broad-phase completeness: two closed intervals that meet,
/// whose common part reaches into `[0, n * w)`, share a clamped cell.
proof fn lemma_axis_shared(p1: int, r1: int, p2: int, r2: int, w: int, n: int) -> (k: int)
    requires
        w > 0,
        n > 0,
        r1 >= 0,
        r2 >= 0,
        p1 - r1 <= p2 + r2,
        p2 - r2 <= p1 + r1,
        p1 - r1 < n * w,
        p2 - r2 < n * w,
        p1 + r1 >= 0,
        p2 + r2 >= 0,
    ensures
        0 <= k < n,
        raw_lo(p1, r1, w) <= k <= raw_hi(p1, r1, w),
        raw_lo(p2, r2, w) <= k <= raw_hi(p2, r2, w),
{
    let a = if p1 - r1 >= p2 - r2 { p1 - r1 } else { p2 - r2 };
    let b = if p1 + r1 <= p2 + r2 { p1 + r1 } else { p2 + r2 };
    vstd::arithmetic::div_mod::lemma_div_is_ordered(p1 - r1, a, w);
    vstd::arithmetic::div_mod::lemma_div_is_ordered(p2 - r2, a, w);
    vstd::arithmetic::div_mod::lemma_div_is_ordered(a, b, w);
    vstd::arithmetic::div_mod::lemma_div_is_ordered(b, p1 + r1, w);
    vstd::arithmetic::div_mod::lemma_div_is_ordered(b, p2 + r2, w);
    vstd::arithmetic::div_mod::lemma_div_is_ordered(0, b, w);
    vstd::arithmetic::div_mod::lemma_fundamental_div_mod(a, w);
    vstd::arithmetic::div_mod::lemma_mod_bound(a, w);
    let q = a / w;
    assert(q < n) by (nonlinear_arith)
        requires
            a == w * q + a % w,
            0 <= a % w,
            a < n * w,
            w > 0,
    ;
    assert(0int / w == 0);
    if q < 0 { 0 } else { q }
}

proof fn lemma_span(p1: int, r1: int, p2: int, r2: int, q1: int, q2: int)
    requires
        r1 >= 0,
        r2 >= 0,
        (p1 - p2) * (p1 - p2) + (q1 - q2) * (q1 - q2) <= (r1 + r2) * (r1 + r2),
    ensures
        p1 - r1 <= p2 + r2,
        p2 - r2 <= p1 + r1,
{
    assert((p1 - p2) * (p1 - p2) <= (r1 + r2) * (r1 + r2)) by (nonlinear_arith)
        requires
            (p1 - p2) * (p1 - p2) + (q1 - q2) * (q1 - q2) <= (r1 + r2) * (r1 + r2),
    ;
    assert(-(r1 + r2) <= p1 - p2 <= r1 + r2) by (nonlinear_arith)
        requires
            (p1 - p2) * (p1 - p2) <= (r1 + r2) * (r1 + r2),
            r1 + r2 >= 0,
    ;
}

/// Broad-phase completeness: two circles in contact share at least one
/// cell of the grid, provided the common part of their bounding boxes
/// reaches into the world on each axis (circles that meet only outside the
/// world touch no common cell, since nothing is indexed there).
pub proof fn lemma_broad_phase_complete(g: GridDims, c: HitCircle, d: HitCircle)
    requires
        g.wf(),
        crate::circle::touching(c, d),
        c.x - c.rad < g.cols * g.cell_w,
        d.x - d.rad < g.cols * g.cell_w,
        c.x + c.rad >= 0,
        d.x + d.rad >= 0,
        c.y - c.rad < g.rows * g.cell_h,
        d.y - d.rad < g.rows * g.cell_h,
        c.y + c.rad >= 0,
        d.y + d.rad >= 0,
    ensures
        exists|p: (usize, usize)| covers(g, c, p) && covers(g, d, p),
{
    lemma_span(c.x as int, c.rad as int, d.x as int, d.rad as int, c.y as int, d.y as int);
    lemma_span(c.y as int, c.rad as int, d.y as int, d.rad as int, c.x as int, d.x as int);
    let kx = lemma_axis_shared(c.x as int, c.rad as int, d.x as int, d.rad as int, g.cell_w as int, g.cols as int);
    let ky = lemma_axis_shared(c.y as int, c.rad as int, d.y as int, d.rad as int, g.cell_h as int, g.rows as int);
    let p = (kx as usize, ky as usize);
    assert(covers(g, c, p) && covers(g, d, p));
}

} // verus!
