//! Circles: the midpoint outline (`circ`) and the filled disc (`circfill`).
use vstd::prelude::*;
use crate::raster::{Raster, mirror4, span_region, min_int, max_int, lemma_painted_then, lemma_painted_same_region, lemma_painted_nothing};

verus! {

// ---------------------------------------------------------------------------
// The outline
// ---------------------------------------------------------------------------

/// The midpoint test of the outline: the circle equation at the point
/// `(x - 1/2, y + 1)`, scaled to integers. Negative means that point lies
/// inside the circle of radius `r`.
pub open spec fn circ_midpoint(r: int, x: int, y: int) -> int {
    x * x - x + y * y + 2 * y + 1 - r * r
}

/// The column of the next outline point: `x` while the midpoint lies inside,
/// else one column in.
pub open spec fn circ_next_x(r: int, x: int, y: int) -> int {
    if circ_midpoint(r, x, y) < 0 {
        x
    } else {
        x - 1
    }
}

/// The outline points of the first octant from `(x, y)` on: one per row,
/// while the row does not exceed the column.
pub open spec fn circ_octant(r: int, x: int, y: int) -> Seq<(int, int)>
    decreases x - y + 2,
{
    if y > x {
        Seq::empty()
    } else {
        seq![(x, y)] + circ_octant(r, circ_next_x(r, x, y), y + 1)
    }
}

/// The first-octant outline of a circle of radius `r`, from `(r, 0)`.
pub open spec fn circ_outline(r: int) -> Seq<(int, int)> {
    circ_octant(r, r, 0)
}

/// Offset `(dx, dy)` is one of the eight reflections of octant point `p`.
pub open spec fn octant_hit(p: (int, int), dx: int, dy: int) -> bool {
    ||| (dx == p.0 || dx == -p.0) && (dy == p.1 || dy == -p.1)
    ||| (dx == p.1 || dx == -p.1) && (dy == p.0 || dy == -p.0)
}

/// Offset `(dx, dy)` is a reflection of some point of `pts`.
pub open spec fn covers8(pts: Seq<(int, int)>, dx: int, dy: int) -> bool {
    exists|i: int| 0 <= i < pts.len() && #[trigger] octant_hit(pts[i], dx, dy)
}

/// The pixels whose offset from `(ox, oy)` reflects a point of `pts`.
pub open spec fn octant_region(pts: Seq<(int, int)>, ox: int, oy: int) -> spec_fn(int, int) -> bool {
    |a: int, b: int| covers8(pts, a - ox, b - oy)
}

/// The pixels of the outline of radius `r` centred on `(ox, oy)`.
pub open spec fn circ_region(ox: int, oy: int, r: int) -> spec_fn(int, int) -> bool {
    octant_region(circ_outline(r), ox, oy)
}

proof fn lemma_circ_step(r: int, x: int, y: int)
    ensures
        circ_midpoint(r, x, y + 1) == circ_midpoint(r, x, y) + 2 * (y + 1) + 1,
        circ_midpoint(r, x - 1, y + 1) == circ_midpoint(r, x, y) + 2 * ((y + 1) - (x - 1)) + 1,
{
    assert(circ_midpoint(r, x, y + 1) == circ_midpoint(r, x, y) + 2 * (y + 1) + 1)
        by (nonlinear_arith);
    assert(circ_midpoint(r, x - 1, y + 1) == circ_midpoint(r, x, y) + 2 * ((y + 1) - (x - 1)) + 1)
        by (nonlinear_arith);
}

proof fn lemma_circ_midpoint_bound(r: int, x: int, y: int)
    requires
        0 <= r <= 0x4000_0000,
        -2 <= x <= r,
        0 <= y <= r + 2,
    ensures
        -0x2000_0000_0000_0000 < circ_midpoint(r, x, y) < 0x4000_0000_0000_0000,
{
    assert(0 <= x * x <= 0x1000_0000_0000_0000) by (nonlinear_arith)
        requires
            -2 <= x <= r,
            r <= 0x4000_0000,
    ;
    assert(0 <= y * y <= 0x1000_0002_0000_0004) by (nonlinear_arith)
        requires
            0 <= y <= r + 2,
            r <= 0x4000_0000,
    ;
    assert(0 <= r * r <= 0x1000_0000_0000_0000) by (nonlinear_arith)
        requires
            0 <= r <= 0x4000_0000,
    ;
}

proof fn lemma_covers8_push(pts: Seq<(int, int)>, p: (int, int), dx: int, dy: int)
    ensures
        covers8(pts.push(p), dx, dy) == (covers8(pts, dx, dy) || octant_hit(p, dx, dy)),
{
    if covers8(pts, dx, dy) {
        let i = choose|i: int| 0 <= i < pts.len() && #[trigger] octant_hit(pts[i], dx, dy);
        assert(pts.push(p)[i] == pts[i]);
    }
    if octant_hit(p, dx, dy) {
        assert(pts.push(p)[pts.len() as int] == p);
    }
    if covers8(pts.push(p), dx, dy) {
        let i = choose|i: int|
            0 <= i < pts.push(p).len() && #[trigger] octant_hit(pts.push(p)[i], dx, dy);
        if i < pts.len() {
            assert(pts.push(p)[i] == pts[i]);
        }
    }
}

impl Raster {
    /// Midpoint circle outline of radius `r` centred on `(ox, oy)`; nothing
    /// for a negative radius.
    pub fn circ(&mut self, ox: i32, oy: i32, r: i32)
        requires
            old(self).wf(),
            r >= 0 ==> old(self).plottable(ox - r, oy - r) && old(self).plottable(ox + r, oy + r),
        ensures
            final(self).painted(*old(self), circ_region(ox as int, oy as int, r as int)),
    {
        let ghost r0 = *self;
        let ghost rr = r as int;
        let ghost region = circ_region(ox as int, oy as int, r as int);
        let mut x: i64 = r as i64;
        let mut y: i64 = 0;
        let mut decision_over_2: i64 = 1 - x;
        let ghost mut done: Seq<(int, int)> = Seq::empty();
        proof {
            lemma_painted_nothing(r0);
            assert(done + circ_octant(rr, x as int, y as int) =~= circ_outline(rr));
            lemma_painted_same_region(r0, r0, |a: int, b: int| false, octant_region(done, ox as int, oy as int));
        }
        while y <= x
            invariant
                r0.wf(),
                rr == r as int,
                r >= 0 ==> r0.plottable(ox - r, oy - r) && r0.plottable(ox + r, oy + r),
                circ_outline(rr) == done + circ_octant(rr, x as int, y as int),
                decision_over_2 == circ_midpoint(rr, x as int, y as int),
                0 <= y,
                x <= r,
                r >= 0 ==> y <= x + 2,
                y <= x ==> 0 <= r,
                self.painted(r0, octant_region(done, ox as int, oy as int)),
            decreases x - y + 2,
        {
            proof {
                assert(ox as int + r as int <= i32::MAX);
                assert(ox as int - r as int >= 0);
                assert(oy as int + r as int <= i32::MAX);
                assert(oy as int - r as int >= 0);
                assert(r as int <= 0x4000_0000);
            }
            let xi = x as i32;
            let yi = y as i32;
            let ghost before = *self;
            self.plot_mirrored(ox, oy, xi, yi);
            let ghost mid = *self;
            self.plot_mirrored(ox, oy, yi, xi);
            let ghost p: (int, int) = (x as int, y as int);
            proof {
                let f = octant_region(done, ox as int, oy as int);
                let g = |a: int, b: int| covers8(done, a - ox, b - oy) || mirror4(ox as int, oy as int, x as int, y as int)(a, b);
                lemma_painted_then(r0, before, mid, f, mirror4(ox as int, oy as int, x as int, y as int), g);
                let h = octant_region(done.push(p), ox as int, oy as int);
                assert forall|a: int, b: int| #[trigger] h(a, b) == (g(a, b) || mirror4(ox as int, oy as int, y as int, x as int)(a, b)) by {
                    lemma_covers8_push(done, p, a - ox, b - oy);
                }
                lemma_painted_then(r0, mid, *self, g, mirror4(ox as int, oy as int, y as int, x as int), h);
                lemma_circ_step(rr, x as int, y as int);
                lemma_circ_midpoint_bound(rr, x as int, y as int);
                assert(circ_octant(rr, x as int, y as int) == seq![p] + circ_octant(rr, circ_next_x(rr, x as int, y as int), y + 1));
                assert(done + circ_octant(rr, x as int, y as int) =~= done.push(p) + circ_octant(rr, circ_next_x(rr, x as int, y as int), y + 1));
                done = done.push(p);
            }
            y = y + 1;
            if decision_over_2 < 0 {
                decision_over_2 = decision_over_2 + 2 * y + 1;
            } else {
                x = x - 1;
                decision_over_2 = decision_over_2 + 2 * (y - x) + 1;
            }
        }
        proof {
            assert(circ_octant(rr, x as int, y as int) =~= Seq::<(int, int)>::empty());
            assert(done =~= circ_outline(rr));
            lemma_painted_same_region(r0, *self, octant_region(done, ox as int, oy as int), region);
        }
    }
}

// ---------------------------------------------------------------------------
// The filled disc
// ---------------------------------------------------------------------------

/// The error term of the disc walk at `(x, y)`: the circle equation at
/// `(x + 1, y + 1)`.
pub open spec fn fill_err(r: int, x: int, y: int) -> int {
    (x + 1) * (x + 1) + (y + 1) * (y + 1) - r * r
}

/// The next state of the disc walk: step the column in when the error
/// exceeds it, step the row out when the error does not exceed the row,
/// both decided on the error before either step.
pub open spec fn fill_next(r: int, x: int, y: int) -> (int, int) {
    let e = fill_err(r, x, y);
    (if e > x { x + 1 } else { x }, if e <= y { y + 1 } else { y })
}

/// The spans of the disc walk from `(x, y)` on: `(x, y)` stands for rows
/// `±y` from column `x` to column `-x`. The walk ends when the column
/// reaches zero.
pub open spec fn fill_rows(r: int, x: int, y: int) -> Seq<(int, int)>
    decreases r - y - x + 1,
{
    if x >= 0 || y < 0 || y > r {
        Seq::empty()
    } else {
        seq![(x, y)] + fill_rows(r, fill_next(r, x, y).0, fill_next(r, x, y).1)
    }
}

/// The spans of the disc of radius `r`, from `(-r, 0)`.
pub open spec fn disc_rows(r: int) -> Seq<(int, int)> {
    fill_rows(r, -r, 0)
}

/// Offset `(dx, dy)` lies on one of the two rows of span `p`.
pub open spec fn row_hit(p: (int, int), dx: int, dy: int) -> bool {
    (dy == p.1 || dy == -p.1) && p.0 <= dx <= -p.0
}

/// Offset `(dx, dy)` lies on a row of some span of `rows`.
pub open spec fn covers_rows(rows: Seq<(int, int)>, dx: int, dy: int) -> bool {
    exists|i: int| 0 <= i < rows.len() && #[trigger] row_hit(rows[i], dx, dy)
}

/// The pixels covered by the spans `rows` about `(ox, oy)`.
pub open spec fn rows_region(rows: Seq<(int, int)>, ox: int, oy: int) -> spec_fn(int, int) -> bool {
    |a: int, b: int| covers_rows(rows, a - ox, b - oy)
}

/// The pixels of the filled disc of radius `r` centred on `(ox, oy)`: the
/// centre for radius 0, a plus sign for radius 1, the spans of the disc
/// walk for larger radii, nothing for a negative radius.
pub open spec fn circfill_region(ox: int, oy: int, r: int) -> spec_fn(int, int) -> bool {
    |a: int, b: int|
        if r == 0 {
            a == ox && b == oy
        } else if r == 1 {
            (a == ox && (b == oy - 1 || b == oy + 1)) || (b == oy && ox - 1 <= a <= ox + 1)
        } else if r > 1 {
            covers_rows(disc_rows(r), a - ox, b - oy)
        } else {
            false
        }
}

proof fn lemma_fill_step(r: int, x: int, y: int)
    ensures
        fill_err(r, x + 1, y) == fill_err(r, x, y) + 2 * (x + 1) + 1,
        fill_err(r, x, y + 1) == fill_err(r, x, y) + 2 * (y + 1) + 1,
        r >= 0 ==> fill_err(r, x, r) > r,
{
    assert(fill_err(r, x + 1, y) == fill_err(r, x, y) + 2 * (x + 1) + 1) by (nonlinear_arith);
    assert(fill_err(r, x, y + 1) == fill_err(r, x, y) + 2 * (y + 1) + 1) by (nonlinear_arith);
    assert(r >= 0 ==> fill_err(r, x, r) > r) by (nonlinear_arith);
}

proof fn lemma_fill_err_bound(r: int, x: int, y: int)
    requires
        0 <= r <= 0x4000_0000,
        -r <= x <= 0,
        0 <= y <= r,
    ensures
        -0x2000_0000_0000_0000 < fill_err(r, x, y) < 0x4000_0000_0000_0000,
{
    assert(0 <= (x + 1) * (x + 1) <= 0x1000_0000_0000_0000) by (nonlinear_arith)
        requires
            -r <= x <= 0,
            r <= 0x4000_0000,
    ;
    assert(0 <= (y + 1) * (y + 1) <= 0x1000_0000_8000_0001) by (nonlinear_arith)
        requires
            0 <= y <= r,
            r <= 0x4000_0000,
    ;
    assert(0 <= r * r <= 0x1000_0000_0000_0000) by (nonlinear_arith)
        requires
            0 <= r <= 0x4000_0000,
    ;
}

proof fn lemma_covers_rows_push(rows: Seq<(int, int)>, p: (int, int), dx: int, dy: int)
    ensures
        covers_rows(rows.push(p), dx, dy) == (covers_rows(rows, dx, dy) || row_hit(p, dx, dy)),
{
    if covers_rows(rows, dx, dy) {
        let i = choose|i: int| 0 <= i < rows.len() && #[trigger] row_hit(rows[i], dx, dy);
        assert(rows.push(p)[i] == rows[i]);
    }
    if row_hit(p, dx, dy) {
        assert(rows.push(p)[rows.len() as int] == p);
    }
    if covers_rows(rows.push(p), dx, dy) {
        let i = choose|i: int|
            0 <= i < rows.push(p).len() && #[trigger] row_hit(rows.push(p)[i], dx, dy);
        if i < rows.len() {
            assert(rows.push(p)[i] == rows[i]);
        }
    }
}

impl Raster {
    /// Filled disc of radius `r` centred on `(ox, oy)`; nothing for a
    /// negative radius.
    pub fn circfill(&mut self, ox: i32, oy: i32, r: i32)
        requires
            old(self).wf(),
            r >= 0 ==> old(self).plottable(ox - r, oy - r) && old(self).plottable(ox + r, oy + r),
        ensures
            final(self).painted(*old(self), circfill_region(ox as int, oy as int, r as int)),
    {
        let ghost r0 = *self;
        let ghost region = circfill_region(ox as int, oy as int, r as int);
        if r == 0 {
            self.plot(ox, oy);
            proof {
                lemma_painted_same_region(r0, *self, |a: int, b: int| a == ox && b == oy, region);
            }
        } else if r == 1 {
            self.plot(ox, oy - 1);
            let ghost r1 = *self;
            self.hline(ox - 1, ox + 1, oy);
            let ghost r2 = *self;
            proof {
                let f1 = |a: int, b: int| a == ox && b == oy - 1;
                let g = |a: int, b: int| (a == ox && b == oy - 1) || (b == oy && ox - 1 <= a <= ox + 1);
                lemma_painted_then(r0, r1, r2, f1, span_region(min_int(ox - 1, ox + 1), max_int(ox - 1, ox + 1), oy as int), g);
            }
            self.plot(ox, oy + 1);
            proof {
                let g = |a: int, b: int| (a == ox && b == oy - 1) || (b == oy && ox - 1 <= a <= ox + 1);
                let f3 = |a: int, b: int| a == ox && b == oy + 1;
                lemma_painted_then(r0, r2, *self, g, f3, region);
            }
        } else if r > 0 {
            let ghost rr = r as int;
            let mut x: i64 = -(r as i64);
            let mut y: i64 = 0;
            let mut err: i64 = 2 - 2 * (r as i64);
            let ghost mut done: Seq<(int, int)> = Seq::empty();
            proof {
                assert(ox as int + r as int <= i32::MAX);
                assert(oy as int + r as int <= i32::MAX);
                assert(rr <= 0x4000_0000);
                lemma_painted_nothing(r0);
                assert(done + fill_rows(rr, x as int, y as int) =~= disc_rows(rr));
                assert(err == fill_err(rr, x as int, y as int)) by (nonlinear_arith)
                    requires
                        x == -rr,
                        y == 0,
                        err == 2 - 2 * rr,
                ;
                lemma_painted_same_region(r0, r0, |a: int, b: int| false, rows_region(done, ox as int, oy as int));
            }
            while x < 0
                invariant
                    r0.wf(),
                    rr == r as int,
                    2 <= rr <= 0x4000_0000,
                    r0.plottable(ox - r, oy - r),
                    r0.plottable(ox + r, oy + r),
                    disc_rows(rr) == done + fill_rows(rr, x as int, y as int),
                    err == fill_err(rr, x as int, y as int),
                    -rr <= x <= 0,
                    0 <= y <= rr,
                    self.painted(r0, rows_region(done, ox as int, oy as int)),
                decreases rr - y - x + 1,
            {
                let xi = x as i32;
                let yi = y as i32;
                let ghost before = *self;
                self.hline(ox - xi, ox + xi, oy + yi);
                let ghost mid = *self;
                self.hline(ox - xi, ox + xi, oy - yi);
                let ghost p: (int, int) = (x as int, y as int);
                proof {
                    let f = rows_region(done, ox as int, oy as int);
                    let s1 = span_region(min_int(ox - xi, ox + xi), max_int(ox - xi, ox + xi), oy + yi);
                    let s2 = span_region(min_int(ox - xi, ox + xi), max_int(ox - xi, ox + xi), oy - yi);
                    let g = |a: int, b: int| f(a, b) || s1(a, b);
                    lemma_painted_then(r0, before, mid, f, s1, g);
                    let h = rows_region(done.push(p), ox as int, oy as int);
                    assert forall|a: int, b: int| #[trigger] h(a, b) == (g(a, b) || s2(a, b)) by {
                        lemma_covers_rows_push(done, p, a - ox, b - oy);
                    }
                    lemma_painted_then(r0, mid, *self, g, s2, h);
                    lemma_fill_step(rr, x as int, y as int);
                    lemma_fill_step(rr, x + 1, y as int);
                    lemma_fill_err_bound(rr, x as int, y as int);
                    assert(fill_rows(rr, x as int, y as int) == seq![p] + fill_rows(rr, fill_next(rr, x as int, y as int).0, fill_next(rr, x as int, y as int).1));
                    assert(done + fill_rows(rr, x as int, y as int) =~= done.push(p) + fill_rows(rr, fill_next(rr, x as int, y as int).0, fill_next(rr, x as int, y as int).1));
                    done = done.push(p);
                }
                let saved = err;
                if saved > x {
                    x = x + 1;
                    err = err + x * 2 + 1;
                }
                if saved <= y {
                    y = y + 1;
                    err = err + y * 2 + 1;
                }
            }
            proof {
                assert(fill_rows(rr, x as int, y as int) =~= Seq::<(int, int)>::empty());
                assert(done =~= disc_rows(rr));
                lemma_painted_same_region(r0, *self, rows_region(done, ox as int, oy as int), region);
            }
        } else {
            proof {
                lemma_painted_nothing(r0);
                lemma_painted_same_region(r0, *self, |a: int, b: int| false, region);
            }
        }
    }
}

// ---------------------------------------------------------------------------
// Laws of the circle shapes
// ---------------------------------------------------------------------------

/// The absolute value of `v`.
pub open spec fn magnitude(v: int) -> int {
    if v < 0 { -v } else { v }
}

/// The circle equation at `(x, y)`: squared distance from the centre less
/// the squared radius.
pub open spec fn circle_excess(r: int, x: int, y: int) -> int {
    x * x + y * y - r * r
}

proof fn lemma_circ_octant_bounds(r: int, x: int, y: int)
    requires
        0 <= y,
    ensures
        forall|i: int|
            0 <= i < circ_octant(r, x, y).len() ==> y <= #[trigger] circ_octant(r, x, y)[i].1
                <= circ_octant(r, x, y)[i].0 <= x,
    decreases x - y + 2,
{
    if y <= x {
        let nx = circ_next_x(r, x, y);
        lemma_circ_octant_bounds(r, nx, y + 1);
        let s = circ_octant(r, x, y);
        let rest = circ_octant(r, nx, y + 1);
        assert(s == seq![(x, y)] + rest);
        assert forall|i: int| 0 <= i < s.len() implies y <= #[trigger] s[i].1 <= s[i].0 <= x by {
            if i > 0 {
                assert(s[i] == rest[i - 1]);
            }
        }
    }
}

proof fn lemma_circ_octant_close(r: int, x: int, y: int)
    requires
        0 <= y,
        y <= x ==> -x <= circle_excess(r, x, y) <= x,
    ensures
        forall|i: int|
            0 <= i < circ_octant(r, x, y).len() ==> -circ_octant(r, x, y)[i].0 <= circle_excess(
                r,
                #[trigger] circ_octant(r, x, y)[i].0,
                circ_octant(r, x, y)[i].1,
            ) <= circ_octant(r, x, y)[i].0,
    decreases x - y + 2,
{
    if y <= x {
        let nx = circ_next_x(r, x, y);
        assert(circle_excess(r, x, y + 1) == circle_excess(r, x, y) + 2 * y + 1) by (nonlinear_arith);
        assert(circ_midpoint(r, x, y) == circle_excess(r, x, y) - x + 2 * y + 1) by (nonlinear_arith);
        assert(circle_excess(r, x - 1, y + 1) == circle_excess(r, x, y) - 2 * x + 2 * y + 2)
            by (nonlinear_arith);
        lemma_circ_octant_close(r, nx, y + 1);
        let s = circ_octant(r, x, y);
        let rest = circ_octant(r, nx, y + 1);
        assert(s == seq![(x, y)] + rest);
        assert forall|i: int| 0 <= i < s.len() implies -s[i].0 <= circle_excess(
            r,
            #[trigger] s[i].0,
            s[i].1,
        ) <= s[i].0 by {
            if i > 0 {
                assert(s[i] == rest[i - 1]);
            }
        }
    }
}

proof fn lemma_square_of_reflection(v: int, p: int)
    requires
        v == p || v == -p,
    ensures
        v * v == p * p,
{
    assert(v * v == p * p) by (nonlinear_arith)
        requires
            v == p || v == -p,
    ;
}

/// The outline is symmetric about the vertical and horizontal lines
/// through its centre and about the diagonal through it: mirroring a pixel
/// across either axis, or swapping its offsets, keeps it on the outline.
pub proof fn law_circ_symmetric(ox: int, oy: int, r: int, a: int, b: int)
    ensures
        circ_region(ox, oy, r)(a, b) == circ_region(ox, oy, r)(2 * ox - a, b),
        circ_region(ox, oy, r)(a, b) == circ_region(ox, oy, r)(a, 2 * oy - b),
        circ_region(ox, oy, r)(a, b) == circ_region(ox, oy, r)(ox + (b - oy), oy + (a - ox)),
{
    let pts = circ_outline(r);
    let dx = a - ox;
    let dy = b - oy;
    if covers8(pts, dx, dy) {
        let i = choose|i: int| 0 <= i < pts.len() && #[trigger] octant_hit(pts[i], dx, dy);
        assert(octant_hit(pts[i], -dx, dy));
        assert(octant_hit(pts[i], dx, -dy));
        assert(octant_hit(pts[i], dy, dx));
    }
    if covers8(pts, -dx, dy) {
        let i = choose|i: int| 0 <= i < pts.len() && #[trigger] octant_hit(pts[i], -dx, dy);
        assert(octant_hit(pts[i], dx, dy));
    }
    if covers8(pts, dx, -dy) {
        let i = choose|i: int| 0 <= i < pts.len() && #[trigger] octant_hit(pts[i], dx, -dy);
        assert(octant_hit(pts[i], dx, dy));
    }
    if covers8(pts, dy, dx) {
        let i = choose|i: int| 0 <= i < pts.len() && #[trigger] octant_hit(pts[i], dy, dx);
        assert(octant_hit(pts[i], dx, dy));
    }
    assert((2 * ox - a) - ox == -dx);
    assert((2 * oy - b) - oy == -dy);
}

/// Every outline pixel lies in the square of side `2r + 1` centred on the
/// centre.
pub proof fn law_circ_within_square(ox: int, oy: int, r: int, a: int, b: int)
    requires
        circ_region(ox, oy, r)(a, b),
    ensures
        ox - r <= a <= ox + r,
        oy - r <= b <= oy + r,
{
    let pts = circ_outline(r);
    lemma_circ_octant_bounds(r, r, 0);
    let i = choose|i: int| 0 <= i < pts.len() && #[trigger] octant_hit(pts[i], a - ox, b - oy);
    assert(0 <= pts[i].1 <= pts[i].0 <= r);
}

/// Every outline pixel is within half a pixel's slack of the true circle:
/// its squared distance from the centre differs from `r * r` by at most its
/// larger offset from the centre.
pub proof fn law_circ_close_to_circle(ox: int, oy: int, r: int, a: int, b: int)
    requires
        circ_region(ox, oy, r)(a, b),
    ensures
        magnitude(circle_excess(r, a - ox, b - oy)) <= if magnitude(a - ox) >= magnitude(b - oy) {
            magnitude(a - ox)
        } else {
            magnitude(b - oy)
        },
{
    let pts = circ_outline(r);
    let dx = a - ox;
    let dy = b - oy;
    lemma_circ_octant_bounds(r, r, 0);
    if r >= 0 {
        assert(circle_excess(r, r, 0) == 0) by (nonlinear_arith);
    }
    lemma_circ_octant_close(r, r, 0);
    let i = choose|i: int| 0 <= i < pts.len() && #[trigger] octant_hit(pts[i], dx, dy);
    let p = pts[i];
    assert(0 <= p.1 <= p.0);
    assert(-p.0 <= circle_excess(r, p.0, p.1) <= p.0);
    if (dx == p.0 || dx == -p.0) && (dy == p.1 || dy == -p.1) {
        lemma_square_of_reflection(dx, p.0);
        lemma_square_of_reflection(dy, p.1);
    } else {
        lemma_square_of_reflection(dx, p.1);
        lemma_square_of_reflection(dy, p.0);
    }
}

/// A circle of non-negative radius reaches its four axis ends.
pub proof fn law_circ_reaches_axes(ox: int, oy: int, r: int)
    requires
        r >= 0,
    ensures
        circ_region(ox, oy, r)(ox + r, oy),
        circ_region(ox, oy, r)(ox - r, oy),
        circ_region(ox, oy, r)(ox, oy + r),
        circ_region(ox, oy, r)(ox, oy - r),
{
    let pts = circ_outline(r);
    assert(pts[0] == (r, 0int));
    assert(octant_hit(pts[0], r, 0));
    assert(octant_hit(pts[0], -r, 0));
    assert(octant_hit(pts[0], 0, r));
    assert(octant_hit(pts[0], 0, -r));
}

proof fn lemma_fill_rows_bounds(r: int, x: int, y: int)
    ensures
        forall|i: int|
            0 <= i < fill_rows(r, x, y).len() ==> x <= #[trigger] fill_rows(r, x, y)[i].0 < 0 && y
                <= fill_rows(r, x, y)[i].1 <= r,
    decreases r - y - x + 1,
{
    if !(x >= 0 || y < 0 || y > r) {
        let n = fill_next(r, x, y);
        lemma_fill_rows_bounds(r, n.0, n.1);
        let s = fill_rows(r, x, y);
        let rest = fill_rows(r, n.0, n.1);
        assert(s == seq![(x, y)] + rest);
        assert forall|i: int| 0 <= i < s.len() implies x <= #[trigger] s[i].0 < 0 && y <= s[i].1
            <= r by {
            if i > 0 {
                assert(s[i] == rest[i - 1]);
            }
        }
    }
}

/// The filled disc is symmetric about the vertical and horizontal lines
/// through its centre.
pub proof fn law_circfill_symmetric(ox: int, oy: int, r: int, a: int, b: int)
    ensures
        circfill_region(ox, oy, r)(a, b) == circfill_region(ox, oy, r)(2 * ox - a, b),
        circfill_region(ox, oy, r)(a, b) == circfill_region(ox, oy, r)(a, 2 * oy - b),
{
    let rows = disc_rows(r);
    let dx = a - ox;
    let dy = b - oy;
    lemma_fill_rows_bounds(r, -r, 0);
    if covers_rows(rows, dx, dy) {
        let i = choose|i: int| 0 <= i < rows.len() && #[trigger] row_hit(rows[i], dx, dy);
        assert(row_hit(rows[i], -dx, dy));
        assert(row_hit(rows[i], dx, -dy));
    }
    if covers_rows(rows, -dx, dy) {
        let i = choose|i: int| 0 <= i < rows.len() && #[trigger] row_hit(rows[i], -dx, dy);
        assert(row_hit(rows[i], dx, dy));
    }
    if covers_rows(rows, dx, -dy) {
        let i = choose|i: int| 0 <= i < rows.len() && #[trigger] row_hit(rows[i], dx, -dy);
        assert(row_hit(rows[i], dx, dy));
    }
    assert((2 * ox - a) - ox == -dx);
    assert((2 * oy - b) - oy == -dy);
}

/// Every pixel of the filled disc lies in the square of side `2r + 1`
/// centred on the centre.
pub proof fn law_circfill_within_square(ox: int, oy: int, r: int, a: int, b: int)
    requires
        circfill_region(ox, oy, r)(a, b),
    ensures
        ox - r <= a <= ox + r,
        oy - r <= b <= oy + r,
{
    if r > 1 {
        let rows = disc_rows(r);
        lemma_fill_rows_bounds(r, -r, 0);
        let i = choose|i: int| 0 <= i < rows.len() && #[trigger] row_hit(rows[i], a - ox, b - oy);
        assert(-r <= rows[i].0 < 0 && 0 <= rows[i].1 <= r);
    }
}

/// The filled disc has no holes along a row: with a pixel it holds every
/// pixel of the same row between it and the centre column.
pub proof fn law_circfill_rows_solid(ox: int, oy: int, r: int, a: int, b: int, c: int)
    requires
        circfill_region(ox, oy, r)(a, b),
        ox <= c <= a || a <= c <= ox,
    ensures
        circfill_region(ox, oy, r)(c, b),
{
    if r > 1 {
        let rows = disc_rows(r);
        let i = choose|i: int| 0 <= i < rows.len() && #[trigger] row_hit(rows[i], a - ox, b - oy);
        assert(row_hit(rows[i], c - ox, b - oy));
    }
}

proof fn lemma_circ_octant_steps(r: int, x: int, y: int)
    ensures
        forall|i: int|
            0 <= i < circ_octant(r, x, y).len() - 1 ==> #[trigger] circ_octant(r, x, y)[i + 1].1
                == circ_octant(r, x, y)[i].1 + 1 && circ_octant(r, x, y)[i].0 - 1 <= circ_octant(
                r,
                x,
                y,
            )[i + 1].0 <= circ_octant(r, x, y)[i].0,
        circ_octant(r, x, y).len() > 0 ==> circ_octant(r, x, y)[0] == (x, y),
    decreases x - y + 2,
{
    if y <= x {
        let nx = circ_next_x(r, x, y);
        lemma_circ_octant_steps(r, nx, y + 1);
        let s = circ_octant(r, x, y);
        let rest = circ_octant(r, nx, y + 1);
        assert(s == seq![(x, y)] + rest);
        assert forall|i: int| 0 <= i < s.len() - 1 implies #[trigger] s[i + 1].1 == s[i].1 + 1
            && s[i].0 - 1 <= s[i + 1].0 <= s[i].0 by {
            assert(s[i + 1] == rest[i]);
            if i > 0 {
                assert(s[i] == rest[i - 1]);
                assert(rest[(i - 1) + 1] == rest[i]);
            } else {
                assert(rest[0] == (nx, y + 1));
            }
        }
    }
}

/// The outline has no gaps: walking its first octant from `(r, 0)`, each
/// point is one row further than the last and at most one column in, so
/// consecutive points are neighbouring pixels.
pub proof fn law_circ_outline_connected(r: int, i: int)
    requires
        0 <= i < circ_outline(r).len() - 1,
    ensures
        circ_outline(r)[i + 1].1 == circ_outline(r)[i].1 + 1,
        circ_outline(r)[i].0 - 1 <= circ_outline(r)[i + 1].0 <= circ_outline(r)[i].0,
{
    lemma_circ_octant_steps(r, r, 0);
    let s = circ_octant(r, r, 0);
    assert(s[i + 1].1 == s[i].1 + 1);
}


/// The pixel `w` columns and `b` rows away from the centre (both
/// non-negative) lies inside the circle of radius `r` by the measure both
/// circle shapes share: `w² + b² - max(w, b) < r²`.
pub open spec fn inside_circle(r: int, w: int, b: int) -> bool {
    w * w + b * b - max_int(w, b) < r * r
}

/// The disc walk has just entered row `y` at width `u`: one pixel wider
/// would leave the circle.
spec fn disc_entry(r: int, u: int, y: int) -> bool {
    !inside_circle(r, u + 1, y)
}

/// The disc walk has moved in along row `y` to width `u`: it stepped in
/// because the error was above the row.
spec fn disc_across(r: int, u: int, y: int) -> bool {
    u * u + (y + 1) * (y + 1) - r * r > y
}

proof fn lemma_outline_inside(r: int, x: int, y: int)
    requires
        0 <= y,
        y <= x ==> x * x - x + y * y < r * r,
    ensures
        forall|i: int|
            0 <= i < circ_octant(r, x, y).len() ==> #[trigger] circ_octant(r, x, y)[i].0 * circ_octant(
                r,
                x,
                y,
            )[i].0 - circ_octant(r, x, y)[i].0 + circ_octant(r, x, y)[i].1 * circ_octant(r, x, y)[i].1
                < r * r,
    decreases x - y + 2,
{
    if y <= x {
        let m = circ_midpoint(r, x, y);
        let nx = circ_next_x(r, x, y);
        assert(m == (x * x - x + y * y) + 2 * y + 1 - r * r);
        assert(x * x - x + (y + 1) * (y + 1) == m + r * r) by (nonlinear_arith)
            requires
                m == (x * x - x + y * y) + 2 * y + 1 - r * r,
        ;
        assert((x - 1) * (x - 1) - (x - 1) + (y + 1) * (y + 1) == m + r * r - 2 * x + 2)
            by (nonlinear_arith)
            requires
                m == (x * x - x + y * y) + 2 * y + 1 - r * r,
        ;
        lemma_outline_inside(r, nx, y + 1);
        let s = circ_octant(r, x, y);
        let rest = circ_octant(r, nx, y + 1);
        assert(s == seq![(x, y)] + rest);
        assert forall|i: int| 0 <= i < s.len() implies #[trigger] s[i].0 * s[i].0 - s[i].0 + s[i].1
            * s[i].1 < r * r by {
            if i > 0 {
                assert(s[i] == rest[i - 1]);
            }
        }
    }
}

proof fn lemma_inside_monotone(r: int, w: int, v: int, b: int)
    requires
        1 <= v <= w,
        0 <= b,
        inside_circle(r, w, b),
    ensures
        inside_circle(r, v, b),
{
    assert(w * w - v * v >= w - v) by (nonlinear_arith)
        requires
            1 <= v <= w,
    ;
}

proof fn lemma_disc_step(r: int, u: int, y: int)
    requires
        r >= 2,
        u >= 1,
        0 <= y <= r,
        disc_entry(r, u, y) || disc_across(r, u, y),
    ensures
        ({
            let n = fill_next(r, -u, y);
            &&& disc_entry(r, -n.0, n.1) || disc_across(r, -n.0, n.1)
            &&& n.1 == y + 1 ==> disc_entry(r, -n.0, n.1)
            &&& -n.0 >= 1 || n.1 == r
            &&& -n.0 >= 0
            &&& y <= n.1 <= y + 1
        }),
{
    let e = fill_err(r, -u, y);
    assert(e == (u - 1) * (u - 1) + (y + 1) * (y + 1) - r * r) by (nonlinear_arith)
        requires
            e == (-u + 1) * (-u + 1) + (y + 1) * (y + 1) - r * r,
    ;
    let n = fill_next(r, -u, y);
    if e > -u && e > y {
        assert(disc_across(r, u - 1, y));
        if u == 1 {
            assert(y + 1 >= r) by (nonlinear_arith)
                requires
                    e == (u - 1) * (u - 1) + (y + 1) * (y + 1) - r * r,
                    u == 1,
                    e > -u,
                    y >= 0,
                    r >= 2,
            ;
            if y == r - 1 {
                if disc_entry(r, u, y) {
                    assert((u + 1) * (u + 1) + y * y - max_int(u + 1, y) >= r * r);
                    assert(false) by (nonlinear_arith)
                        requires
                            u == 1,
                            y == r - 1,
                            r >= 2,
                            (u + 1) * (u + 1) + y * y - max_int(u + 1, y) >= r * r,
                            max_int(u + 1, y) >= y,
                            max_int(u + 1, y) >= 2,
                    ;
                } else {
                    assert(false) by (nonlinear_arith)
                        requires
                            u == 1,
                            y == r - 1,
                            r >= 2,
                            u * u + (y + 1) * (y + 1) - r * r > y,
                    ;
                }
            }
        }
    } else if e > -u && e <= y {
        let b = y + 1;
        if u >= b {
            assert(u * u + b * b - u >= r * r) by (nonlinear_arith)
                requires
                    e == (u - 1) * (u - 1) + b * b - r * r,
                    e > -u,
            ;
        } else {
            if disc_across(r, u, y) {
                assert(u * u + b * b - b >= r * r);
            } else {
                assert((u + 1) * (u + 1) + y * y - max_int(u + 1, y) >= r * r);
                assert(u * u + b * b - b >= r * r) by (nonlinear_arith)
                    requires
                        b == y + 1,
                        u <= y,
                        (u + 1) * (u + 1) + y * y - max_int(u + 1, y) >= r * r,
                        max_int(u + 1, y) == if u + 1 <= y { y } else { u + 1 },
                ;
            }
        }
        assert(disc_entry(r, u - 1, y + 1));
        if u == 1 {
            assert(y + 1 >= r) by (nonlinear_arith)
                requires
                    e == (u - 1) * (u - 1) + (y + 1) * (y + 1) - r * r,
                    u == 1,
                    e > -u,
                    y >= 0,
                    r >= 2,
            ;
            if y == r {
                assert(false) by (nonlinear_arith)
                    requires
                        e == (u - 1) * (u - 1) + (y + 1) * (y + 1) - r * r,
                        u == 1,
                        y == r,
                        r >= 2,
                        e <= y,
                ;
            }
            if y == r - 1 {
                if disc_entry(r, u, y) {
                    assert(false) by (nonlinear_arith)
                        requires
                            u == 1,
                            y == r - 1,
                            r >= 2,
                            (u + 1) * (u + 1) + y * y - max_int(u + 1, y) >= r * r,
                            max_int(u + 1, y) >= y,
                            max_int(u + 1, y) >= 2,
                    ;
                } else {
                    assert(false) by (nonlinear_arith)
                        requires
                            u == 1,
                            y == r - 1,
                            r >= 2,
                            u * u + (y + 1) * (y + 1) - r * r > y,
                    ;
                }
            }
        }
    } else {
        assert(e <= -u);
        let b = y + 1;
        if disc_entry(r, u, y) {
            assert((u + 1) * (u + 1) + b * b - max_int(u + 1, b) >= r * r) by (nonlinear_arith)
                requires
                    b == y + 1,
                    y >= 0,
                    (u + 1) * (u + 1) + y * y - max_int(u + 1, y) >= r * r,
                    max_int(u + 1, b) <= max_int(u + 1, y) + 1,
            ;
        } else {
            assert((u + 1) * (u + 1) + b * b - max_int(u + 1, b) >= r * r) by (nonlinear_arith)
                requires
                    b == y + 1,
                    u >= 1,
                    y >= 0,
                    u * u + b * b - r * r > y,
                    max_int(u + 1, b) <= u + 1 + b,
            ;
        }
        assert(disc_entry(r, u, y + 1));
    }
}

proof fn lemma_disc_reaches(r: int, x: int, y: int, b: int, w: int)
    requires
        r >= 2,
        x <= 0,
        0 <= y <= b <= r,
        disc_entry(r, -x, y) || disc_across(r, -x, y),
        x < 0 || y == r,
        y == b ==> disc_entry(r, -x, y),
        0 <= w,
        inside_circle(r, w, b),
    ensures
        exists|i: int|
            0 <= i < fill_rows(r, x, y).len() && (#[trigger] fill_rows(r, x, y)[i]).1 == b
                && fill_rows(r, x, y)[i].0 <= -w,
    decreases r - y - x + 1,
{
    let s = fill_rows(r, x, y);
    if y == b {
        if x == 0 {
            assert(!inside_circle(r, 1, r));
            assert(false) by (nonlinear_arith)
                requires
                    r >= 2,
                    1 * 1 + r * r - max_int(1, r) >= r * r,
                    max_int(1, r) == r,
            ;
        }
        if w >= -x + 1 {
            lemma_inside_monotone(r, w, -x + 1, b);
        }
        assert(s[0] == (x, y));
    } else {
        let n = fill_next(r, x, y);
        lemma_disc_step(r, -x, y);
        lemma_disc_reaches(r, n.0, n.1, b, w);
        let rest = fill_rows(r, n.0, n.1);
        assert(s == seq![(x, y)] + rest);
        let i = choose|i: int|
            0 <= i < rest.len() && (#[trigger] rest[i]).1 == b && rest[i].0 <= -w;
        assert(s[i + 1] == rest[i]);
    }
}

/// The outline lies within the filled disc of the same centre and radius:
/// every pixel `circ` plots, `circfill` plots too.
pub proof fn law_circ_within_circfill(ox: int, oy: int, r: int, a: int, b: int)
    requires
        circ_region(ox, oy, r)(a, b),
    ensures
        circfill_region(ox, oy, r)(a, b),
{
    law_circ_is_rim_of_circfill(ox, oy, r, a, b);
}

proof fn lemma_disc_rows_inside(r: int, x: int, y: int)
    requires
        r >= 2,
        0 <= y,
        x < 0 && y <= r ==> inside_circle(r, -x, y),
    ensures
        forall|i: int|
            0 <= i < fill_rows(r, x, y).len() ==> inside_circle(
                r,
                -(#[trigger] fill_rows(r, x, y)[i]).0,
                fill_rows(r, x, y)[i].1,
            ),
    decreases r - y - x + 1,
{
    if !(x >= 0 || y < 0 || y > r) {
        let u = -x;
        let e = fill_err(r, x, y);
        assert(e == (u - 1) * (u - 1) + (y + 1) * (y + 1) - r * r) by (nonlinear_arith)
            requires
                e == (x + 1) * (x + 1) + (y + 1) * (y + 1) - r * r,
                u == -x,
        ;
        let n = fill_next(r, x, y);
        if n.0 < 0 && n.1 <= r {
            if e > x {
                if e <= y {
                    assert(inside_circle(r, u - 1, y + 1)) by (nonlinear_arith)
                        requires
                            e == (u - 1) * (u - 1) + (y + 1) * (y + 1) - r * r,
                            e <= y,
                            max_int(u - 1, y + 1) >= y + 1,
                    ;
                } else {
                    lemma_inside_monotone(r, u, u - 1, y);
                }
            } else {
                assert(inside_circle(r, u, y + 1)) by (nonlinear_arith)
                    requires
                        e == (u - 1) * (u - 1) + (y + 1) * (y + 1) - r * r,
                        e <= -u,
                        max_int(u, y + 1) >= u,
                ;
            }
        }
        lemma_disc_rows_inside(r, n.0, n.1);
        let s = fill_rows(r, x, y);
        let rest = fill_rows(r, n.0, n.1);
        assert(s == seq![(x, y)] + rest);
        assert forall|i: int| 0 <= i < s.len() implies inside_circle(r, -(#[trigger] s[i]).0, s[i].1) by {
            if i > 0 {
                assert(s[i] == rest[i - 1]);
            }
        }
    }
}

proof fn lemma_inside_toward_centre(r: int, w: int, v: int, b: int)
    requires
        0 <= v <= w,
        0 <= b,
        inside_circle(r, w, b),
    ensures
        inside_circle(r, v, b),
        inside_circle(r, b, v),
{
    if v >= 1 {
        lemma_inside_monotone(r, w, v, b);
    } else {
        assert(v * v + b * b - max_int(v, b) <= w * w + b * b - max_int(w, b)) by (nonlinear_arith)
            requires
                v == 0,
                0 <= w,
                0 <= b,
                max_int(v, b) == b,
                max_int(w, b) == if w <= b { b } else { w },
        ;
    }
}

proof fn lemma_inside_within_radius(r: int, w: int, b: int)
    requires
        r >= 0,
        0 <= w,
        0 <= b,
        inside_circle(r, w, b),
    ensures
        w <= r,
        b <= r,
{
    assert(w <= r && b <= r) by (nonlinear_arith)
        requires
            r >= 0,
            0 <= w,
            0 <= b,
            w * w + b * b - max_int(w, b) < r * r,
            max_int(w, b) == if w <= b { b } else { w },
    ;
}

/// For a positive radius the filled disc is exactly the pixels inside the
/// circle: those whose offsets `(w, b)` from the centre, taken without
/// sign, have `w² + b² - max(w, b) < r²`.
pub proof fn law_circfill_is_disc(ox: int, oy: int, r: int, a: int, b: int)
    requires
        r >= 1,
    ensures
        circfill_region(ox, oy, r)(a, b) == inside_circle(r, magnitude(a - ox), magnitude(b - oy)),
{
    let dx = a - ox;
    let dy = b - oy;
    let w = magnitude(dx);
    let h = magnitude(dy);
    if r == 1 {
        assert(inside_circle(1, w, h) == ((w == 0 && h <= 1) || (h == 0 && w <= 1))) by (nonlinear_arith)
            requires
                0 <= w,
                0 <= h,
                max_int(w, h) == if w <= h { h } else { w },
        ;
    } else {
        let rows = disc_rows(r);
        if covers_rows(rows, dx, dy) {
            let i = choose|i: int| 0 <= i < rows.len() && #[trigger] row_hit(rows[i], dx, dy);
            lemma_disc_rows_inside(r, -r, 0);
            lemma_fill_rows_bounds(r, -r, 0);
            assert(inside_circle(r, -rows[i].0, rows[i].1));
            lemma_inside_toward_centre(r, -rows[i].0, w, rows[i].1);
        }
        if inside_circle(r, w, h) {
            lemma_inside_within_radius(r, w, h);
            assert(disc_entry(r, r, 0)) by (nonlinear_arith)
                requires
                    r >= 2,
                    max_int(r + 1, 0) == r + 1,
            ;
            lemma_disc_reaches(r, -r, 0, h, w);
            let k = choose|k: int| 0 <= k < rows.len() && (#[trigger] rows[k]).1 == h && rows[k].0 <= -w;
            assert(row_hit(rows[k], dx, dy));
        }
    }
}

proof fn lemma_outline_outer(r: int, x: int, y: int)
    requires
        0 <= y,
        x * x + x + y * y >= r * r,
    ensures
        forall|i: int|
            0 <= i < circ_octant(r, x, y).len() ==> #[trigger] circ_octant(r, x, y)[i].0 * circ_octant(
                r,
                x,
                y,
            )[i].0 + circ_octant(r, x, y)[i].0 + circ_octant(r, x, y)[i].1 * circ_octant(r, x, y)[i].1
                >= r * r,
    decreases x - y + 2,
{
    if y <= x {
        let m = circ_midpoint(r, x, y);
        let nx = circ_next_x(r, x, y);
        assert(m == (x * x - x + y * y) + 2 * y + 1 - r * r);
        assert(nx * nx + nx + (y + 1) * (y + 1) >= r * r) by (nonlinear_arith)
            requires
                m == (x * x - x + y * y) + 2 * y + 1 - r * r,
                x * x + x + y * y >= r * r,
                nx == if m < 0 { x } else { x - 1 },
                0 <= y,
        ;
        lemma_outline_outer(r, nx, y + 1);
        let s = circ_octant(r, x, y);
        let rest = circ_octant(r, nx, y + 1);
        assert(s == seq![(x, y)] + rest);
        assert forall|i: int| 0 <= i < s.len() implies #[trigger] s[i].0 * s[i].0 + s[i].0 + s[i].1
            * s[i].1 >= r * r by {
            if i > 0 {
                assert(s[i] == rest[i - 1]);
            }
        }
    }
}

proof fn lemma_octant_contains(r: int, x: int, y: int, w: int, b: int)
    requires
        0 <= y <= b <= w,
        0 <= x,
        y <= x ==> x * x - x + y * y < r * r,
        x * x + x + y * y >= r * r,
        w * w - w + b * b < r * r,
        w * w + w + b * b >= r * r,
    ensures
        exists|i: int| 0 <= i < circ_octant(r, x, y).len() && #[trigger] circ_octant(r, x, y)[i] == (w, b),
    decreases x - y + 2,
{
    if x < w {
        assert(false) by (nonlinear_arith)
            requires
                0 <= x < w,
                0 <= y <= b,
                x * x + x + y * y >= r * r,
                w * w - w + b * b < r * r,
        ;
    }
    let s = circ_octant(r, x, y);
    if y == b {
        if x > w {
            assert(false) by (nonlinear_arith)
                requires
                    0 <= w < x,
                    y == b,
                    x * x - x + y * y < r * r,
                    w * w + w + b * b >= r * r,
            ;
        }
        assert(s[0] == (w, b));
    } else {
        let m = circ_midpoint(r, x, y);
        let nx = circ_next_x(r, x, y);
        assert(m == (x * x - x + y * y) + 2 * y + 1 - r * r);
        assert(nx * nx + nx + (y + 1) * (y + 1) >= r * r) by (nonlinear_arith)
            requires
                m == (x * x - x + y * y) + 2 * y + 1 - r * r,
                x * x + x + y * y >= r * r,
                nx == if m < 0 { x } else { x - 1 },
                0 <= y,
        ;
        assert(y + 1 <= nx ==> nx * nx - nx + (y + 1) * (y + 1) < r * r) by (nonlinear_arith)
            requires
                m == (x * x - x + y * y) + 2 * y + 1 - r * r,
                x * x - x + y * y < r * r,
                nx == if m < 0 { x } else { x - 1 },
        ;
        lemma_octant_contains(r, nx, y + 1, w, b);
        let rest = circ_octant(r, nx, y + 1);
        assert(s == seq![(x, y)] + rest);
        let i = choose|i: int| 0 <= i < rest.len() && #[trigger] rest[i] == (w, b);
        assert(s[i + 1] == rest[i]);
    }
}

/// `(hi, lo)`, with `lo <= hi`, is a first-octant outline point of radius `r`:
/// inside the circle, and one column further out is not.
spec fn octant_point(r: int, hi: int, lo: int) -> bool {
    hi * hi - hi + lo * lo < r * r && hi * hi + hi + lo * lo >= r * r
}

proof fn lemma_rim_is_octant_point(r: int, w: int, h: int)
    requires
        r >= 1,
        0 <= w,
        0 <= h,
    ensures
        (inside_circle(r, w, h) && (!inside_circle(r, w + 1, h) || !inside_circle(r, w, h + 1)))
            == octant_point(r, max_int(w, h), min_int(w, h)),
{
    let hi = max_int(w, h);
    let lo = min_int(w, h);
    assert(inside_circle(r, w, h) == inside_circle(r, hi, lo));
    assert(inside_circle(r, hi, lo) == (hi * hi - hi + lo * lo < r * r));
    assert(!inside_circle(r, hi + 1, lo) == (hi * hi + hi + lo * lo >= r * r)) by (nonlinear_arith)
        requires
            0 <= lo <= hi,
            max_int(hi + 1, lo) == hi + 1,
    ;
    assert(inside_circle(r, hi, lo) && !inside_circle(r, hi, lo + 1) ==> !inside_circle(r, hi + 1, lo))
        by (nonlinear_arith)
        requires
            0 <= lo <= hi,
            max_int(hi + 1, lo) == hi + 1,
            max_int(hi, lo + 1) == if lo + 1 <= hi { hi } else { lo + 1 },
    ;
    assert(inside_circle(r, w + 1, h) == inside_circle(r, h, w + 1));
    assert(inside_circle(r, w, h + 1) == inside_circle(r, h + 1, w));
    if w >= h {
        assert(inside_circle(r, w + 1, h) == inside_circle(r, hi + 1, lo));
        assert(inside_circle(r, w, h + 1) == inside_circle(r, hi, lo + 1));
    } else {
        assert(inside_circle(r, w, h + 1) == inside_circle(r, hi + 1, lo));
        assert(inside_circle(r, w + 1, h) == inside_circle(r, hi, lo + 1));
    }
}

proof fn lemma_neighbours_inside(r: int, dx: int, dy: int)
    requires
        r >= 1,
        inside_circle(r, magnitude(dx), magnitude(dy)),
    ensures
        (inside_circle(r, magnitude(dx + 1), magnitude(dy)) && inside_circle(r, magnitude(dx - 1), magnitude(dy))
            && inside_circle(r, magnitude(dx), magnitude(dy + 1)) && inside_circle(
            r,
            magnitude(dx),
            magnitude(dy - 1),
        )) == (inside_circle(r, magnitude(dx) + 1, magnitude(dy)) && inside_circle(
            r,
            magnitude(dx),
            magnitude(dy) + 1,
        )),
{
    let w = magnitude(dx);
    let h = magnitude(dy);
    if w >= 1 {
        lemma_inside_toward_centre(r, w, w - 1, h);
    }
    if h >= 1 {
        lemma_inside_toward_centre(r, h, h - 1, w);
        assert(inside_circle(r, h - 1, w) == inside_circle(r, w, h - 1));
    }
}

proof fn lemma_outline_is_octant_points(r: int, dx: int, dy: int)
    requires
        r >= 1,
    ensures
        covers8(circ_outline(r), dx, dy) == octant_point(
            r,
            max_int(magnitude(dx), magnitude(dy)),
            min_int(magnitude(dx), magnitude(dy)),
        ),
{
    let pts = circ_outline(r);
    let hi = max_int(magnitude(dx), magnitude(dy));
    let lo = min_int(magnitude(dx), magnitude(dy));
    assert(r * r - r < r * r) by (nonlinear_arith)
        requires
            r >= 1,
    ;
    assert(r * r + r + 0 * 0 >= r * r) by (nonlinear_arith)
        requires
            r >= 1,
    ;
    if covers8(pts, dx, dy) {
        let i = choose|i: int| 0 <= i < pts.len() && #[trigger] octant_hit(pts[i], dx, dy);
        let p = pts[i];
        lemma_circ_octant_bounds(r, r, 0);
        assert(0 <= p.1 <= p.0 <= r);
        lemma_outline_inside(r, r, 0);
        lemma_outline_outer(r, r, 0);
        assert(p.0 * p.0 - p.0 + p.1 * p.1 < r * r);
        assert(p.0 * p.0 + p.0 + p.1 * p.1 >= r * r);
        assert(hi == p.0 && lo == p.1);
    }
    if octant_point(r, hi, lo) {
        lemma_octant_contains(r, r, 0, hi, lo);
        let i = choose|i: int| 0 <= i < pts.len() && #[trigger] pts[i] == (hi, lo);
        assert(octant_hit(pts[i], dx, dy));
    }
}

/// `circ` draws the rim of `circfill`: a pixel is on the outline exactly
/// when it is in the filled disc of the same centre and radius and one of
/// its four neighbours is not.
pub proof fn law_circ_is_rim_of_circfill(ox: int, oy: int, r: int, a: int, b: int)
    ensures
        circ_region(ox, oy, r)(a, b) == (circfill_region(ox, oy, r)(a, b) && !(circfill_region(
            ox,
            oy,
            r,
        )(a + 1, b) && circfill_region(ox, oy, r)(a - 1, b) && circfill_region(ox, oy, r)(a, b + 1)
            && circfill_region(ox, oy, r)(a, b - 1))),
{
    let pts = circ_outline(r);
    let dx = a - ox;
    let dy = b - oy;
    if r < 0 {
        assert(pts =~= Seq::<(int, int)>::empty());
    } else if r == 0 {
        assert(circ_octant(0, -1, 1) =~= Seq::<(int, int)>::empty());
        assert(pts =~= seq![(0int, 0int)]);
        if dx == 0 && dy == 0 {
            assert(octant_hit(pts[0], dx, dy));
        }
    } else {
        law_circfill_is_disc(ox, oy, r, a, b);
        law_circfill_is_disc(ox, oy, r, a + 1, b);
        law_circfill_is_disc(ox, oy, r, a - 1, b);
        law_circfill_is_disc(ox, oy, r, a, b + 1);
        law_circfill_is_disc(ox, oy, r, a, b - 1);
        assert((a + 1) - ox == dx + 1 && (a - 1) - ox == dx - 1);
        assert((b + 1) - oy == dy + 1 && (b - 1) - oy == dy - 1);
        if inside_circle(r, magnitude(dx), magnitude(dy)) {
            lemma_neighbours_inside(r, dx, dy);
        }
        lemma_rim_is_octant_point(r, magnitude(dx), magnitude(dy));
        lemma_outline_is_octant_points(r, dx, dy);
    }
}

} // verus!
