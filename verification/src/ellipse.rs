//! Axis-aligned ellipses inscribed in a rectangle: the midpoint outline
//! (`oval`) and the filled ellipse (`ovalfill`).
use vstd::prelude::*;
use crate::raster::{
    Raster,
    mirror4,
    span_region,
    column_region,
    min_int,
    max_int,
    sort_rect,
    lemma_painted_then,
    lemma_painted_same_region,
};

verus! {

// ---------------------------------------------------------------------------
// The two arcs of the midpoint ellipse with semi-axes `a` (across) and `b`
// (down), walked in the first quadrant.
// ---------------------------------------------------------------------------

/// The arc where the outline is flatter than 45 degrees, scaled to
/// integers: the ellipse equation at `(x, y - 1/2)`.
pub open spec fn upper_test(a: int, b: int, x: int, y: int) -> int {
    (b * b) * (x * x) + (a * a) * (y * y - y) + (a * a) / 4 - (a * a) * (b * b)
}

/// The arc where the outline is steeper than 45 degrees, scaled to
/// integers: the ellipse equation at `(x - 1/2, y)`.
pub open spec fn side_test(a: int, b: int, x: int, y: int) -> int {
    (a * a) * (y * y) + (b * b) * (x * x - x) + (b * b) / 4 - (a * a) * (b * b)
}

/// Next point of the flat arc: one column out, and one row in when the
/// midpoint below the current row lies on or outside the ellipse.
pub open spec fn upper_next(a: int, b: int, x: int, y: int) -> (int, int) {
    (x + 1, if upper_test(a, b, x + 1, y) >= 0 { y - 1 } else { y })
}

/// The flat arc goes on while its slope stays under 45 degrees.
pub open spec fn upper_goes_on(a: int, b: int, p: (int, int)) -> bool {
    (b * b) * p.0 < (a * a) * p.1
}

/// Next point of the steep arc: one row out, and one column in when the
/// midpoint left of the current column lies on or outside the ellipse.
pub open spec fn side_next(a: int, b: int, x: int, y: int) -> (int, int) {
    (if side_test(a, b, x, y + 1) >= 0 { x - 1 } else { x }, y + 1)
}

/// The steep arc goes on while its slope stays at or over 45 degrees and it
/// has not collapsed to the origin.
pub open spec fn side_goes_on(a: int, b: int, p: (int, int)) -> bool {
    (a * a) * p.1 <= (b * b) * p.0 && !((a * a) * p.1 == 0 && (b * b) * p.0 == 0)
}

proof fn lemma_square_nonneg(v: int)
    ensures
        v * v >= 0,
        v * v - v >= 0,
{
    assert(v * v >= 0) by (nonlinear_arith);
    assert(v * v - v >= 0) by (nonlinear_arith);
}

pub proof fn lemma_upper_decreases(a: int, b: int, x: int, y: int)
    requires
        upper_goes_on(a, b, upper_next(a, b, x, y)),
    ensures
        0 <= (a * a) * upper_next(a, b, x, y).1 - (b * b) * upper_next(a, b, x, y).0 < (a * a) * y
            - (b * b) * x,
{
    let n = upper_next(a, b, x, y);
    lemma_square_nonneg(a);
    lemma_square_nonneg(b);
    lemma_square_nonneg(y);
    assert((b * b) * n.0 == (b * b) * x + b * b) by (nonlinear_arith)
        requires
            n.0 == x + 1,
    ;
    if n.1 == y - 1 {
        assert((a * a) * n.1 == (a * a) * y - a * a) by (nonlinear_arith)
            requires
                n.1 == y - 1,
        ;
    }
    if b * b == 0 {
        assert((a * a) * n.1 > 0);
        assert(a * a != 0);
        assert((b * b) * ((x + 1) * (x + 1)) == 0) by (nonlinear_arith)
            requires
                b * b == 0,
        ;
        assert((a * a) * (y * y - y) >= 0) by (nonlinear_arith)
            requires
                a * a >= 0,
                y * y - y >= 0,
        ;
        assert(upper_test(a, b, x + 1, y) >= 0) by (nonlinear_arith)
            requires
                (b * b) * ((x + 1) * (x + 1)) == 0,
                (a * a) * (y * y - y) >= 0,
                a * a >= 0,
                b * b == 0,
        ;
    }
}

pub proof fn lemma_side_decreases(a: int, b: int, x: int, y: int)
    requires
        side_goes_on(a, b, side_next(a, b, x, y)),
    ensures
        0 <= (b * b) * side_next(a, b, x, y).0 - (a * a) * side_next(a, b, x, y).1 < (b * b) * x
            - (a * a) * y,
{
    let n = side_next(a, b, x, y);
    lemma_square_nonneg(a);
    lemma_square_nonneg(b);
    lemma_square_nonneg(x);
    assert((a * a) * n.1 == (a * a) * y + a * a) by (nonlinear_arith)
        requires
            n.1 == y + 1,
    ;
    if n.0 == x - 1 {
        assert((b * b) * n.0 == (b * b) * x - b * b) by (nonlinear_arith)
            requires
                n.0 == x - 1,
        ;
    }
    if a * a == 0 {
        assert(!((b * b) * n.0 == 0));
        assert(b * b != 0);
        assert((a * a) * ((y + 1) * (y + 1)) == 0) by (nonlinear_arith)
            requires
                a * a == 0,
        ;
        assert((b * b) * (x * x - x) >= 0) by (nonlinear_arith)
            requires
                b * b >= 0,
                x * x - x >= 0,
        ;
        assert(side_test(a, b, x, y + 1) >= 0) by (nonlinear_arith)
            requires
                (a * a) * ((y + 1) * (y + 1)) == 0,
                (b * b) * (x * x - x) >= 0,
                b * b >= 0,
                a * a == 0,
        ;
        assert((b * b) * n.0 == (b * b) * x - b * b) by (nonlinear_arith)
            requires
                n.0 == x - 1,
        ;
    }
}

/// The points of the flat arc plotted after `(x, y)`.
pub open spec fn upper_arc_from(a: int, b: int, x: int, y: int) -> Seq<(int, int)>
    decreases (a * a) * y - (b * b) * x,
{
    let n = upper_next(a, b, x, y);
    if !upper_goes_on(a, b, n) {
        Seq::empty()
    } else {
        proof {
            lemma_upper_decreases(a, b, x, y);
        }
        seq![n] + upper_arc_from(a, b, n.0, n.1)
    }
}

/// The points of the steep arc plotted after `(x, y)`.
pub open spec fn side_arc_from(a: int, b: int, x: int, y: int) -> Seq<(int, int)>
    decreases (b * b) * x - (a * a) * y,
{
    let n = side_next(a, b, x, y);
    if !side_goes_on(a, b, n) {
        Seq::empty()
    } else {
        proof {
            lemma_side_decreases(a, b, x, y);
        }
        seq![n] + side_arc_from(a, b, n.0, n.1)
    }
}

/// The flat arc of the ellipse, walked from its top `(0, b)`.
pub open spec fn upper_arc(a: int, b: int) -> Seq<(int, int)> {
    upper_arc_from(a, b, 0, b)
}

/// The steep arc of the ellipse, walked from its side `(a, 0)`.
pub open spec fn side_arc(a: int, b: int) -> Seq<(int, int)> {
    side_arc_from(a, b, a, 0)
}

/// A point of the flat arc strictly inside the ellipse, on or below its top
/// row and above the centre row.
pub open spec fn upper_inside(a: int, b: int, p: (int, int)) -> bool {
    0 <= p.0 && 1 <= p.1 <= b && upper_test(a, b, p.0, p.1) < 0
}

/// A point of the steep arc strictly inside the ellipse, right of the centre
/// column and at most the side column.
pub open spec fn side_inside(a: int, b: int, p: (int, int)) -> bool {
    1 <= p.0 <= a && 0 <= p.1 && side_test(a, b, p.0, p.1) < 0
}

proof fn lemma_sq_lt_implies_lt(v: int, a: int)
    requires
        0 <= v,
        0 <= a,
        v * v < a * a,
    ensures
        v < a,
{
    if v >= a {
        assert(v * v >= a * a) by (nonlinear_arith)
            requires
                v >= a,
                a >= 0,
        ;
    }
}

proof fn lemma_upper_start(a: int, b: int)
    requires
        a >= 1,
        b >= 1,
    ensures
        upper_inside(a, b, (0, b)),
{
    assert(a * a >= 1) by (nonlinear_arith)
        requires
            a >= 1,
    ;
    assert((a * a) * (b * b - b) - (a * a) * (b * b) == -((a * a) * b)) by (nonlinear_arith);
    assert((a * a) * b >= a * a) by (nonlinear_arith)
        requires
            a * a >= 1,
            b >= 1,
    ;
    assert((b * b) * (0int * 0int) == 0) by (nonlinear_arith);
}

proof fn lemma_side_start(a: int, b: int)
    requires
        a >= 1,
        b >= 1,
    ensures
        side_inside(a, b, (a, 0)),
{
    assert(b * b >= 1) by (nonlinear_arith)
        requires
            b >= 1,
    ;
    assert((b * b) * (a * a - a) - (a * a) * (b * b) == -((b * b) * a)) by (nonlinear_arith);
    assert((b * b) * a >= b * b) by (nonlinear_arith)
        requires
            b * b >= 1,
            a >= 1,
    ;
    assert((a * a) * (0int * 0int) == 0) by (nonlinear_arith);
}

/// One step of the flat arc keeps its point strictly inside and left of the
/// side column.
proof fn lemma_upper_step(a: int, b: int, x: int, y: int)
    requires
        a >= 1,
        b >= 1,
        upper_inside(a, b, (x, y)),
        upper_goes_on(a, b, upper_next(a, b, x, y)),
    ensures
        upper_inside(a, b, upper_next(a, b, x, y)),
        1 <= upper_next(a, b, x, y).0 < a,
{
    let n = upper_next(a, b, x, y);
    let asq = a * a;
    let bsq = b * b;
    assert(asq >= 1 && bsq >= 1) by (nonlinear_arith)
        requires
            a >= 1,
            b >= 1,
            asq == a * a,
            bsq == b * b,
    ;
    assert(upper_test(a, b, x + 1, y) == upper_test(a, b, x, y) + bsq * (2 * x + 1)) by (nonlinear_arith)
        requires
            bsq == b * b,
    ;
    assert(upper_test(a, b, x + 1, y - 1) == upper_test(a, b, x + 1, y) - 2 * (asq * (y - 1))) by (nonlinear_arith)
        requires
            asq == a * a,
    ;
    assert(bsq * (2 * x + 1) == 2 * (bsq * (x + 1)) - bsq) by (nonlinear_arith);
    assert(bsq * (x + 1) >= 0) by (nonlinear_arith)
        requires
            bsq >= 0,
            x >= 0,
    ;
    if n.1 <= 0 {
        assert(asq * n.1 <= 0) by (nonlinear_arith)
            requires
                asq >= 0,
                n.1 <= 0,
        ;
    }
    if upper_test(a, b, x + 1, y) >= 0 {
        assert(asq * n.1 == asq * (y - 1));
    }
    assert(upper_test(a, b, n.0, n.1) < 0);
    lemma_square_nonneg(n.1);
    assert(asq * (n.1 * n.1 - n.1) >= 0) by (nonlinear_arith)
        requires
            asq >= 0,
            n.1 * n.1 - n.1 >= 0,
    ;
    assert(bsq * (n.0 * n.0) < bsq * asq) by (nonlinear_arith)
        requires
            upper_test(a, b, n.0, n.1) < 0,
            asq * (n.1 * n.1 - n.1) >= 0,
            asq == a * a,
            bsq == b * b,
            asq >= 1,
    ;
    assert(n.0 * n.0 < asq) by (nonlinear_arith)
        requires
            bsq * (n.0 * n.0) < bsq * asq,
            bsq >= 1,
    ;
    lemma_sq_lt_implies_lt(n.0, a);
}

/// One step of the steep arc keeps its point strictly inside and below the
/// top row.
proof fn lemma_side_step(a: int, b: int, x: int, y: int)
    requires
        a >= 1,
        b >= 1,
        side_inside(a, b, (x, y)),
        side_goes_on(a, b, side_next(a, b, x, y)),
    ensures
        side_inside(a, b, side_next(a, b, x, y)),
        1 <= side_next(a, b, x, y).1 < b,
{
    let n = side_next(a, b, x, y);
    let asq = a * a;
    let bsq = b * b;
    assert(asq >= 1 && bsq >= 1) by (nonlinear_arith)
        requires
            a >= 1,
            b >= 1,
            asq == a * a,
            bsq == b * b,
    ;
    assert(side_test(a, b, x, y + 1) == side_test(a, b, x, y) + asq * (2 * y + 1)) by (nonlinear_arith)
        requires
            asq == a * a,
    ;
    assert(side_test(a, b, x - 1, y + 1) == side_test(a, b, x, y + 1) - 2 * (bsq * (x - 1))) by (nonlinear_arith)
        requires
            bsq == b * b,
    ;
    assert(asq * (2 * y + 1) == 2 * (asq * (y + 1)) - asq) by (nonlinear_arith);
    assert(asq * n.1 >= asq) by (nonlinear_arith)
        requires
            asq >= 0,
            n.1 >= 1,
    ;
    if n.0 <= 0 {
        assert(bsq * n.0 <= 0) by (nonlinear_arith)
            requires
                bsq >= 0,
                n.0 <= 0,
        ;
    }
    if side_test(a, b, x, y + 1) >= 0 {
        assert(bsq * n.0 == bsq * (x - 1));
    }
    assert(side_test(a, b, n.0, n.1) < 0);
    lemma_square_nonneg(n.0);
    assert(bsq * (n.0 * n.0 - n.0) >= 0) by (nonlinear_arith)
        requires
            bsq >= 0,
            n.0 * n.0 - n.0 >= 0,
    ;
    assert(asq * (n.1 * n.1) < asq * bsq) by (nonlinear_arith)
        requires
            side_test(a, b, n.0, n.1) < 0,
            bsq * (n.0 * n.0 - n.0) >= 0,
            asq == a * a,
            bsq == b * b,
            bsq >= 1,
    ;
    assert(n.1 * n.1 < bsq) by (nonlinear_arith)
        requires
            asq * (n.1 * n.1) < asq * bsq,
            asq >= 1,
    ;
    lemma_sq_lt_implies_lt(n.1, b);
}

proof fn lemma_upper_degenerate(a: int, b: int)
    requires
        0 <= a,
        0 <= b,
        !(a >= 1 && b >= 1),
    ensures
        !upper_goes_on(a, b, upper_next(a, b, 0, b)),
{
    let n = upper_next(a, b, 0, b);
    lemma_square_nonneg(a);
    lemma_square_nonneg(b);
    if b == 0 {
        assert((a * a) * n.1 <= 0) by (nonlinear_arith)
            requires
                a * a >= 0,
                n.1 <= 0,
        ;
        assert((b * b) * n.0 == 0) by (nonlinear_arith)
            requires
                b == 0,
        ;
    } else {
        assert(a == 0);
        assert((a * a) * n.1 == 0) by (nonlinear_arith)
            requires
                a == 0,
        ;
        assert((b * b) * n.0 >= 0) by (nonlinear_arith)
            requires
                b * b >= 0,
                n.0 == 1,
        ;
    }
}

proof fn lemma_side_degenerate(a: int, b: int)
    requires
        0 <= a,
        0 <= b,
        !(a >= 1 && b >= 1),
    ensures
        !side_goes_on(a, b, side_next(a, b, a, 0)),
{
    let n = side_next(a, b, a, 0);
    lemma_square_nonneg(a);
    lemma_square_nonneg(b);
    if a == 0 {
        assert((a * a) * n.1 == 0) by (nonlinear_arith)
            requires
                a == 0,
        ;
        assert((b * b) * n.0 <= 0) by (nonlinear_arith)
            requires
                b * b >= 0,
                n.0 <= 0,
        ;
    } else {
        assert(b == 0);
        assert((b * b) * n.0 == 0) by (nonlinear_arith)
            requires
                b == 0,
        ;
        assert((a * a) * n.1 >= 1) by (nonlinear_arith)
            requires
                a >= 1,
                n.1 == 1,
        ;
    }
}

proof fn lemma_mul_nonneg_le(p: int, q: int, pm: int, qm: int)
    requires
        0 <= p <= pm,
        0 <= q <= qm,
    ensures
        0 <= p * q <= pm * qm,
{
    assert(0 <= p * q <= pm * qm) by (nonlinear_arith)
        requires
            0 <= p <= pm,
            0 <= q <= qm,
    ;
}

/// Largest semi-axis the arc walks handle: half the addressable width.
pub open spec fn max_semi_axis() -> int {
    0x4000_0000
}

proof fn lemma_upper_test_bound(a: int, b: int, x: int, y: int)
    requires
        0 <= a <= max_semi_axis(),
        0 <= b <= max_semi_axis(),
        0 <= x <= a + 1,
        -1 <= y <= b,
    ensures
        -0x1_0000_0000_0000_0000_0000_0000_0000_0000 <= upper_test(a, b, x, y)
            <= 0x1_0000_0000_0000_0000_0000_0000_0000_0000,
        0 <= a * a <= 0x1000_0000_0000_0000,
        0 <= b * b <= 0x1000_0000_0000_0000,
{
    lemma_mul_nonneg_le(a, a, 0x4000_0000, 0x4000_0000);
    lemma_mul_nonneg_le(b, b, 0x4000_0000, 0x4000_0000);
    lemma_mul_nonneg_le(x, x, 0x4000_0001, 0x4000_0001);
    assert(0 <= y * y - y <= 0x1000_0000_4000_0000) by (nonlinear_arith)
        requires
            -1 <= y <= b,
            b <= 0x4000_0000,
    ;
    lemma_mul_nonneg_le(b * b, x * x, 0x1000_0000_0000_0000, 0x1000_0000_8000_0001);
    lemma_mul_nonneg_le(a * a, y * y - y, 0x1000_0000_0000_0000, 0x1000_0000_4000_0000);
    lemma_mul_nonneg_le(a * a, b * b, 0x1000_0000_0000_0000, 0x1000_0000_0000_0000);
}

proof fn lemma_side_test_bound(a: int, b: int, x: int, y: int)
    requires
        0 <= a <= max_semi_axis(),
        0 <= b <= max_semi_axis(),
        -1 <= x <= a,
        0 <= y <= b + 1,
    ensures
        -0x1_0000_0000_0000_0000_0000_0000_0000_0000 <= side_test(a, b, x, y)
            <= 0x1_0000_0000_0000_0000_0000_0000_0000_0000,
        0 <= a * a <= 0x1000_0000_0000_0000,
        0 <= b * b <= 0x1000_0000_0000_0000,
{
    lemma_mul_nonneg_le(a, a, 0x4000_0000, 0x4000_0000);
    lemma_mul_nonneg_le(b, b, 0x4000_0000, 0x4000_0000);
    lemma_mul_nonneg_le(y, y, 0x4000_0001, 0x4000_0001);
    assert(0 <= x * x - x <= 0x1000_0000_4000_0000) by (nonlinear_arith)
        requires
            -1 <= x <= a,
            a <= 0x4000_0000,
    ;
    lemma_mul_nonneg_le(a * a, y * y, 0x1000_0000_0000_0000, 0x1000_0000_8000_0001);
    lemma_mul_nonneg_le(b * b, x * x - x, 0x1000_0000_0000_0000, 0x1000_0000_4000_0000);
    lemma_mul_nonneg_le(a * a, b * b, 0x1000_0000_0000_0000, 0x1000_0000_0000_0000);
}

// ---------------------------------------------------------------------------
// Regions
// ---------------------------------------------------------------------------

/// Offset `(dx, dy)` is one of the four reflections of quadrant point `p`.
pub open spec fn quad_hit(p: (int, int), dx: int, dy: int) -> bool {
    (dx == p.0 || dx == -p.0) && (dy == p.1 || dy == -p.1)
}

/// Offset `(dx, dy)` lies on row `±p.1` between columns `-p.0` and `p.0`.
pub open spec fn quad_span(p: (int, int), dx: int, dy: int) -> bool {
    (dy == p.1 || dy == -p.1) && -p.0 <= dx <= p.0
}

/// Offset `(dx, dy)` is drawn for arc point `p`: its four reflections for an
/// outline, its two mirrored spans for a fill.
pub open spec fn arc_hit(p: (int, int), fill: bool, dx: int, dy: int) -> bool {
    if fill {
        quad_span(p, dx, dy)
    } else {
        quad_hit(p, dx, dy)
    }
}

/// Offset `(dx, dy)` is drawn for some point of `pts`.
pub open spec fn covers_arc(pts: Seq<(int, int)>, fill: bool, dx: int, dy: int) -> bool {
    exists|i: int| 0 <= i < pts.len() && #[trigger] arc_hit(pts[i], fill, dx, dy)
}

/// The pixels drawn for the arc points `pts` about centre `(xc, yc)`.
pub open spec fn arc_region(pts: Seq<(int, int)>, xc: int, yc: int, fill: bool) -> spec_fn(
    int,
    int,
) -> bool {
    |p: int, q: int| covers_arc(pts, fill, p - xc, q - yc)
}

proof fn lemma_covers_arc_push(pts: Seq<(int, int)>, n: (int, int), fill: bool, dx: int, dy: int)
    ensures
        covers_arc(pts.push(n), fill, dx, dy) == (covers_arc(pts, fill, dx, dy) || arc_hit(
            n,
            fill,
            dx,
            dy,
        )),
{
    if covers_arc(pts, fill, dx, dy) {
        let i = choose|i: int| 0 <= i < pts.len() && #[trigger] arc_hit(pts[i], fill, dx, dy);
        assert(pts.push(n)[i] == pts[i]);
    }
    if arc_hit(n, fill, dx, dy) {
        assert(pts.push(n)[pts.len() as int] == n);
    }
    if covers_arc(pts.push(n), fill, dx, dy) {
        let i = choose|i: int|
            0 <= i < pts.push(n).len() && #[trigger] arc_hit(pts.push(n)[i], fill, dx, dy);
        if i < pts.len() {
            assert(pts.push(n)[i] == pts[i]);
        }
    }
}

impl Raster {
    /// Draws the arc point `(wx, wy)` about `(xc, yc)`: its four reflections,
    /// or the two spans between them when filling.
    fn draw_arc_point(&mut self, xc: i32, yc: i32, wx: i32, wy: i32, fill: bool)
        requires
            old(self).wf(),
            0 <= wx,
            old(self).plottable(xc - wx, yc - wy),
            old(self).plottable(xc + wx, yc + wy),
            old(self).plottable(xc - wx, yc + wy),
            old(self).plottable(xc + wx, yc - wy),
        ensures
            final(self).painted(
                *old(self),
                |p: int, q: int| arc_hit((wx as int, wy as int), fill, p - xc, q - yc),
            ),
    {
        let ghost r0 = *self;
        let ghost target = |p: int, q: int| arc_hit((wx as int, wy as int), fill, p - xc, q - yc);
        if fill {
            self.hline(xc + wx, xc - wx, yc - wy);
            let ghost r1 = *self;
            self.hline(xc + wx, xc - wx, yc + wy);
            proof {
                let s1 = span_region(min_int(xc + wx, xc - wx), max_int(xc + wx, xc - wx), yc - wy);
                let s2 = span_region(min_int(xc + wx, xc - wx), max_int(xc + wx, xc - wx), yc + wy);
                lemma_painted_then(r0, r1, *self, s1, s2, target);
            }
        } else {
            self.plot_mirrored(xc, yc, wx, wy);
            proof {
                lemma_painted_same_region(r0, *self, mirror4(xc as int, yc as int, wx as int, wy as int), target);
            }
        }
    }

    /// Walks the flat arc of the ellipse with semi-axes `xr`, `yr` about
    /// `(xc, yc)`, drawing each of its points.
    fn walk_upper_arc(&mut self, xc: i32, yc: i32, xr: i32, yr: i32, fill: bool)
        requires
            old(self).wf(),
            0 <= xr,
            0 <= yr,
            old(self).plottable(xc - xr, yc - yr),
            old(self).plottable(xc + xr, yc + yr),
        ensures
            final(self).painted(*old(self), arc_region(upper_arc(xr as int, yr as int), xc as int, yc as int, fill)),
    {
        let ghost r0 = *self;
        let ghost a = xr as int;
        let ghost b = yr as int;
        proof {
            assert(a <= max_semi_axis() && b <= max_semi_axis());
            lemma_upper_test_bound(a, b, 0, b);
            lemma_mul_nonneg_le(a * a, b, 0x1000_0000_0000_0000, 0x4000_0000);
            assert((a * a * 2) * b == 2 * ((a * a) * b)) by (nonlinear_arith);
        }
        let asq: i128 = (xr as i128) * (xr as i128);
        let bsq: i128 = (yr as i128) * (yr as i128);
        let mut wx: i128 = 0;
        let mut wy: i128 = yr as i128;
        let mut xa: i128 = 0;
        let mut ya: i128 = asq * 2 * (yr as i128);
        let mut thresh: i128 = asq / 4 - asq * (yr as i128);
        let ghost mut done: Seq<(int, int)> = Seq::empty();
        proof {
            assert(xa == 2 * (bsq * wx)) by (nonlinear_arith)
                requires
                    wx == 0,
                    xa == 0,
            ;
            assert(thresh == upper_test(a, b, wx as int, wy as int)) by (nonlinear_arith)
                requires
                    wx == 0,
                    wy == b,
                    asq == a * a,
                    bsq == b * b,
                    thresh == asq / 4 - asq * b,
            ;
            assert(done + upper_arc_from(a, b, wx as int, wy as int) =~= upper_arc(a, b));
            if a >= 1 && b >= 1 {
                lemma_upper_start(a, b);
            }
            lemma_painted_same_region(r0, r0, |p: int, q: int| false, arc_region(done, xc as int, yc as int, fill));
        }
        loop
            invariant_except_break
                r0.wf(),
                r0.plottable(xc - xr, yc - yr),
                r0.plottable(xc + xr, yc + yr),
                a == xr as int,
                b == yr as int,
                0 <= a <= max_semi_axis(),
                0 <= b <= max_semi_axis(),
                asq == a * a,
                bsq == b * b,
                xa == 2 * (bsq * wx),
                ya == 2 * (asq * wy),
                thresh == upper_test(a, b, wx as int, wy as int),
                0 <= wx <= a,
                0 <= wy <= b,
                a >= 1 && b >= 1 ==> upper_inside(a, b, (wx as int, wy as int)),
                !(a >= 1 && b >= 1) ==> wx == 0 && wy == b,
                upper_arc(a, b) == done + upper_arc_from(a, b, wx as int, wy as int),
                self.painted(r0, arc_region(done, xc as int, yc as int, fill)),
            ensures
                self.painted(r0, arc_region(upper_arc(a, b), xc as int, yc as int, fill)),
            decreases ya - xa,
        {
            let ghost px = wx as int;
            let ghost py = wy as int;
            let ghost n = upper_next(a, b, px, py);
            proof {
                lemma_upper_test_bound(a, b, px, py);
                lemma_upper_test_bound(a, b, px + 1, py);
                lemma_upper_test_bound(a, b, px + 1, py - 1);
                lemma_mul_nonneg_le(bsq as int, px, 0x1000_0000_0000_0000, 0x4000_0000);
                lemma_mul_nonneg_le(asq as int, py, 0x1000_0000_0000_0000, 0x4000_0000);
                assert(upper_test(a, b, px + 1, py) == upper_test(a, b, px, py) + 2 * (bsq * px) + bsq) by (nonlinear_arith)
                    requires
                        bsq == b * b,
                ;
                assert(upper_test(a, b, px + 1, py - 1) == upper_test(a, b, px + 1, py) - 2 * (asq * (py - 1))) by (nonlinear_arith)
                    requires
                        asq == a * a,
                ;
                assert(2 * (asq * (py - 1)) == 2 * (asq * py) - asq * 2) by (nonlinear_arith);
                assert(2 * (bsq * (px + 1)) == 2 * (bsq * px) + bsq * 2) by (nonlinear_arith);
            }
            thresh = thresh + (xa + bsq);
            if thresh >= 0 {
                ya = ya - asq * 2;
                thresh = thresh - ya;
                wy = wy - 1;
            }
            xa = xa + bsq * 2;
            wx = wx + 1;
            assert(n == (wx as int, wy as int));
            if xa >= ya {
                proof {
                    assert(upper_arc_from(a, b, px, py) =~= Seq::<(int, int)>::empty());
                    assert(done =~= upper_arc(a, b));
                }
                break;
            }
            proof {
                lemma_upper_decreases(a, b, px, py);
                if a >= 1 && b >= 1 {
                    lemma_upper_step(a, b, px, py);
                } else {
                    lemma_upper_degenerate(a, b);
                }
                assert(upper_arc_from(a, b, px, py) == seq![n] + upper_arc_from(a, b, n.0, n.1));
                assert(done + upper_arc_from(a, b, px, py) =~= done.push(n) + upper_arc_from(a, b, n.0, n.1));
            }
            let ghost before = *self;
            self.draw_arc_point(xc, yc, wx as i32, wy as i32, fill);
            proof {
                let f = arc_region(done, xc as int, yc as int, fill);
                let g = |p: int, q: int| arc_hit((wx as int, wy as int), fill, p - xc, q - yc);
                let h = arc_region(done.push(n), xc as int, yc as int, fill);
                assert forall|p: int, q: int| #[trigger] h(p, q) == (f(p, q) || g(p, q)) by {
                    lemma_covers_arc_push(done, n, fill, p - xc, q - yc);
                }
                lemma_painted_then(r0, before, *self, f, g, h);
                done = done.push(n);
            }
        }
    }
}

impl Raster {
    /// Walks the steep arc of the ellipse with semi-axes `xr`, `yr` about
    /// `(xc, yc)`, drawing each of its points.
    fn walk_side_arc(&mut self, xc: i32, yc: i32, xr: i32, yr: i32, fill: bool)
        requires
            old(self).wf(),
            0 <= xr,
            0 <= yr,
            old(self).plottable(xc - xr, yc - yr),
            old(self).plottable(xc + xr, yc + yr),
        ensures
            final(self).painted(*old(self), arc_region(side_arc(xr as int, yr as int), xc as int, yc as int, fill)),
    {
        let ghost r0 = *self;
        let ghost a = xr as int;
        let ghost b = yr as int;
        proof {
            assert(a <= max_semi_axis() && b <= max_semi_axis());
            lemma_side_test_bound(a, b, a, 0);
            lemma_mul_nonneg_le(b * b, a, 0x1000_0000_0000_0000, 0x4000_0000);
            assert((b * b * 2) * a == 2 * ((b * b) * a)) by (nonlinear_arith);
        }
        let asq: i128 = (xr as i128) * (xr as i128);
        let bsq: i128 = (yr as i128) * (yr as i128);
        let mut wx: i128 = xr as i128;
        let mut wy: i128 = 0;
        let mut xa: i128 = bsq * 2 * (xr as i128);
        let mut ya: i128 = 0;
        let mut thresh: i128 = bsq / 4 - bsq * (xr as i128);
        let ghost mut done: Seq<(int, int)> = Seq::empty();
        proof {
            assert(ya == 2 * (asq * wy)) by (nonlinear_arith)
                requires
                    wy == 0,
                    ya == 0,
            ;
            assert(thresh == side_test(a, b, wx as int, wy as int)) by (nonlinear_arith)
                requires
                    wx == a,
                    wy == 0,
                    asq == a * a,
                    bsq == b * b,
                    thresh == bsq / 4 - bsq * a,
            ;
            assert(done + side_arc_from(a, b, wx as int, wy as int) =~= side_arc(a, b));
            if a >= 1 && b >= 1 {
                lemma_side_start(a, b);
            }
            lemma_painted_same_region(r0, r0, |p: int, q: int| false, arc_region(done, xc as int, yc as int, fill));
        }
        loop
            invariant_except_break
                r0.wf(),
                r0.plottable(xc - xr, yc - yr),
                r0.plottable(xc + xr, yc + yr),
                a == xr as int,
                b == yr as int,
                0 <= a <= max_semi_axis(),
                0 <= b <= max_semi_axis(),
                asq == a * a,
                bsq == b * b,
                xa == 2 * (bsq * wx),
                ya == 2 * (asq * wy),
                thresh == side_test(a, b, wx as int, wy as int),
                0 <= wx <= a,
                0 <= wy <= b,
                a >= 1 && b >= 1 ==> side_inside(a, b, (wx as int, wy as int)),
                !(a >= 1 && b >= 1) ==> wx == a && wy == 0,
                side_arc(a, b) == done + side_arc_from(a, b, wx as int, wy as int),
                self.painted(r0, arc_region(done, xc as int, yc as int, fill)),
            ensures
                self.painted(r0, arc_region(side_arc(a, b), xc as int, yc as int, fill)),
            decreases xa - ya,
        {
            let ghost px = wx as int;
            let ghost py = wy as int;
            let ghost n = side_next(a, b, px, py);
            proof {
                lemma_side_test_bound(a, b, px, py);
                lemma_side_test_bound(a, b, px, py + 1);
                lemma_side_test_bound(a, b, px - 1, py + 1);
                lemma_mul_nonneg_le(bsq as int, px, 0x1000_0000_0000_0000, 0x4000_0000);
                lemma_mul_nonneg_le(asq as int, py, 0x1000_0000_0000_0000, 0x4000_0000);
                assert(side_test(a, b, px, py + 1) == side_test(a, b, px, py) + 2 * (asq * py) + asq) by (nonlinear_arith)
                    requires
                        asq == a * a,
                ;
                assert(side_test(a, b, px - 1, py + 1) == side_test(a, b, px, py + 1) - 2 * (bsq * (px - 1))) by (nonlinear_arith)
                    requires
                        bsq == b * b,
                ;
                assert(2 * (bsq * (px - 1)) == 2 * (bsq * px) - bsq * 2) by (nonlinear_arith);
                assert(2 * (asq * (py + 1)) == 2 * (asq * py) + asq * 2) by (nonlinear_arith);
            }
            thresh = thresh + (ya + asq);
            if thresh >= 0 {
                xa = xa - bsq * 2;
                thresh = thresh - xa;
                wx = wx - 1;
            }
            ya = ya + asq * 2;
            wy = wy + 1;
            assert(n == (wx as int, wy as int));
            if ya > xa || (ya == 0 && xa == 0) {
                proof {
                    assert(side_arc_from(a, b, px, py) =~= Seq::<(int, int)>::empty());
                    assert(done =~= side_arc(a, b));
                }
                break;
            }
            proof {
                lemma_side_decreases(a, b, px, py);
                if a >= 1 && b >= 1 {
                    lemma_side_step(a, b, px, py);
                } else {
                    lemma_side_degenerate(a, b);
                }
                assert(side_arc_from(a, b, px, py) == seq![n] + side_arc_from(a, b, n.0, n.1));
                assert(done + side_arc_from(a, b, px, py) =~= done.push(n) + side_arc_from(a, b, n.0, n.1));
            }
            let ghost before = *self;
            self.draw_arc_point(xc, yc, wx as i32, wy as i32, fill);
            proof {
                let f = arc_region(done, xc as int, yc as int, fill);
                let g = |p: int, q: int| arc_hit((wx as int, wy as int), fill, p - xc, q - yc);
                let h = arc_region(done.push(n), xc as int, yc as int, fill);
                assert forall|p: int, q: int| #[trigger] h(p, q) == (f(p, q) || g(p, q)) by {
                    lemma_covers_arc_push(done, n, fill, p - xc, q - yc);
                }
                lemma_painted_then(r0, before, *self, f, g, h);
                done = done.push(n);
            }
        }
    }
}

// ---------------------------------------------------------------------------
// The public shapes
// ---------------------------------------------------------------------------

/// Half the extent of the interval between `v0` and `v1`, rounded down.
pub open spec fn semi_axis(v0: int, v1: int) -> int {
    (max_int(v0, v1) - min_int(v0, v1)) / 2
}

/// The centre of the interval between `v0` and `v1`, rounded toward `min`.
pub open spec fn box_centre(v0: int, v1: int) -> int {
    min_int(v0, v1) + semi_axis(v0, v1)
}

/// Offset `(dx, dy)` from the centre is on the outline of the ellipse with
/// semi-axes `a`, `b`: one of its four axis ends, or a reflection of a point
/// of either arc.
pub open spec fn oval_outline_hit(a: int, b: int, dx: int, dy: int) -> bool {
    ||| dx == 0 && (dy == b || dy == -b)
    ||| (dx == a || dx == -a) && dy == 0
    ||| covers_arc(upper_arc(a, b), false, dx, dy)
    ||| covers_arc(side_arc(a, b), false, dx, dy)
}

/// Offset `(dx, dy)` from the centre is in the filled ellipse with semi-axes
/// `a`, `b`: on its vertical or horizontal axis, or on a span of either arc.
pub open spec fn oval_fill_hit(a: int, b: int, dx: int, dy: int) -> bool {
    ||| dx == 0 && -b <= dy <= b
    ||| dy == 0 && -a <= dx <= a
    ||| covers_arc(upper_arc(a, b), true, dx, dy)
    ||| covers_arc(side_arc(a, b), true, dx, dy)
}

/// The pixels of the outline of the ellipse inscribed in the rectangle with
/// corners `(x0, y0)` and `(x1, y1)`.
pub open spec fn oval_region(x0: int, y0: int, x1: int, y1: int) -> spec_fn(int, int) -> bool {
    |p: int, q: int|
        oval_outline_hit(
            semi_axis(x0, x1),
            semi_axis(y0, y1),
            p - box_centre(x0, x1),
            q - box_centre(y0, y1),
        )
}

/// The pixels of the filled ellipse inscribed in the rectangle with corners
/// `(x0, y0)` and `(x1, y1)`.
pub open spec fn ovalfill_region(x0: int, y0: int, x1: int, y1: int) -> spec_fn(int, int) -> bool {
    |p: int, q: int|
        oval_fill_hit(
            semi_axis(x0, x1),
            semi_axis(y0, y1),
            p - box_centre(x0, x1),
            q - box_centre(y0, y1),
        )
}

impl Raster {
    /// Midpoint ellipse outline inscribed in the rectangle with corners
    /// `(x0, y0)` and `(x1, y1)`, given in any order.
    pub fn oval(&mut self, x0: i32, y0: i32, x1: i32, y1: i32)
        requires
            old(self).wf(),
            old(self).plottable(min_int(x0 as int, x1 as int), min_int(y0 as int, y1 as int)),
            old(self).plottable(
                min_int(x0 as int, x1 as int) + 2 * semi_axis(x0 as int, x1 as int),
                min_int(y0 as int, y1 as int) + 2 * semi_axis(y0 as int, y1 as int),
            ),
        ensures
            final(self).painted(*old(self), oval_region(x0 as int, y0 as int, x1 as int, y1 as int)),
    {
        let ghost r0 = *self;
        let ghost target = oval_region(x0 as int, y0 as int, x1 as int, y1 as int);
        let ghost gx0 = x0 as int;
        let ghost gy0 = y0 as int;
        let ghost gx1 = x1 as int;
        let ghost gy1 = y1 as int;
        let mut x0 = x0;
        let mut y0 = y0;
        let mut x1 = x1;
        let mut y1 = y1;
        sort_rect(&mut x0, &mut y0, &mut x1, &mut y1);
        let xr = (x1 - x0) / 2;
        let yr = (y1 - y0) / 2;
        let xc = x0 + xr;
        let yc = y0 + yr;
        let ghost a = xr as int;
        let ghost b = yr as int;
        self.plot(xc, yc + yr);
        let ghost r1 = *self;
        self.plot(xc, yc - yr);
        let ghost r2 = *self;
        let ghost f1 = |p: int, q: int| p == xc && q == yc + yr;
        let ghost f2 = |p: int, q: int| p == xc && q == yc - yr;
        let ghost g2 = |p: int, q: int| p == xc && (q == yc + yr || q == yc - yr);
        proof {
            lemma_painted_then(r0, r1, r2, f1, f2, g2);
        }
        self.walk_upper_arc(xc, yc, xr, yr, false);
        let ghost r3 = *self;
        let ghost f3 = arc_region(upper_arc(a, b), xc as int, yc as int, false);
        let ghost g3 = |p: int, q: int| g2(p, q) || f3(p, q);
        proof {
            lemma_painted_then(r0, r2, r3, g2, f3, g3);
        }
        self.plot(xc + xr, yc);
        let ghost r4 = *self;
        let ghost f4 = |p: int, q: int| p == xc + xr && q == yc;
        let ghost g4 = |p: int, q: int| g3(p, q) || f4(p, q);
        proof {
            lemma_painted_then(r0, r3, r4, g3, f4, g4);
        }
        self.plot(xc - xr, yc);
        let ghost r5 = *self;
        let ghost f5 = |p: int, q: int| p == xc - xr && q == yc;
        let ghost g5 = |p: int, q: int| g4(p, q) || f5(p, q);
        proof {
            lemma_painted_then(r0, r4, r5, g4, f5, g5);
        }
        self.walk_side_arc(xc, yc, xr, yr, false);
        proof {
            let f6 = arc_region(side_arc(a, b), xc as int, yc as int, false);
            assert forall|p: int, q: int| #[trigger] target(p, q) == (g5(p, q) || f6(p, q)) by {
                assert(semi_axis(gx0, gx1) == a);
                assert(semi_axis(gy0, gy1) == b);
                assert(box_centre(gx0, gx1) == xc);
                assert(box_centre(gy0, gy1) == yc);
            }
            lemma_painted_then(r0, r5, *self, g5, f6, target);
        }
    }
}

impl Raster {
    /// Filled ellipse inscribed in the rectangle with corners `(x0, y0)` and
    /// `(x1, y1)`, given in any order.
    pub fn ovalfill(&mut self, x0: i32, y0: i32, x1: i32, y1: i32)
        requires
            old(self).wf(),
            old(self).plottable(min_int(x0 as int, x1 as int), min_int(y0 as int, y1 as int)),
            old(self).plottable(
                min_int(x0 as int, x1 as int) + 2 * semi_axis(x0 as int, x1 as int),
                min_int(y0 as int, y1 as int) + 2 * semi_axis(y0 as int, y1 as int),
            ),
        ensures
            final(self).painted(*old(self), ovalfill_region(x0 as int, y0 as int, x1 as int, y1 as int)),
    {
        let ghost r0 = *self;
        let ghost target = ovalfill_region(x0 as int, y0 as int, x1 as int, y1 as int);
        let ghost gx0 = x0 as int;
        let ghost gy0 = y0 as int;
        let ghost gx1 = x1 as int;
        let ghost gy1 = y1 as int;
        let mut x0 = x0;
        let mut y0 = y0;
        let mut x1 = x1;
        let mut y1 = y1;
        sort_rect(&mut x0, &mut y0, &mut x1, &mut y1);
        let xr = (x1 - x0) / 2;
        let yr = (y1 - y0) / 2;
        let xc = x0 + xr;
        let yc = y0 + yr;
        let ghost a = xr as int;
        let ghost b = yr as int;
        self.vline(yc + yr, yc - yr, xc);
        let ghost r1 = *self;
        let ghost f1 = column_region(min_int(yc + yr, yc - yr), max_int(yc + yr, yc - yr), xc as int);
        self.walk_upper_arc(xc, yc, xr, yr, true);
        let ghost r2 = *self;
        let ghost f2 = arc_region(upper_arc(a, b), xc as int, yc as int, true);
        let ghost g2 = |p: int, q: int| f1(p, q) || f2(p, q);
        proof {
            lemma_painted_then(r0, r1, r2, f1, f2, g2);
        }
        self.hline(xc + xr, xc - xr, yc);
        let ghost r3 = *self;
        let ghost f3 = span_region(min_int(xc + xr, xc - xr), max_int(xc + xr, xc - xr), yc as int);
        let ghost g3 = |p: int, q: int| g2(p, q) || f3(p, q);
        proof {
            lemma_painted_then(r0, r2, r3, g2, f3, g3);
        }
        self.walk_side_arc(xc, yc, xr, yr, true);
        proof {
            let f4 = arc_region(side_arc(a, b), xc as int, yc as int, true);
            assert forall|p: int, q: int| #[trigger] target(p, q) == (g3(p, q) || f4(p, q)) by {
                assert(semi_axis(gx0, gx1) == a);
                assert(semi_axis(gy0, gy1) == b);
                assert(box_centre(gx0, gx1) == xc);
                assert(box_centre(gy0, gy1) == yc);
            }
            lemma_painted_then(r0, r3, *self, g3, f4, target);
        }
    }
}

// ---------------------------------------------------------------------------
// Laws of the ellipse shapes
// ---------------------------------------------------------------------------

proof fn lemma_upper_arc_from_inside(a: int, b: int, x: int, y: int)
    requires
        a >= 1,
        b >= 1,
        upper_inside(a, b, (x, y)),
    ensures
        forall|i: int|
            0 <= i < upper_arc_from(a, b, x, y).len() ==> 1 <= #[trigger] upper_arc_from(a, b, x, y)[i].0
                < a && 1 <= upper_arc_from(a, b, x, y)[i].1 <= b && upper_inside(
                a,
                b,
                upper_arc_from(a, b, x, y)[i],
            ),
    decreases (a * a) * y - (b * b) * x,
{
    let n = upper_next(a, b, x, y);
    if upper_goes_on(a, b, n) {
        lemma_upper_decreases(a, b, x, y);
        lemma_upper_step(a, b, x, y);
        lemma_upper_arc_from_inside(a, b, n.0, n.1);
        let s = upper_arc_from(a, b, x, y);
        let rest = upper_arc_from(a, b, n.0, n.1);
        assert(s == seq![n] + rest);
        assert forall|i: int| 0 <= i < s.len() implies 1 <= #[trigger] s[i].0 < a && 1 <= s[i].1
            <= b && upper_inside(a, b, s[i]) by {
            if i > 0 {
                assert(s[i] == rest[i - 1]);
            }
        }
    }
}

proof fn lemma_side_arc_from_inside(a: int, b: int, x: int, y: int)
    requires
        a >= 1,
        b >= 1,
        side_inside(a, b, (x, y)),
    ensures
        forall|i: int|
            0 <= i < side_arc_from(a, b, x, y).len() ==> 1 <= #[trigger] side_arc_from(a, b, x, y)[i].0
                <= a && 1 <= side_arc_from(a, b, x, y)[i].1 < b && side_inside(
                a,
                b,
                side_arc_from(a, b, x, y)[i],
            ),
    decreases (b * b) * x - (a * a) * y,
{
    let n = side_next(a, b, x, y);
    if side_goes_on(a, b, n) {
        lemma_side_decreases(a, b, x, y);
        lemma_side_step(a, b, x, y);
        lemma_side_arc_from_inside(a, b, n.0, n.1);
        let s = side_arc_from(a, b, x, y);
        let rest = side_arc_from(a, b, n.0, n.1);
        assert(s == seq![n] + rest);
        assert forall|i: int| 0 <= i < s.len() implies 1 <= #[trigger] s[i].0 <= a && 1 <= s[i].1
            < b && side_inside(a, b, s[i]) by {
            if i > 0 {
                assert(s[i] == rest[i - 1]);
            }
        }
    }
}

/// Every point of either arc of an ellipse with non-negative semi-axes lies
/// in the quadrant rectangle `[0, a] x [0, b]`.
proof fn lemma_arcs_in_quadrant(a: int, b: int)
    requires
        0 <= a,
        0 <= b,
    ensures
        forall|i: int|
            0 <= i < upper_arc(a, b).len() ==> 0 <= #[trigger] upper_arc(a, b)[i].0 <= a && 0
                <= upper_arc(a, b)[i].1 <= b,
        forall|i: int|
            0 <= i < side_arc(a, b).len() ==> 0 <= #[trigger] side_arc(a, b)[i].0 <= a && 0
                <= side_arc(a, b)[i].1 <= b,
{
    if a >= 1 && b >= 1 {
        lemma_upper_start(a, b);
        lemma_side_start(a, b);
        lemma_upper_arc_from_inside(a, b, 0, b);
        lemma_side_arc_from_inside(a, b, a, 0);
    } else {
        lemma_upper_degenerate(a, b);
        lemma_side_degenerate(a, b);
        assert(upper_arc(a, b) =~= Seq::<(int, int)>::empty());
        assert(side_arc(a, b) =~= Seq::<(int, int)>::empty());
    }
}

proof fn lemma_covers_arc_mirror(pts: Seq<(int, int)>, fill: bool, dx: int, dy: int)
    ensures
        covers_arc(pts, fill, dx, dy) == covers_arc(pts, fill, -dx, dy),
        covers_arc(pts, fill, dx, dy) == covers_arc(pts, fill, dx, -dy),
{
    if covers_arc(pts, fill, dx, dy) {
        let i = choose|i: int| 0 <= i < pts.len() && #[trigger] arc_hit(pts[i], fill, dx, dy);
        assert(arc_hit(pts[i], fill, -dx, dy));
        assert(arc_hit(pts[i], fill, dx, -dy));
    }
    if covers_arc(pts, fill, -dx, dy) {
        let i = choose|i: int| 0 <= i < pts.len() && #[trigger] arc_hit(pts[i], fill, -dx, dy);
        assert(arc_hit(pts[i], fill, dx, dy));
    }
    if covers_arc(pts, fill, dx, -dy) {
        let i = choose|i: int| 0 <= i < pts.len() && #[trigger] arc_hit(pts[i], fill, dx, -dy);
        assert(arc_hit(pts[i], fill, dx, dy));
    }
}

/// Both the outline and the filled ellipse are symmetric about the vertical
/// and horizontal lines through the rectangle's centre pixel.
pub proof fn law_oval_symmetric(x0: int, y0: int, x1: int, y1: int, p: int, q: int)
    ensures
        oval_region(x0, y0, x1, y1)(p, q) == oval_region(x0, y0, x1, y1)(
            2 * box_centre(x0, x1) - p,
            q,
        ),
        oval_region(x0, y0, x1, y1)(p, q) == oval_region(x0, y0, x1, y1)(
            p,
            2 * box_centre(y0, y1) - q,
        ),
        ovalfill_region(x0, y0, x1, y1)(p, q) == ovalfill_region(x0, y0, x1, y1)(
            2 * box_centre(x0, x1) - p,
            q,
        ),
        ovalfill_region(x0, y0, x1, y1)(p, q) == ovalfill_region(x0, y0, x1, y1)(
            p,
            2 * box_centre(y0, y1) - q,
        ),
{
    let a = semi_axis(x0, x1);
    let b = semi_axis(y0, y1);
    let dx = p - box_centre(x0, x1);
    let dy = q - box_centre(y0, y1);
    lemma_covers_arc_mirror(upper_arc(a, b), false, dx, dy);
    lemma_covers_arc_mirror(side_arc(a, b), false, dx, dy);
    lemma_covers_arc_mirror(upper_arc(a, b), true, dx, dy);
    lemma_covers_arc_mirror(side_arc(a, b), true, dx, dy);
    assert((2 * box_centre(x0, x1) - p) - box_centre(x0, x1) == -dx);
    assert((2 * box_centre(y0, y1) - q) - box_centre(y0, y1) == -dy);
}

/// Every pixel of the filled ellipse, and so of its outline, lies inside the
/// rectangle it is inscribed in.
pub proof fn law_ovalfill_within_rect(x0: int, y0: int, x1: int, y1: int, p: int, q: int)
    requires
        ovalfill_region(x0, y0, x1, y1)(p, q),
    ensures
        min_int(x0, x1) <= p <= max_int(x0, x1),
        min_int(y0, y1) <= q <= max_int(y0, y1),
{
    let a = semi_axis(x0, x1);
    let b = semi_axis(y0, y1);
    let dx = p - box_centre(x0, x1);
    let dy = q - box_centre(y0, y1);
    lemma_arcs_in_quadrant(a, b);
    if covers_arc(upper_arc(a, b), true, dx, dy) {
        let pts = upper_arc(a, b);
        let i = choose|i: int| 0 <= i < pts.len() && #[trigger] arc_hit(pts[i], true, dx, dy);
        assert(0 <= pts[i].0 <= a && 0 <= pts[i].1 <= b);
    }
    if covers_arc(side_arc(a, b), true, dx, dy) {
        let pts = side_arc(a, b);
        let i = choose|i: int| 0 <= i < pts.len() && #[trigger] arc_hit(pts[i], true, dx, dy);
        assert(0 <= pts[i].0 <= a && 0 <= pts[i].1 <= b);
    }
    assert(-a <= dx <= a && -b <= dy <= b);
}

/// The outline lies within the filled ellipse of the same rectangle.
pub proof fn law_oval_within_ovalfill(x0: int, y0: int, x1: int, y1: int, p: int, q: int)
    requires
        oval_region(x0, y0, x1, y1)(p, q),
    ensures
        ovalfill_region(x0, y0, x1, y1)(p, q),
{
    let a = semi_axis(x0, x1);
    let b = semi_axis(y0, y1);
    let dx = p - box_centre(x0, x1);
    let dy = q - box_centre(y0, y1);
    lemma_arcs_in_quadrant(a, b);
    assert(a >= 0 && b >= 0);
    if covers_arc(upper_arc(a, b), false, dx, dy) {
        let pts = upper_arc(a, b);
        let i = choose|i: int| 0 <= i < pts.len() && #[trigger] arc_hit(pts[i], false, dx, dy);
        assert(0 <= pts[i].0);
        assert(arc_hit(pts[i], true, dx, dy));
    }
    if covers_arc(side_arc(a, b), false, dx, dy) {
        let pts = side_arc(a, b);
        let i = choose|i: int| 0 <= i < pts.len() && #[trigger] arc_hit(pts[i], false, dx, dy);
        assert(0 <= pts[i].0);
        assert(arc_hit(pts[i], true, dx, dy));
    }
}

/// The filled ellipse has no holes along a row: with a pixel it holds every
/// pixel of the same row between it and the centre column.
pub proof fn law_ovalfill_rows_solid(x0: int, y0: int, x1: int, y1: int, p: int, q: int, c: int)
    requires
        ovalfill_region(x0, y0, x1, y1)(p, q),
        box_centre(x0, x1) <= c <= p || p <= c <= box_centre(x0, x1),
    ensures
        ovalfill_region(x0, y0, x1, y1)(c, q),
{
    let a = semi_axis(x0, x1);
    let b = semi_axis(y0, y1);
    let dx = p - box_centre(x0, x1);
    let dy = q - box_centre(y0, y1);
    let dc = c - box_centre(x0, x1);
    lemma_arcs_in_quadrant(a, b);
    if covers_arc(upper_arc(a, b), true, dx, dy) {
        let pts = upper_arc(a, b);
        let i = choose|i: int| 0 <= i < pts.len() && #[trigger] arc_hit(pts[i], true, dx, dy);
        assert(arc_hit(pts[i], true, dc, dy));
    }
    if covers_arc(side_arc(a, b), true, dx, dy) {
        let pts = side_arc(a, b);
        let i = choose|i: int| 0 <= i < pts.len() && #[trigger] arc_hit(pts[i], true, dx, dy);
        assert(arc_hit(pts[i], true, dc, dy));
    }
    if dy == 0 && -a <= dx <= a {
        assert(-a <= dc <= a);
    }
}

/// Every point of the flat arc has the midpoint half a row nearer the
/// centre strictly inside the ellipse, and lies within the quadrant.
pub proof fn law_upper_arc_inside(a: int, b: int, i: int)
    requires
        a >= 1,
        b >= 1,
        0 <= i < upper_arc(a, b).len(),
    ensures
        upper_test(a, b, upper_arc(a, b)[i].0, upper_arc(a, b)[i].1) < 0,
        1 <= upper_arc(a, b)[i].0 < a,
        1 <= upper_arc(a, b)[i].1 <= b,
{
    lemma_upper_start(a, b);
    lemma_upper_arc_from_inside(a, b, 0, b);
}

/// Every point of the steep arc has the midpoint half a column nearer the
/// centre strictly inside the ellipse, and lies within the quadrant.
pub proof fn law_side_arc_inside(a: int, b: int, i: int)
    requires
        a >= 1,
        b >= 1,
        0 <= i < side_arc(a, b).len(),
    ensures
        side_test(a, b, side_arc(a, b)[i].0, side_arc(a, b)[i].1) < 0,
        1 <= side_arc(a, b)[i].0 <= a,
        1 <= side_arc(a, b)[i].1 < b,
{
    lemma_side_start(a, b);
    lemma_side_arc_from_inside(a, b, a, 0);
}

/// The order of the corners does not matter: the outline and the filled
/// ellipse of a rectangle are those of its corners sorted, and drawing
/// either asks the same pixels to be in bounds.
pub proof fn law_oval_corner_order(x0: int, y0: int, x1: int, y1: int)
    ensures
        oval_region(x0, y0, x1, y1) == oval_region(min_int(x0, x1), min_int(y0, y1), max_int(x0, x1), max_int(y0, y1)),
        ovalfill_region(x0, y0, x1, y1) == ovalfill_region(min_int(x0, x1), min_int(y0, y1), max_int(x0, x1), max_int(y0, y1)),
        semi_axis(x0, x1) == semi_axis(min_int(x0, x1), max_int(x0, x1)),
        semi_axis(y0, y1) == semi_axis(min_int(y0, y1), max_int(y0, y1)),
{
    let (sx0, sy0, sx1, sy1) = (min_int(x0, x1), min_int(y0, y1), max_int(x0, x1), max_int(y0, y1));
    assert(semi_axis(x0, x1) == semi_axis(sx0, sx1) && box_centre(x0, x1) == box_centre(sx0, sx1));
    assert(semi_axis(y0, y1) == semi_axis(sy0, sy1) && box_centre(y0, y1) == box_centre(sy0, sy1));
    assert(oval_region(x0, y0, x1, y1) =~= oval_region(sx0, sy0, sx1, sy1));
    assert(ovalfill_region(x0, y0, x1, y1) =~= ovalfill_region(sx0, sy0, sx1, sy1));
}

proof fn lemma_upper_arc_from_shape(a: int, b: int, x: int, y: int)
    ensures
        ({
            let pts = upper_arc_from(a, b, x, y);
            let last = if pts.len() == 0 { (x, y) } else { pts[pts.len() - 1] };
            (b * b) * upper_next(a, b, last.0, last.1).0 >= (a * a) * upper_next(a, b, last.0, last.1).1
        }),
        forall|i: int|
            0 <= i < upper_arc_from(a, b, x, y).len() ==> {
                let p = #[trigger] upper_arc_from(a, b, x, y)[i];
                let prev = if i == 0 { (x, y) } else { upper_arc_from(a, b, x, y)[i - 1] };
                &&& p.0 == x + i + 1
                &&& (p.1 == prev.1 || p.1 == prev.1 - 1)
                &&& (b * b) * p.0 < (a * a) * p.1
            },
    decreases (a * a) * y - (b * b) * x,
{
    let n = upper_next(a, b, x, y);
    if upper_goes_on(a, b, n) {
        lemma_upper_decreases(a, b, x, y);
        lemma_upper_arc_from_shape(a, b, n.0, n.1);
        let pts = upper_arc_from(a, b, x, y);
        let rest = upper_arc_from(a, b, n.0, n.1);
        assert(pts == seq![n] + rest);
        if rest.len() > 0 {
            assert(pts[pts.len() - 1] == rest[rest.len() - 1]);
        }
        assert forall|i: int| 0 <= i < pts.len() implies {
            let p = #[trigger] pts[i];
            let prev = if i == 0 { (x, y) } else { pts[i - 1] };
            &&& p.0 == x + i + 1
            &&& (p.1 == prev.1 || p.1 == prev.1 - 1)
            &&& (b * b) * p.0 < (a * a) * p.1
        } by {
            if i > 0 {
                assert(pts[i] == rest[i - 1]);
                if i > 1 {
                    assert(pts[i - 1] == rest[i - 2]);
                } else {
                    assert(pts[0] == n);
                }
            }
        }
    }
}

proof fn lemma_side_arc_from_shape(a: int, b: int, x: int, y: int)
    ensures
        ({
            let pts = side_arc_from(a, b, x, y);
            let last = if pts.len() == 0 { (x, y) } else { pts[pts.len() - 1] };
            let m = side_next(a, b, last.0, last.1);
            (a * a) * m.1 > (b * b) * m.0 || ((a * a) * m.1 == 0 && (b * b) * m.0 == 0)
        }),
        forall|i: int|
            0 <= i < side_arc_from(a, b, x, y).len() ==> {
                let p = #[trigger] side_arc_from(a, b, x, y)[i];
                let prev = if i == 0 { (x, y) } else { side_arc_from(a, b, x, y)[i - 1] };
                &&& p.1 == y + i + 1
                &&& (p.0 == prev.0 || p.0 == prev.0 - 1)
                &&& (a * a) * p.1 <= (b * b) * p.0
            },
    decreases (b * b) * x - (a * a) * y,
{
    let n = side_next(a, b, x, y);
    if side_goes_on(a, b, n) {
        lemma_side_decreases(a, b, x, y);
        lemma_side_arc_from_shape(a, b, n.0, n.1);
        let pts = side_arc_from(a, b, x, y);
        let rest = side_arc_from(a, b, n.0, n.1);
        assert(pts == seq![n] + rest);
        if rest.len() > 0 {
            assert(pts[pts.len() - 1] == rest[rest.len() - 1]);
        }
        assert forall|i: int| 0 <= i < pts.len() implies {
            let p = #[trigger] pts[i];
            let prev = if i == 0 { (x, y) } else { pts[i - 1] };
            &&& p.1 == y + i + 1
            &&& (p.0 == prev.0 || p.0 == prev.0 - 1)
            &&& (a * a) * p.1 <= (b * b) * p.0
        } by {
            if i > 0 {
                assert(pts[i] == rest[i - 1]);
                if i > 1 {
                    assert(pts[i - 1] == rest[i - 2]);
                } else {
                    assert(pts[0] == n);
                }
            }
        }
    }
}

/// The flat arc is walked column by column from the top `(0, b)`: its
/// points sit in columns `1, 2, 3, ...` in turn, each at most one row below
/// the one before, all where the slope is under 45 degrees
/// (`b² x < a² y`); and it is walked until the slope reaches 45 degrees: the
/// step after its last point has `b² x >= a² y`.
pub proof fn law_upper_arc_reaches_45_degrees(a: int, b: int)
    ensures
        ({
            let pts = upper_arc(a, b);
            let last = if pts.len() == 0 { (0int, b) } else { pts[pts.len() - 1] };
            (b * b) * upper_next(a, b, last.0, last.1).0 >= (a * a) * upper_next(a, b, last.0, last.1).1
        }),
        forall|i: int|
            0 <= i < upper_arc(a, b).len() ==> {
                let p = #[trigger] upper_arc(a, b)[i];
                let prev = if i == 0 { (0int, b) } else { upper_arc(a, b)[i - 1] };
                &&& p.0 == i + 1
                &&& (p.1 == prev.1 || p.1 == prev.1 - 1)
                &&& (b * b) * p.0 < (a * a) * p.1
            },
{
    lemma_upper_arc_from_shape(a, b, 0, b);
}

/// The steep arc is walked row by row from the side `(a, 0)`: its points sit
/// in rows `1, 2, 3, ...` in turn, each at most one column in from the one
/// before, all where the slope is at or over 45 degrees (`a² y <= b² x`);
/// and it is walked until the slope falls under 45 degrees or the walk
/// reaches the centre: the step after its last point has `a² y > b² x`, or
/// both are zero.
pub proof fn law_side_arc_reaches_45_degrees(a: int, b: int)
    ensures
        ({
            let pts = side_arc(a, b);
            let last = if pts.len() == 0 { (a, 0int) } else { pts[pts.len() - 1] };
            let m = side_next(a, b, last.0, last.1);
            (a * a) * m.1 > (b * b) * m.0 || ((a * a) * m.1 == 0 && (b * b) * m.0 == 0)
        }),
        forall|i: int|
            0 <= i < side_arc(a, b).len() ==> {
                let p = #[trigger] side_arc(a, b)[i];
                let prev = if i == 0 { (a, 0int) } else { side_arc(a, b)[i - 1] };
                &&& p.1 == i + 1
                &&& (p.0 == prev.0 || p.0 == prev.0 - 1)
                &&& (a * a) * p.1 <= (b * b) * p.0
            },
{
    lemma_side_arc_from_shape(a, b, a, 0);
}

proof fn lemma_upper_arc_from_tight(a: int, b: int, x: int, y: int)
    requires
        0 <= x,
        upper_test(a, b, x, y + 1) >= 0,
    ensures
        forall|i: int|
            0 <= i < upper_arc_from(a, b, x, y).len() ==> upper_test(
                a,
                b,
                (#[trigger] upper_arc_from(a, b, x, y)[i]).0,
                upper_arc_from(a, b, x, y)[i].1 + 1,
            ) >= 0,
    decreases (a * a) * y - (b * b) * x,
{
    let n = upper_next(a, b, x, y);
    if upper_goes_on(a, b, n) {
        lemma_upper_decreases(a, b, x, y);
        assert(upper_test(a, b, x + 1, y + 1) == upper_test(a, b, x, y + 1) + (b * b) * (2 * x + 1))
            by (nonlinear_arith);
        assert((b * b) * (2 * x + 1) >= 0) by (nonlinear_arith)
            requires
                x >= 0,
        ;
        assert(upper_test(a, b, n.0, n.1 + 1) >= 0);
        lemma_upper_arc_from_tight(a, b, n.0, n.1);
        let pts = upper_arc_from(a, b, x, y);
        let rest = upper_arc_from(a, b, n.0, n.1);
        assert(pts == seq![n] + rest);
        assert forall|i: int| 0 <= i < pts.len() implies upper_test(a, b, (#[trigger] pts[i]).0, pts[i].1 + 1)
            >= 0 by {
            if i > 0 {
                assert(pts[i] == rest[i - 1]);
            }
        }
    }
}

proof fn lemma_side_arc_from_tight(a: int, b: int, x: int, y: int)
    requires
        0 <= y,
        side_test(a, b, x + 1, y) >= 0,
    ensures
        forall|i: int|
            0 <= i < side_arc_from(a, b, x, y).len() ==> side_test(
                a,
                b,
                (#[trigger] side_arc_from(a, b, x, y)[i]).0 + 1,
                side_arc_from(a, b, x, y)[i].1,
            ) >= 0,
    decreases (b * b) * x - (a * a) * y,
{
    let n = side_next(a, b, x, y);
    if side_goes_on(a, b, n) {
        lemma_side_decreases(a, b, x, y);
        assert(side_test(a, b, x + 1, y + 1) == side_test(a, b, x + 1, y) + (a * a) * (2 * y + 1))
            by (nonlinear_arith);
        assert((a * a) * (2 * y + 1) >= 0) by (nonlinear_arith)
            requires
                y >= 0,
        ;
        assert(side_test(a, b, n.0 + 1, n.1) >= 0);
        lemma_side_arc_from_tight(a, b, n.0, n.1);
        let pts = side_arc_from(a, b, x, y);
        let rest = side_arc_from(a, b, n.0, n.1);
        assert(pts == seq![n] + rest);
        assert forall|i: int| 0 <= i < pts.len() implies side_test(a, b, (#[trigger] pts[i]).0 + 1, pts[i].1)
            >= 0 by {
            if i > 0 {
                assert(pts[i] == rest[i - 1]);
            }
        }
    }
}

/// Every point of the flat arc is the highest its column can go: the
/// midpoint half a row further from the centre lies on or outside the
/// ellipse (with `law_upper_arc_inside`, the one half a row nearer is
/// inside).
pub proof fn law_upper_arc_tight(a: int, b: int, i: int)
    requires
        b >= 0,
        0 <= i < upper_arc(a, b).len(),
    ensures
        upper_test(a, b, upper_arc(a, b)[i].0, upper_arc(a, b)[i].1 + 1) >= 0,
{
    assert(upper_test(a, b, 0, b + 1) == (a * a) * b + (a * a) / 4) by (nonlinear_arith);
    assert((a * a) * b >= 0) by (nonlinear_arith)
        requires
            b >= 0,
    ;
    assert((a * a) / 4 >= 0) by (nonlinear_arith);
    lemma_upper_arc_from_tight(a, b, 0, b);
}

/// Every point of the steep arc is the furthest out its row can go: the
/// midpoint half a column further from the centre lies on or outside the
/// ellipse (with `law_side_arc_inside`, the one half a column nearer is
/// inside).
pub proof fn law_side_arc_tight(a: int, b: int, i: int)
    requires
        a >= 0,
        0 <= i < side_arc(a, b).len(),
    ensures
        side_test(a, b, side_arc(a, b)[i].0 + 1, side_arc(a, b)[i].1) >= 0,
{
    assert(side_test(a, b, a + 1, 0) == (b * b) * a + (b * b) / 4) by (nonlinear_arith);
    assert((b * b) * a >= 0) by (nonlinear_arith)
        requires
            a >= 0,
    ;
    assert((b * b) / 4 >= 0) by (nonlinear_arith);
    lemma_side_arc_from_tight(a, b, a, 0);
}

/// The outline reaches the four ends of the ellipse's axes, and the filled
/// ellipse holds both axes whole: the centre row from `-a` to `a` and the
/// centre column from `-b` to `b`.
pub proof fn law_oval_reaches_axes(x0: int, y0: int, x1: int, y1: int, t: int)
    ensures
        ({
            let a = semi_axis(x0, x1);
            let b = semi_axis(y0, y1);
            let xc = box_centre(x0, x1);
            let yc = box_centre(y0, y1);
            &&& oval_region(x0, y0, x1, y1)(xc + a, yc)
            &&& oval_region(x0, y0, x1, y1)(xc - a, yc)
            &&& oval_region(x0, y0, x1, y1)(xc, yc + b)
            &&& oval_region(x0, y0, x1, y1)(xc, yc - b)
            &&& (-a <= t <= a ==> ovalfill_region(x0, y0, x1, y1)(xc + t, yc))
            &&& (-b <= t <= b ==> ovalfill_region(x0, y0, x1, y1)(xc, yc + t))
        }),
{
}

} // verus!
