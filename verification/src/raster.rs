//! An RGBA pixel buffer with a fixed pen colour, the target of every shape
//! primitive.
use vstd::prelude::*;

verus! {

/// A `width` x `height` grid of RGBA pixels, stored row by row, and the pen
/// colour that every plot writes.
pub struct Raster {
    width: u32,
    height: u32,
    pen: [u8; 4],
    pixels: Vec<[u8; 4]>,
}

/// The transparent pixel a fresh raster is filled with.
pub open spec fn clear_pixel() -> [u8; 4] {
    [0u8, 0u8, 0u8, 0u8]
}

/// A requested side length, raised to at least one pixel.
pub open spec fn raster_side(s: u32) -> int {
    if s == 0 { 1 } else { s as int }
}

/// Row-major position of pixel `(x, y)` in a grid `w` pixels wide.
pub open spec fn pixel_index(w: int, x: int, y: int) -> int {
    y * w + x
}

pub(crate) proof fn lemma_index_in_range(w: int, h: int, x: int, y: int)
    requires
        0 <= x < w,
        0 <= y < h,
    ensures
        0 <= pixel_index(w, x, y) < w * h,
        pixel_index(w, x, y) <= w * h - 1,
{
    assert(0 <= y * w + x < w * h) by (nonlinear_arith)
        requires
            0 <= x < w,
            0 <= y < h,
    ;
}

pub(crate) proof fn lemma_index_injective(w: int, x1: int, y1: int, x2: int, y2: int)
    requires
        0 <= x1 < w,
        0 <= x2 < w,
        0 <= y1,
        0 <= y2,
        pixel_index(w, x1, y1) == pixel_index(w, x2, y2),
    ensures
        x1 == x2,
        y1 == y2,
{
    if y1 < y2 {
        assert(y1 * w + w <= y2 * w) by (nonlinear_arith)
            requires
                y1 < y2,
                0 < w,
        ;
    } else if y2 < y1 {
        assert(y2 * w + w <= y1 * w) by (nonlinear_arith)
            requires
                y2 < y1,
                0 < w,
        ;
    }
}

impl Raster {
    /// Well-formed: at least one pixel each way, and exactly one stored pixel
    /// per grid position.
    pub closed spec fn wf(self) -> bool {
        &&& self.width >= 1
        &&& self.height >= 1
        &&& self.pixels@.len() == self.width as int * self.height as int
    }

    pub closed spec fn spec_width(self) -> int {
        self.width as int
    }

    pub closed spec fn spec_height(self) -> int {
        self.height as int
    }

    pub closed spec fn spec_pen(self) -> [u8; 4] {
        self.pen
    }

    /// The colour at `(x, y)`; meaningful where `in_bounds(x, y)`.
    pub closed spec fn spec_pixel(self, x: int, y: int) -> [u8; 4] {
        self.pixels@[pixel_index(self.width as int, x, y)]
    }

    pub open spec fn in_bounds(self, x: int, y: int) -> bool {
        0 <= x < self.spec_width() && 0 <= y < self.spec_height()
    }

    /// `self` and `other` are well formed and share size and pen.
    pub open spec fn same_frame(self, other: Raster) -> bool {
        &&& self.wf()
        &&& other.wf()
        &&& self.spec_width() == other.spec_width()
        &&& self.spec_height() == other.spec_height()
        &&& self.spec_pen() == other.spec_pen()
    }

    /// `self` is `prev` with exactly the in-bounds pixels of `region` set to
    /// the pen colour.
    pub open spec fn painted(self, prev: Raster, region: spec_fn(int, int) -> bool) -> bool {
        &&& self.same_frame(prev)
        &&& forall|a: int, b: int|
            self.in_bounds(a, b) ==> #[trigger] self.spec_pixel(a, b) == (if region(a, b) {
                self.spec_pen()
            } else {
                prev.spec_pixel(a, b)
            })
    }

    /// A raster of `size`, each side at least one pixel, filled with
    /// transparent black, that plots with `pen`.
    pub fn new(size: (u32, u32), pen: [u8; 4]) -> (r: Raster)
        requires
            raster_side(size.0) * raster_side(size.1) <= usize::MAX,
        ensures
            r.wf(),
            r.spec_width() == raster_side(size.0),
            r.spec_height() == raster_side(size.1),
            r.spec_pen() == pen,
            forall|a: int, b: int| r.in_bounds(a, b) ==> #[trigger] r.spec_pixel(a, b) == clear_pixel(),
    {
        let width: u32 = if size.0 == 0 { 1 } else { size.0 };
        let height: u32 = if size.1 == 0 { 1 } else { size.1 };
        assert(width as int * height as int <= usize::MAX);
        let n: usize = (width as usize) * (height as usize);
        let mut pixels: Vec<[u8; 4]> = Vec::with_capacity(n);
        let mut i: usize = 0;
        while i < n
            invariant
                i <= n,
                pixels@.len() == i,
                forall|k: int| 0 <= k < i ==> #[trigger] pixels@[k] == clear_pixel(),
            decreases n - i,
        {
            pixels.push([0u8, 0u8, 0u8, 0u8]);
            i = i + 1;
        }
        let r = Raster { width, height, pen, pixels };
        assert forall|a: int, b: int| r.in_bounds(a, b) implies #[trigger] r.spec_pixel(a, b)
            == clear_pixel() by {
            lemma_index_in_range(width as int, height as int, a, b);
        }
        r
    }

    pub fn width(&self) -> (w: u32)
        ensures
            w == self.spec_width(),
    {
        self.width
    }

    pub fn height(&self) -> (h: u32)
        ensures
            h == self.spec_height(),
    {
        self.height
    }

    pub fn pen(&self) -> (p: [u8; 4])
        ensures
            p == self.spec_pen(),
    {
        self.pen
    }

    /// The colour at `(x, y)`.
    pub fn pixel(&self, x: u32, y: u32) -> (p: [u8; 4])
        requires
            self.wf(),
            self.in_bounds(x as int, y as int),
        ensures
            p == self.spec_pixel(x as int, y as int),
    {
        let len = self.pixels.len();
        proof {
            lemma_index_in_range(self.width as int, self.height as int, x as int, y as int);
            assert((y as usize) as int * (self.width as usize) as int <= len);
        }
        self.pixels[(y as usize) * (self.width as usize) + (x as usize)]
    }

    /// The pixels as RGBA bytes, row by row: pixel `(x, y)` occupies the four
    /// bytes from `4 * (y * width + x)`.
    pub fn rgba_bytes(&self) -> (bytes: Vec<u8>)
        requires
            self.wf(),
            4 * (self.spec_width() * self.spec_height()) <= usize::MAX,
        ensures
            bytes@.len() == 4 * (self.spec_width() * self.spec_height()),
            forall|x: int, y: int, k: int|
                self.in_bounds(x, y) && 0 <= k < 4 ==> #[trigger] bytes@[4 * pixel_index(
                    self.spec_width(),
                    x,
                    y,
                ) + k] == #[trigger] self.spec_pixel(x, y)[k],
    {
        let n = self.pixels.len();
        let mut bytes: Vec<u8> = Vec::with_capacity(4 * n);
        let mut i: usize = 0;
        while i < n
            invariant
                n == self.pixels@.len(),
                4 * n <= usize::MAX,
                i <= n,
                bytes@.len() == 4 * i,
                forall|j: int, k: int|
                    0 <= j < i && 0 <= k < 4 ==> #[trigger] bytes@[4 * j + k] == self.pixels@[j][k],
            decreases n - i,
        {
            let p = self.pixels[i];
            bytes.push(p[0]);
            bytes.push(p[1]);
            bytes.push(p[2]);
            bytes.push(p[3]);
            proof {
                assert forall|j: int, k: int| 0 <= j < i + 1 && 0 <= k < 4 implies #[trigger] bytes@[4
                    * j + k] == self.pixels@[j][k] by {
                    if j == i {
                        assert(4 * j + k == 4 * i + k);
                    }
                }
            }
            i = i + 1;
        }
        proof {
            assert forall|x: int, y: int, k: int|
                self.in_bounds(x, y) && 0 <= k < 4 implies #[trigger] bytes@[4 * pixel_index(
                self.spec_width(),
                x,
                y,
            ) + k] == #[trigger] self.spec_pixel(x, y)[k] by {
                lemma_index_in_range(self.width as int, self.height as int, x, y);
            }
        }
        bytes
    }

    /// Sets pixel `(x, y)` to the pen colour.
    pub fn plot(&mut self, x: i32, y: i32)
        requires
            old(self).wf(),
            old(self).in_bounds(x as int, y as int),
        ensures
            final(self).painted(*old(self), |a: int, b: int| a == x && b == y),
    {
        let len = self.pixels.len();
        proof {
            lemma_index_in_range(self.width as int, self.height as int, x as int, y as int);
            assert((y as usize) as int * (self.width as usize) as int <= len);
        }
        let idx: usize = (y as usize) * (self.width as usize) + (x as usize);
        let pen = self.pen;
        self.pixels.set(idx, pen);
        proof {
            assert forall|a: int, b: int| self.in_bounds(a, b) implies #[trigger] self.spec_pixel(a, b)
                == (if a == x && b == y {
                self.spec_pen()
            } else {
                old(self).spec_pixel(a, b)
            }) by {
                lemma_index_in_range(self.width as int, self.height as int, a, b);
                if pixel_index(self.width as int, a, b) == idx {
                    lemma_index_injective(self.width as int, a, b, x as int, y as int);
                }
            }
        }
    }
}

/// The four mirror images `(cx ± dx, cy ± dy)` of an offset about a centre.
pub open spec fn mirror4(cx: int, cy: int, dx: int, dy: int) -> spec_fn(int, int) -> bool {
    |a: int, b: int| (a == cx + dx || a == cx - dx) && (b == cy + dy || b == cy - dy)
}

/// The pixels of row `y` from column `lo` to column `hi`, both included.
pub open spec fn span_region(lo: int, hi: int, y: int) -> spec_fn(int, int) -> bool {
    |a: int, b: int| b == y && lo <= a <= hi
}

/// The pixels of column `x` from row `lo` to row `hi`, both included.
pub open spec fn column_region(lo: int, hi: int, x: int) -> spec_fn(int, int) -> bool {
    |a: int, b: int| a == x && lo <= b <= hi
}

pub open spec fn min_int(a: int, b: int) -> int {
    if a <= b { a } else { b }
}

pub open spec fn max_int(a: int, b: int) -> int {
    if a <= b { b } else { a }
}

impl Raster {
    /// `(x, y)` is a pixel of the raster that `plot` can address.
    pub open spec fn plottable(self, x: int, y: int) -> bool {
        self.in_bounds(x, y) && x <= i32::MAX && y <= i32::MAX
    }

    /// Sets the four pixels `(cx ± dx, cy ± dy)` to the pen colour.
    pub fn plot_mirrored(&mut self, cx: i32, cy: i32, dx: i32, dy: i32)
        requires
            old(self).wf(),
            old(self).plottable(cx + dx, cy + dy),
            old(self).plottable(cx - dx, cy + dy),
            old(self).plottable(cx + dx, cy - dy),
            old(self).plottable(cx - dx, cy - dy),
        ensures
            final(self).painted(*old(self), mirror4(cx as int, cy as int, dx as int, dy as int)),
    {
        let ghost r0 = *self;
        self.plot(cx + dx, cy + dy);
        let ghost r1 = *self;
        self.plot(cx - dx, cy + dy);
        let ghost r2 = *self;
        proof {
            let f1 = |a: int, b: int| a == cx + dx && b == cy + dy;
            let f2 = |a: int, b: int| a == cx - dx && b == cy + dy;
            let g2 = |a: int, b: int| (a == cx + dx || a == cx - dx) && b == cy + dy;
            lemma_painted_then(r0, r1, r2, f1, f2, g2);
        }
        self.plot(cx + dx, cy - dy);
        let ghost r3 = *self;
        proof {
            let g2 = |a: int, b: int| (a == cx + dx || a == cx - dx) && b == cy + dy;
            let f3 = |a: int, b: int| a == cx + dx && b == cy - dy;
            let g3 = |a: int, b: int|
                ((a == cx + dx || a == cx - dx) && b == cy + dy) || (a == cx + dx && b == cy - dy);
            lemma_painted_then(r0, r2, r3, g2, f3, g3);
        }
        self.plot(cx - dx, cy - dy);
        proof {
            let g3 = |a: int, b: int|
                ((a == cx + dx || a == cx - dx) && b == cy + dy) || (a == cx + dx && b == cy - dy);
            let f4 = |a: int, b: int| a == cx - dx && b == cy - dy;
            lemma_painted_then(r0, r3, *self, g3, f4, mirror4(cx as int, cy as int, dx as int, dy as int));
        }
    }

    /// Sets row `y` from column `min(x0, x1)` to column `max(x0, x1)` to the
    /// pen colour.
    pub fn hline(&mut self, x0: i32, x1: i32, y: i32)
        requires
            old(self).wf(),
            old(self).in_bounds(x0 as int, y as int),
            old(self).in_bounds(x1 as int, y as int),
        ensures
            final(self).painted(
                *old(self),
                span_region(min_int(x0 as int, x1 as int), max_int(x0 as int, x1 as int), y as int),
            ),
    {
        let (lo, hi) = if x0 <= x1 { (x0, x1) } else { (x1, x0) };
        let ghost r0 = *self;
        proof {
            lemma_painted_nothing(r0);
        }
        let mut x: i64 = lo as i64;
        while x <= hi as i64
            invariant
                lo as int <= x <= hi as int + 1,
                r0.wf(),
                r0.in_bounds(lo as int, y as int),
                r0.in_bounds(hi as int, y as int),
                self.painted(r0, span_region(lo as int, x - 1, y as int)),
            decreases hi as int + 1 - x,
        {
            let ghost before = *self;
            self.plot(x as i32, y);
            proof {
                lemma_painted_then(
                    r0,
                    before,
                    *self,
                    span_region(lo as int, x - 1, y as int),
                    |a: int, b: int| a == x as int && b == y as int,
                    span_region(lo as int, x as int, y as int),
                );
            }
            x = x + 1;
        }
    }

    /// Sets column `x` from row `min(y0, y1)` to row `max(y0, y1)` to the pen
    /// colour.
    pub fn vline(&mut self, y0: i32, y1: i32, x: i32)
        requires
            old(self).wf(),
            old(self).in_bounds(x as int, y0 as int),
            old(self).in_bounds(x as int, y1 as int),
        ensures
            final(self).painted(
                *old(self),
                column_region(min_int(y0 as int, y1 as int), max_int(y0 as int, y1 as int), x as int),
            ),
    {
        let (lo, hi) = if y0 <= y1 { (y0, y1) } else { (y1, y0) };
        let ghost r0 = *self;
        proof {
            lemma_painted_nothing(r0);
        }
        let mut y: i64 = lo as i64;
        while y <= hi as i64
            invariant
                lo as int <= y <= hi as int + 1,
                r0.wf(),
                r0.in_bounds(x as int, lo as int),
                r0.in_bounds(x as int, hi as int),
                self.painted(r0, column_region(lo as int, y - 1, x as int)),
            decreases hi as int + 1 - y,
        {
            let ghost before = *self;
            self.plot(x, y as i32);
            proof {
                lemma_painted_then(
                    r0,
                    before,
                    *self,
                    column_region(lo as int, y - 1, x as int),
                    |a: int, b: int| a == x as int && b == y as int,
                    column_region(lo as int, y as int, x as int),
                );
            }
            y = y + 1;
        }
    }
}

/// Orders a rectangle's corners so that `x0 <= x1` and `y0 <= y1`.
pub fn sort_rect(x0: &mut i32, y0: &mut i32, x1: &mut i32, y1: &mut i32)
    ensures
        *final(x0) == min_int(*old(x0) as int, *old(x1) as int),
        *final(x1) == max_int(*old(x0) as int, *old(x1) as int),
        *final(y0) == min_int(*old(y0) as int, *old(y1) as int),
        *final(y1) == max_int(*old(y0) as int, *old(y1) as int),
{
    if *x0 > *x1 {
        let t = *x0;
        *x0 = *x1;
        *x1 = t;
    }
    if *y0 > *y1 {
        let t = *y0;
        *y0 = *y1;
        *y1 = t;
    }
}

/// Painting `f` then `g` paints every pixel where `h` holds, when `h` is
/// `f` or `g` pointwise.
pub proof fn lemma_painted_then(
    r0: Raster,
    r1: Raster,
    r2: Raster,
    f: spec_fn(int, int) -> bool,
    g: spec_fn(int, int) -> bool,
    h: spec_fn(int, int) -> bool,
)
    requires
        r1.painted(r0, f),
        r2.painted(r1, g),
        forall|a: int, b: int| #[trigger] h(a, b) == (f(a, b) || g(a, b)),
    ensures
        r2.painted(r0, h),
{
    assert forall|a: int, b: int| r2.in_bounds(a, b) implies #[trigger] r2.spec_pixel(a, b) == (if h(
        a,
        b,
    ) {
        r2.spec_pen()
    } else {
        r0.spec_pixel(a, b)
    }) by {
        assert(r1.spec_pixel(a, b) == (if f(a, b) {
            r1.spec_pen()
        } else {
            r0.spec_pixel(a, b)
        }));
        assert(h(a, b) == (f(a, b) || g(a, b)));
    }
}

/// Painting a region that pointwise equals another paints that other region.
pub proof fn lemma_painted_same_region(
    r0: Raster,
    r1: Raster,
    f: spec_fn(int, int) -> bool,
    g: spec_fn(int, int) -> bool,
)
    requires
        r1.painted(r0, f),
        forall|a: int, b: int| r1.in_bounds(a, b) ==> #[trigger] g(a, b) == f(a, b),
    ensures
        r1.painted(r0, g),
{
    assert forall|a: int, b: int| r1.in_bounds(a, b) implies #[trigger] r1.spec_pixel(a, b) == (if g(
        a,
        b,
    ) {
        r1.spec_pen()
    } else {
        r0.spec_pixel(a, b)
    }) by {
        assert(g(a, b) == f(a, b));
    }
}

/// Painting nothing leaves a well-formed raster as it was.
pub proof fn lemma_painted_nothing(r: Raster)
    requires
        r.wf(),
    ensures
        r.painted(r, |a: int, b: int| false),
{
}

/// Drawing a shape a second time changes nothing: painting `f` twice leaves
/// the raster as painting it once.
pub proof fn law_paint_twice(r0: Raster, r1: Raster, r2: Raster, f: spec_fn(int, int) -> bool)
    requires
        r1.painted(r0, f),
        r2.painted(r1, f),
    ensures
        r2.painted(r0, f),
{
    lemma_painted_then(r0, r1, r2, f, f, f);
}

/// The order of drawing does not matter: painting `f` then `g`, or `g`
/// then `f`, from the same raster gives the same pixels.
pub proof fn law_paint_order(
    r0: Raster,
    r1: Raster,
    r2: Raster,
    s1: Raster,
    s2: Raster,
    f: spec_fn(int, int) -> bool,
    g: spec_fn(int, int) -> bool,
)
    requires
        r1.painted(r0, f),
        r2.painted(r1, g),
        s1.painted(r0, g),
        s2.painted(s1, f),
    ensures
        r2.same_frame(s2),
        forall|a: int, b: int| r2.in_bounds(a, b) ==> #[trigger] r2.spec_pixel(a, b) == s2.spec_pixel(a, b),
{
    let h = |a: int, b: int| f(a, b) || g(a, b);
    lemma_painted_then(r0, r1, r2, f, g, h);
    lemma_painted_then(r0, s1, s2, g, f, h);
}

} // verus!
