//! Palette colours and the indexed pixel canvas that `pset` writes, with
//! the colour choices of `pset` and `cls`.
use vstd::prelude::*;
use crate::raster::{pixel_index, lemma_index_in_range, lemma_index_injective};
use crate::pico8::Pico8;

verus! {

/// A colour argument of the drawing calls: an index into the palette, or a
/// direct RGBA colour.
#[derive(PartialEq, Eq, Structural, Clone, Copy, Debug)]
pub enum PColor {
    Palette(usize),
    Rgba(u8, u8, u8, u8),
}

/// The palette remapping set with `pal`: entry `i` is the palette index
/// drawn for index `i`.
pub struct PaletteMap {
    pub remap: Vec<usize>,
}

/// The index drawn for palette index `p`: its remapped entry when `p` is in
/// the table, else `p` reduced modulo the table's length; `p` itself for an
/// empty table.
pub open spec fn map_or_mod_spec(remap: Seq<usize>, p: usize) -> usize {
    if remap.len() == 0 {
        p
    } else if p < remap.len() {
        remap[p as int]
    } else {
        (p % (remap.len() as usize)) as usize
    }
}

impl PaletteMap {
    /// The index drawn for palette index `p`.
    pub fn map_or_mod(&self, p: usize) -> (m: usize)
        ensures
            m == map_or_mod_spec(self.remap@, p),
    {
        let n = self.remap.len();
        if n == 0 {
            p
        } else if p < n {
            self.remap[p]
        } else {
            p % n
        }
    }
}

/// What the palette map draws for index `p`, with a table of `n > 0`
/// entries: an index in the table is remapped by its entry; any other is
/// brought into the palette's range `0..n` keeping its residue modulo `n`,
/// so indices `n` apart beyond the table draw the same.
pub proof fn law_map_or_mod_wraps(remap: Seq<usize>, p: usize)
    requires
        remap.len() > 0,
    ensures
        p < remap.len() ==> map_or_mod_spec(remap, p) == remap[p as int],
        p >= remap.len() ==> map_or_mod_spec(remap, p) < remap.len(),
        p >= remap.len() ==> (p - map_or_mod_spec(remap, p)) % (remap.len() as int) == 0,
        p >= remap.len() && p + remap.len() <= usize::MAX ==> map_or_mod_spec(
            remap,
            (p + remap.len()) as usize,
        ) == map_or_mod_spec(remap, p),
{
    let n = remap.len() as int;
    if p >= n {
        let m = map_or_mod_spec(remap, p) as int;
        assert(m == (p as int) % n);
        assert(0 <= m < n && (p - m) % n == 0) by (nonlinear_arith)
            requires
                n > 0,
                m == (p as int) % n,
        ;
        assert(((p as int) + n) % n == (p as int) % n) by (nonlinear_arith)
            requires
                n > 0,
        ;
    }
}

/// With an empty table every index is drawn as itself.
pub proof fn law_map_or_mod_empty_is_identity(p: usize)
    ensures
        map_or_mod_spec(Seq::<usize>::empty(), p) == p,
{
}

/// A grid of palette indices, stored row by row: the screen-sized canvas
/// that `pset` writes.
pub struct IndexedImage {
    width: usize,
    height: usize,
    pixels: Vec<u8>,
}

impl IndexedImage {
    pub closed spec fn wf(self) -> bool {
        self.pixels@.len() == self.width as int * self.height as int
    }

    pub closed spec fn spec_width(self) -> int {
        self.width as int
    }

    pub closed spec fn spec_height(self) -> int {
        self.height as int
    }

    /// The palette index at `(x, y)`; meaningful in bounds.
    pub closed spec fn spec_index(self, x: int, y: int) -> u8 {
        self.pixels@[pixel_index(self.width as int, x, y)]
    }

    pub open spec fn in_bounds(self, x: int, y: int) -> bool {
        0 <= x < self.spec_width() && 0 <= y < self.spec_height()
    }

    /// A `width` x `height` canvas of palette index 0.
    pub fn new(width: usize, height: usize) -> (img: IndexedImage)
        requires
            width * height <= usize::MAX,
        ensures
            img.wf(),
            img.spec_width() == width,
            img.spec_height() == height,
            forall|x: int, y: int| img.in_bounds(x, y) ==> #[trigger] img.spec_index(x, y) == 0,
    {
        let n: usize = width * height;
        let mut pixels: Vec<u8> = Vec::with_capacity(n);
        let mut i: usize = 0;
        while i < n
            invariant
                i <= n,
                pixels@.len() == i,
                forall|k: int| 0 <= k < i ==> #[trigger] pixels@[k] == 0,
            decreases n - i,
        {
            pixels.push(0);
            i = i + 1;
        }
        let img = IndexedImage { width, height, pixels };
        assert forall|x: int, y: int| img.in_bounds(x, y) implies #[trigger] img.spec_index(x, y) == 0 by {
            lemma_index_in_range(width as int, height as int, x, y);
        }
        img
    }

    pub fn width(&self) -> (w: usize)
        ensures
            w == self.spec_width(),
    {
        self.width
    }

    pub fn height(&self) -> (h: usize)
        ensures
            h == self.spec_height(),
    {
        self.height
    }

    /// The palette index at `(x, y)`.
    pub fn get(&self, x: usize, y: usize) -> (p: u8)
        requires
            self.wf(),
            self.in_bounds(x as int, y as int),
        ensures
            p == self.spec_index(x as int, y as int),
    {
        let len = self.pixels.len();
        proof {
            lemma_index_in_range(self.width as int, self.height as int, x as int, y as int);
            assert((y as int) * (self.width as int) + (x as int) < len);
        }
        self.pixels[y * self.width + x]
    }

    /// Writes palette index `p` at `(x, y)` when that pixel is on the
    /// canvas, and says whether it was.
    pub fn set(&mut self, x: usize, y: usize, p: u8) -> (written: bool)
        requires
            old(self).wf(),
        ensures
            final(self).wf(),
            final(self).spec_width() == old(self).spec_width(),
            final(self).spec_height() == old(self).spec_height(),
            written == old(self).in_bounds(x as int, y as int),
            forall|a: int, b: int|
                final(self).in_bounds(a, b) ==> #[trigger] final(self).spec_index(a, b) == if written && a
                    == x && b == y {
                    p
                } else {
                    old(self).spec_index(a, b)
                },
    {
        if x >= self.width || y >= self.height {
            return false;
        }
        let ghost before = *self;
        let len = self.pixels.len();
        proof {
            lemma_index_in_range(self.width as int, self.height as int, x as int, y as int);
            assert((y as int) * (self.width as int) + (x as int) < len);
        }
        let k = y * self.width + x;
        self.pixels.set(k, p);
        proof {
            assert forall|a: int, b: int| self.in_bounds(a, b) implies #[trigger] self.spec_index(a, b)
                == if a == x && b == y {
                p
            } else {
                before.spec_index(a, b)
            } by {
                lemma_index_in_range(self.width as int, self.height as int, a, b);
                if pixel_index(self.width as int, a, b) == k as int {
                    lemma_index_injective(self.width as int, a, b, x as int, y as int);
                }
            }
        }
        true
    }
}

/// Why `pset` did not write.
#[derive(PartialEq, Eq, Structural, Clone, Copy, Debug)]
pub enum PsetError {
    /// The pixel is off the canvas; carries the palette index and position.
    InvalidArgument { index: u8, x: u32, y: u32 },
}

/// The colour `pset` draws with: the given one, else the pen.
pub open spec fn pset_color(color: Option<PColor>, pen: PColor) -> PColor {
    match color {
        Some(c) => c,
        None => pen,
    }
}

impl Pico8 {
    /// The colour `cls([color])` clears the screen with: the given one, else
    /// the default clear colour of the palette.
    pub fn cls(&self, color: Option<PColor>, clear_color: usize) -> (c: PColor)
        ensures
            c == match color {
                Some(c) => c,
                None => PColor::Palette(clear_color),
            },
    {
        match color {
            Some(c) => c,
            None => PColor::Palette(clear_color),
        }
    }

    /// `pset(pos, [color])` on the pixel canvas: the colour (else the pen) is
    /// a palette index, remapped by `pal` and kept to its low byte, and
    /// written at `pos`; off the canvas it is an error and nothing changes.
    pub fn pset(
        &self,
        canvas: &mut IndexedImage,
        pos: (u32, u32),
        color: Option<PColor>,
        pen: PColor,
        pal: &PaletteMap,
    ) -> (res: Result<(), PsetError>)
        requires
            old(canvas).wf(),
            pset_color(color, pen) is Palette,
        ensures
            ({
                let index = map_or_mod_spec(pal.remap@, pset_color(color, pen)->Palette_0) as u8;
                &&& final(canvas).wf()
                &&& final(canvas).spec_width() == old(canvas).spec_width()
                &&& final(canvas).spec_height() == old(canvas).spec_height()
                &&& (res is Ok <==> old(canvas).in_bounds(pos.0 as int, pos.1 as int))
                &&& (res is Err ==> res == Err::<(), PsetError>(
                    PsetError::InvalidArgument { index, x: pos.0, y: pos.1 },
                ))
                &&& forall|a: int, b: int|
                    final(canvas).in_bounds(a, b) ==> #[trigger] final(canvas).spec_index(a, b) == if res is Ok
                        && a == pos.0 && b == pos.1 {
                        index
                    } else {
                        old(canvas).spec_index(a, b)
                    }
            }),
    {
        let c = match color {
            Some(c) => c,
            None => pen,
        };
        match c {
            PColor::Palette(p) => {
                let index = pal.map_or_mod(p) as u8;
                if canvas.set(pos.0 as usize, pos.1 as usize, index) {
                    Ok(())
                } else {
                    Err(PsetError::InvalidArgument { index, x: pos.0, y: pos.1 })
                }
            },
            PColor::Rgba(..) => {
                proof {
                    assert(false);
                }
                Err(PsetError::InvalidArgument { index: 0, x: pos.0, y: pos.1 })
            },
        }
    }
}

} // verus!
