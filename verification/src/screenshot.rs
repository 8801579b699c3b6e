//! Turning a captured window image into the canvas-sized RGB picture that
//! `extcmd("screen")` saves.
use vstd::prelude::*;

verus! {

/// A camera viewport in physical pixels of the captured image.
#[derive(PartialEq, Eq, Structural, Clone, Copy, Debug)]
pub struct Viewport {
    pub x: u32,
    pub y: u32,
    pub width: u32,
    pub height: u32,
}

/// Why a capture cannot be turned into a picture.
#[derive(PartialEq, Eq, Structural, Clone, Copy, Debug)]
pub enum CaptureError {
    /// The capture holds no pixel data on the CPU side.
    NoCpuData,
    /// The capture holds fewer bytes than its size calls for.
    BufferTooSmall { len: usize, width: u32, height: u32 },
}

pub open spec fn sat_sub(a: int, b: int) -> int {
    if a >= b { a - b } else { 0 }
}

pub open spec fn min_of(a: int, b: int) -> int {
    if a <= b { a } else { b }
}

pub open spec fn max_of(a: int, b: int) -> int {
    if a <= b { b } else { a }
}

/// The part of the capture that is read, as `(x, y, width, height)`: the
/// viewport clamped into the capture, or the whole capture; never less than
/// one pixel wide or high.
pub open spec fn crop_rect(src: (u32, u32), viewport: Option<Viewport>) -> (int, int, int, int) {
    let raw: (int, int, int, int) = match viewport {
        Some(v) => (
            min_of(v.x as int, sat_sub(src.0 as int, 1)),
            min_of(v.y as int, sat_sub(src.1 as int, 1)),
            min_of(max_of(v.width as int, 1), src.0 as int),
            min_of(max_of(v.height as int, 1), src.1 as int),
        ),
        None => (0, 0, src.0 as int, src.1 as int),
    };
    (
        raw.0,
        raw.1,
        max_of(min_of(raw.2, sat_sub(src.0 as int, raw.0)), 1),
        max_of(min_of(raw.3, sat_sub(src.1 as int, raw.1)), 1),
    )
}

/// The canvas size the picture is scaled to, at least one pixel each way.
pub open spec fn picture_size(canvas: (u32, u32)) -> (int, int) {
    (max_of(canvas.0 as int, 1), max_of(canvas.1 as int, 1))
}

/// Nearest-neighbour source pixel of picture pixel `(x, y)`: its column and
/// row in the capture.
pub open spec fn source_pixel(crop: (int, int, int, int), dst: (int, int), x: int, y: int) -> (int, int) {
    (crop.0 + (x * crop.2) / dst.0, crop.1 + (y * crop.3) / dst.1)
}

/// Byte of the capture's pixel that holds RGB channel `k`: BGRA captures
/// store red and blue swapped.
pub open spec fn channel_byte(bgra: bool, k: int) -> int {
    if bgra { 2 - k } else { k }
}

proof fn lemma_scaled_below(x: int, c: int, d: int)
    requires
        0 <= x < d,
        1 <= c,
    ensures
        0 <= (x * c) / d < c,
{
    assert(0 <= x * c < d * c) by (nonlinear_arith)
        requires
            0 <= x < d,
            1 <= c,
    ;
    assert(0 <= (x * c) / d < c) by (nonlinear_arith)
        requires
            0 <= x * c < d * c,
            0 < d,
    ;
}

proof fn lemma_row_major(w: int, h: int, x: int, y: int)
    requires
        0 <= x < w,
        0 <= y < h,
    ensures
        0 <= y * w + x < w * h,
        (y + 1) * w == y * w + w,
        w * h == h * w,
{
    assert(w * h == h * w) by (nonlinear_arith);
    assert(0 <= y * w + x < w * h) by (nonlinear_arith)
        requires
            0 <= x < w,
            0 <= y < h,
    ;
    assert((y + 1) * w == y * w + w) by (nonlinear_arith);
}

/// A capture of exactly the canvas size, with no viewport or one that
/// covers it, is copied pixel for pixel: picture pixel `(x, y)` reads
/// capture pixel `(x, y)`.
pub proof fn law_same_size_copies_pixels(src: (u32, u32), viewport: Option<Viewport>, x: int, y: int)
    requires
        src.0 >= 1,
        src.1 >= 1,
        viewport matches Some(v) ==> v.x == 0 && v.y == 0 && v.width >= src.0 && v.height >= src.1,
        0 <= x < src.0,
        0 <= y < src.1,
    ensures
        source_pixel(crop_rect(src, viewport), picture_size(src), x, y) == (x, y),
{
    let w = src.0 as int;
    let h = src.1 as int;
    assert(crop_rect(src, viewport) == (0int, 0int, w, h));
    assert(picture_size(src) == (w, h));
    assert((x * w) / w == x) by (nonlinear_arith)
        requires
            w >= 1,
    ;
    assert((y * h) / h == y) by (nonlinear_arith)
        requires
            h >= 1,
    ;
}

/// The canvas-sized RGB picture of a captured window image of size `src`
/// (RGBA bytes, or BGRA when `bgra`), cropped to the first camera viewport,
/// if any, and scaled by nearest neighbour. Returns the picture's width,
/// height and bytes, row by row, three per pixel.
pub fn screenshot_rgb(
    data: Option<&Vec<u8>>,
    src: (u32, u32),
    bgra: bool,
    viewport: Option<Viewport>,
    canvas: (u32, u32),
) -> (res: Result<(u32, u32, Vec<u8>), CaptureError>)
    requires
        data is Some && data.unwrap()@.len() >= 4 * (src.0 as int * src.1 as int) ==> src.0 >= 1
            && src.1 >= 1,
        3 * (picture_size(canvas).0 * picture_size(canvas).1) <= usize::MAX,
    ensures
        match data {
            None => res == Err::<(u32, u32, Vec<u8>), CaptureError>(CaptureError::NoCpuData),
            Some(d) => if d@.len() < 4 * (src.0 as int * src.1 as int) {
                res == Err::<(u32, u32, Vec<u8>), CaptureError>(
                    CaptureError::BufferTooSmall { len: d@.len() as usize, width: src.0, height: src.1 },
                )
            } else {
                let w = picture_size(canvas).0;
                let h = picture_size(canvas).1;
                let crop = crop_rect(src, viewport);
                &&& res is Ok
                &&& res->Ok_0.0 == w
                &&& res->Ok_0.1 == h
                &&& res->Ok_0.2@.len() == 3 * (w * h)
                &&& forall|x: int, y: int, k: int|
                    0 <= x < w && 0 <= y < h && 0 <= k < 3 ==> #[trigger] res->Ok_0.2@[3 * (y * w + x)
                        + k] == d@[4 * (source_pixel(crop, (w, h), x, y).1 * src.0 + source_pixel(
                        crop,
                        (w, h),
                        x,
                        y,
                    ).0) + channel_byte(bgra, k)]
            },
        },
{
    let d = match data {
        Some(d) => d,
        None => {
            return Err(CaptureError::NoCpuData);
        },
    };
    let len = d.len();
    proof {
        assert(0 <= src.0 as int * src.1 as int <= 0xffff_ffff * 0xffff_ffff) by (nonlinear_arith)
            requires
                0 <= src.0 <= 0xffff_ffff,
                0 <= src.1 <= 0xffff_ffff,
        ;
    }
    if (len as u128) < 4 * ((src.0 as u128) * (src.1 as u128)) {
        return Err(CaptureError::BufferTooSmall { len, width: src.0, height: src.1 });
    }
    let (mut cx, mut cy, mut cw, mut ch): (u32, u32, u32, u32) = match viewport {
        Some(v) => {
            let cx = if v.x <= src.0 - 1 { v.x } else { src.0 - 1 };
            let cy = if v.y <= src.1 - 1 { v.y } else { src.1 - 1 };
            let sw = if v.width >= 1 { v.width } else { 1 };
            let sh = if v.height >= 1 { v.height } else { 1 };
            (
                cx,
                cy,
                if sw <= src.0 { sw } else { src.0 },
                if sh <= src.1 { sh } else { src.1 },
            )
        },
        None => (0, 0, src.0, src.1),
    };
    let room_w = src.0 - cx;
    let room_h = src.1 - cy;
    cw = if cw <= room_w { cw } else { room_w };
    cw = if cw >= 1 { cw } else { 1 };
    ch = if ch <= room_h { ch } else { room_h };
    ch = if ch >= 1 { ch } else { 1 };
    let dst_w: u32 = if canvas.0 >= 1 { canvas.0 } else { 1 };
    let dst_h: u32 = if canvas.1 >= 1 { canvas.1 } else { 1 };
    let ghost w = dst_w as int;
    let ghost h = dst_h as int;
    let ghost crop = crop_rect(src, viewport);
    assert(crop == (cx as int, cy as int, cw as int, ch as int));
    let total: usize = 3 * ((dst_w as usize) * (dst_h as usize));
    let mut rgb: Vec<u8> = Vec::with_capacity(total);
    let mut y: u32 = 0;
    while y < dst_h
        invariant
            w == dst_w,
            h == dst_h,
            1 <= w,
            1 <= h,
            crop == (cx as int, cy as int, cw as int, ch as int),
            1 <= cw,
            cx as int + cw as int <= src.0,
            1 <= ch,
            cy as int + ch as int <= src.1,
            d@.len() >= 4 * (src.0 as int * src.1 as int),
            len == d@.len(),
            3 * (w * h) <= usize::MAX,
            y <= dst_h,
            rgb@.len() == 3 * (y as int * w),
            forall|xx: int, yy: int, k: int|
                0 <= xx < w && 0 <= yy < y && 0 <= k < 3 ==> #[trigger] rgb@[3 * (yy * w + xx) + k]
                    == d@[4 * (source_pixel(crop, (w, h), xx, yy).1 * src.0 + source_pixel(
                    crop,
                    (w, h),
                    xx,
                    yy,
                ).0) + channel_byte(bgra, k)],
        decreases dst_h - y,
    {
        proof {
            lemma_scaled_below(y as int, ch as int, h);
            assert(0 <= y as int * ch as int <= 0xffff_ffff * 0xffff_ffff) by (nonlinear_arith)
                requires
                    0 <= y <= 0xffff_ffff,
                    0 <= ch <= 0xffff_ffff,
            ;
        }
        let sy: u64 = (cy as u64) + (y as u64) * (ch as u64) / (dst_h as u64);
        let mut x: u32 = 0;
        while x < dst_w
            invariant
                w == dst_w,
                h == dst_h,
                1 <= w,
                1 <= h,
                crop == (cx as int, cy as int, cw as int, ch as int),
                1 <= cw,
                cx as int + cw as int <= src.0,
                1 <= ch,
                cy as int + ch as int <= src.1,
                d@.len() >= 4 * (src.0 as int * src.1 as int),
                len == d@.len(),
                3 * (w * h) <= usize::MAX,
                y < dst_h,
                x <= dst_w,
                sy == source_pixel(crop, (w, h), 0, y as int).1,
                sy < src.1,
                rgb@.len() == 3 * (y as int * w + x),
                forall|xx: int, yy: int, k: int|
                    0 <= xx < w && 0 <= yy < y && 0 <= k < 3 ==> #[trigger] rgb@[3 * (yy * w + xx)
                        + k] == d@[4 * (source_pixel(crop, (w, h), xx, yy).1 * src.0
                        + source_pixel(crop, (w, h), xx, yy).0) + channel_byte(bgra, k)],
                forall|xx: int, k: int|
                    0 <= xx < x && 0 <= k < 3 ==> #[trigger] rgb@[3 * (y * w + xx) + k] == d@[4 * (
                    source_pixel(crop, (w, h), xx, y as int).1 * src.0 + source_pixel(
                        crop,
                        (w, h),
                        xx,
                        y as int,
                    ).0) + channel_byte(bgra, k)],
            decreases dst_w - x,
        {
            proof {
                assert(0 <= x as int * cw as int <= 0xffff_ffff * 0xffff_ffff) by (nonlinear_arith)
                    requires
                        0 <= x <= 0xffff_ffff,
                        0 <= cw <= 0xffff_ffff,
                ;
                lemma_scaled_below(x as int, cw as int, w);
                lemma_row_major(w, h, x as int, y as int);
                lemma_row_major(src.0 as int, src.1 as int, (cx as int + (x as int * cw as int) / w), sy as int);
            }
            let sx: u64 = (cx as u64) + (x as u64) * (cw as u64) / (dst_w as u64);
            let si: usize = (4 * (sy * (src.0 as u64) + sx)) as usize;
            let ghost before = rgb@;
            if bgra {
                rgb.push(d[si + 2]);
                rgb.push(d[si + 1]);
                rgb.push(d[si]);
            } else {
                rgb.push(d[si]);
                rgb.push(d[si + 1]);
                rgb.push(d[si + 2]);
            }
            proof {
                assert forall|xx: int, k: int| 0 <= xx < x + 1 && 0 <= k < 3 implies #[trigger] rgb@[3 * (
                y * w + xx) + k] == d@[4 * (source_pixel(crop, (w, h), xx, y as int).1 * src.0
                    + source_pixel(crop, (w, h), xx, y as int).0) + channel_byte(bgra, k)] by {
                    if xx < x {
                        assert(rgb@[3 * (y * w + xx) + k] == before[3 * (y * w + xx) + k]);
                    }
                }
                assert forall|xx: int, yy: int, k: int|
                    0 <= xx < w && 0 <= yy < y && 0 <= k < 3 implies #[trigger] rgb@[3 * (yy * w
                    + xx) + k] == d@[4 * (source_pixel(crop, (w, h), xx, yy).1 * src.0
                    + source_pixel(crop, (w, h), xx, yy).0) + channel_byte(bgra, k)] by {
                    lemma_row_major(w, y as int, xx, yy);
                    assert(rgb@[3 * (yy * w + xx) + k] == before[3 * (yy * w + xx) + k]);
                }
            }
            x = x + 1;
        }
        proof {
            lemma_row_major(w, h, 0, y as int);
        }
        y = y + 1;
    }
    proof {
        assert(y as int * w == w * h) by (nonlinear_arith)
            requires
                y == h,
        ;
    }
    Ok((dst_w, dst_h, rgb))
}

} // verus!
