use nano9::raster::Raster;

const PEN: [u8; 4] = [255, 0, 77, 255];

fn lit(r: &Raster) -> Vec<(i64, i64)> {
    let mut out = Vec::new();
    for y in 0..r.height() {
        for x in 0..r.width() {
            if r.pixel(x, y) == PEN {
                out.push((x as i64, y as i64));
            }
        }
    }
    out
}

fn sorted(mut v: Vec<(i64, i64)>) -> Vec<(i64, i64)> {
    v.sort_by_key(|&(x, y)| (y, x));
    v.dedup();
    v
}

/// Offsets from a centre, as absolute pixels.
fn around(cx: i64, cy: i64, offsets: &[(i64, i64)]) -> Vec<(i64, i64)> {
    sorted(offsets.iter().map(|&(dx, dy)| (cx + dx, cy + dy)).collect())
}

fn eightfold(points: &[(i64, i64)]) -> Vec<(i64, i64)> {
    let mut v = Vec::new();
    for &(a, b) in points {
        for (sx, sy) in [(1, 1), (-1, 1), (1, -1), (-1, -1)] {
            v.push((sx * a, sy * b));
            v.push((sx * b, sy * a));
        }
    }
    v
}

#[test]
fn circ_radius_zero_is_the_centre() {
    let mut r = Raster::new((3, 3), PEN);
    r.circ(1, 1, 0);
    assert_eq!(lit(&r), vec![(1, 1)]);
}

#[test]
fn circ_negative_radius_draws_nothing() {
    let mut r = Raster::new((3, 3), PEN);
    r.circ(1, 1, -3);
    assert!(lit(&r).is_empty());
}

#[test]
fn circ_radius_five_follows_the_midpoint_octant() {
    let mut r = Raster::new((11, 11), PEN);
    r.circ(5, 5, 5);
    let expected = around(5, 5, &eightfold(&[(5, 0), (5, 1), (5, 2), (4, 3)]));
    assert_eq!(sorted(lit(&r)), expected);
}

#[test]
fn circ_pixels_are_close_to_the_circle() {
    let r0 = 9i64;
    let mut r = Raster::new((19, 19), PEN);
    r.circ(9, 9, r0 as i32);
    for (x, y) in lit(&r) {
        let (dx, dy) = (x - 9, y - 9);
        let excess = (dx * dx + dy * dy - r0 * r0).abs();
        assert!(excess <= dx.abs().max(dy.abs()), "({dx}, {dy}) is too far off");
        assert!(dx.abs() <= r0 && dy.abs() <= r0);
    }
    for (x, y) in [(18, 9), (0, 9), (9, 0), (9, 18)] {
        assert_eq!(r.pixel(x, y), PEN);
    }
}

#[test]
fn circfill_small_radii() {
    let mut r = Raster::new((3, 3), PEN);
    r.circfill(1, 1, 0);
    assert_eq!(lit(&r), vec![(1, 1)]);
    let mut r = Raster::new((3, 3), PEN);
    r.circfill(1, 1, 1);
    assert_eq!(sorted(lit(&r)), around(1, 1, &[(0, -1), (-1, 0), (0, 0), (1, 0), (0, 1)]));
    let mut r = Raster::new((3, 3), PEN);
    r.circfill(1, 1, -1);
    assert!(lit(&r).is_empty());
}

#[test]
fn circfill_radius_two_spans() {
    let mut r = Raster::new((5, 5), PEN);
    r.circfill(2, 2, 2);
    let mut expected = Vec::new();
    for dy in -1..=1 {
        for dx in -2..=2 {
            expected.push((dx, dy));
        }
    }
    for dy in [-2, 2] {
        for dx in -1..=1 {
            expected.push((dx, dy));
        }
    }
    assert_eq!(sorted(lit(&r)), around(2, 2, &expected));
}

#[test]
fn circfill_is_mirror_symmetric_and_solid() {
    let mut r = Raster::new((21, 21), PEN);
    r.circfill(10, 10, 10);
    let pts = lit(&r);
    for &(x, y) in &pts {
        assert_eq!(r.pixel((20 - x) as u32, y as u32), PEN);
        assert_eq!(r.pixel(x as u32, (20 - y) as u32), PEN);
        let (lo, hi) = if x <= 10 { (x, 10) } else { (10, x) };
        for c in lo..=hi {
            assert_eq!(r.pixel(c as u32, y as u32), PEN);
        }
    }
}

#[test]
fn oval_in_seven_by_five_box() {
    let mut r = Raster::new((7, 5), PEN);
    r.oval(0, 0, 6, 4);
    let expected = around(
        3,
        2,
        &[
            (-1, -2), (0, -2), (1, -2),
            (-3, -1), (-2, -1), (2, -1), (3, -1),
            (-3, 0), (3, 0),
            (-3, 1), (-2, 1), (2, 1), (3, 1),
            (-1, 2), (0, 2), (1, 2),
        ],
    );
    assert_eq!(sorted(lit(&r)), expected);
}

#[test]
fn oval_corners_in_any_order() {
    let mut a = Raster::new((7, 5), PEN);
    a.oval(6, 4, 0, 0);
    let mut b = Raster::new((7, 5), PEN);
    b.oval(0, 0, 6, 4);
    assert_eq!(lit(&a), lit(&b));
}

#[test]
fn ovalfill_in_seven_by_five_box() {
    let mut r = Raster::new((7, 5), PEN);
    r.ovalfill(0, 0, 6, 4);
    let mut expected = Vec::new();
    for dx in -1..=1 {
        expected.push((dx, -2));
        expected.push((dx, 2));
    }
    for dy in -1..=1 {
        for dx in -3..=3 {
            expected.push((dx, dy));
        }
    }
    assert_eq!(sorted(lit(&r)), around(3, 2, &expected));
}

#[test]
fn degenerate_ovals() {
    let mut r = Raster::new((5, 1), PEN);
    r.oval(0, 0, 4, 0);
    assert_eq!(sorted(lit(&r)), vec![(0, 0), (2, 0), (4, 0)]);
    let mut r = Raster::new((5, 1), PEN);
    r.ovalfill(0, 0, 4, 0);
    assert_eq!(lit(&r).len(), 5);
    let mut r = Raster::new((1, 1), PEN);
    r.oval(0, 0, 0, 0);
    assert_eq!(lit(&r), vec![(0, 0)]);
}

#[test]
fn oval_lies_inside_ovalfill_and_box() {
    for (w, h) in [(16u32, 9u32), (9, 16), (30, 30), (2, 7)] {
        let mut outline = Raster::new((w, h), PEN);
        outline.oval(0, 0, w as i32 - 1, h as i32 - 1);
        let mut fill = Raster::new((w, h), PEN);
        fill.ovalfill(0, 0, w as i32 - 1, h as i32 - 1);
        for (x, y) in lit(&outline) {
            assert_eq!(fill.pixel(x as u32, y as u32), PEN);
        }
        let cx = ((w - 1) / 2) as i64;
        let cy = ((h - 1) / 2) as i64;
        for (x, y) in lit(&fill) {
            let mx = 2 * cx - x;
            let my = 2 * cy - y;
            assert!(mx >= 0 && my >= 0);
            assert_eq!(fill.pixel(mx as u32, y as u32), PEN);
            assert_eq!(fill.pixel(x as u32, my as u32), PEN);
        }
    }
}

#[test]
fn circ_lies_inside_circfill() {
    for radius in 0..=40i32 {
        let side = (2 * radius + 1) as u32;
        let mut outline = Raster::new((side, side), PEN);
        outline.circ(radius, radius, radius);
        let mut fill = Raster::new((side, side), PEN);
        fill.circfill(radius, radius, radius);
        let ring = lit(&outline);
        assert!(!ring.is_empty());
        for (x, y) in ring {
            assert_eq!(fill.pixel(x as u32, y as u32), PEN, "radius {radius} at ({x}, {y})");
        }
    }
}

fn inside_circle(r: i64, w: i64, b: i64) -> bool {
    w * w + b * b - w.max(b) < r * r
}

#[test]
fn circfill_is_the_inside_of_the_circle() {
    for radius in 1..=40i64 {
        let side = (2 * radius + 1) as u32;
        let mut fill = Raster::new((side, side), PEN);
        fill.circfill(radius as i32, radius as i32, radius as i32);
        for y in 0..side {
            for x in 0..side {
                let w = (x as i64 - radius).abs();
                let b = (y as i64 - radius).abs();
                assert_eq!(fill.pixel(x, y) == PEN, inside_circle(radius, w, b), "radius {radius} at ({x}, {y})");
            }
        }
    }
}

#[test]
fn circ_is_the_rim_of_circfill() {
    for radius in 0..=40i32 {
        let side = (2 * radius + 3) as u32;
        let mut outline = Raster::new((side, side), PEN);
        outline.circ(radius + 1, radius + 1, radius);
        let mut fill = Raster::new((side, side), PEN);
        fill.circfill(radius + 1, radius + 1, radius);
        let on = |x: u32, y: u32| fill.pixel(x, y) == PEN;
        for y in 1..side - 1 {
            for x in 1..side - 1 {
                let rim = on(x, y) && !(on(x + 1, y) && on(x - 1, y) && on(x, y + 1) && on(x, y - 1));
                assert_eq!(outline.pixel(x, y) == PEN, rim, "radius {radius} at ({x}, {y})");
            }
        }
    }
}

#[test]
fn oval_with_odd_extent_needs_only_the_drawn_pixels() {
    // The box is 6 wide and 3 high, but the semi-axes are 2 and 1, so only
    // columns 0..=4 are drawn: a 5 x 3 raster is enough.
    let mut outline = Raster::new((5, 3), PEN);
    outline.oval(0, 0, 5, 2);
    assert_eq!(sorted(lit(&outline)), sorted(vec![(2, 0), (2, 2), (4, 1), (0, 1), (1, 0), (3, 0), (1, 2), (3, 2)]));
    let mut fill = Raster::new((5, 3), PEN);
    fill.ovalfill(5, 2, 0, 0);
    for (x, y) in lit(&outline) {
        assert_eq!(fill.pixel(x as u32, y as u32), PEN);
    }
}
