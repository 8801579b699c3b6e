use nano9::raster::{sort_rect, Raster};

const PEN: [u8; 4] = [255, 241, 232, 255];
const CLEAR: [u8; 4] = [0, 0, 0, 0];

fn lit(r: &Raster) -> Vec<(u32, u32)> {
    let mut out = Vec::new();
    for y in 0..r.height() {
        for x in 0..r.width() {
            let p = r.pixel(x, y);
            if p == PEN {
                out.push((x, y));
            } else {
                assert_eq!(p, CLEAR, "pixel ({x}, {y}) is neither pen nor clear");
            }
        }
    }
    out
}

#[test]
fn new_raster_is_clear_and_at_least_one_pixel() {
    let r = Raster::new((0, 0), PEN);
    assert_eq!(r.width(), 1);
    assert_eq!(r.height(), 1);
    assert_eq!(r.pen(), PEN);
    assert_eq!(r.pixel(0, 0), CLEAR);
    let r = Raster::new((3, 2), PEN);
    assert_eq!((r.width(), r.height()), (3, 2));
    assert!(lit(&r).is_empty());
}

#[test]
fn plot_sets_exactly_one_pixel() {
    let mut r = Raster::new((4, 3), PEN);
    r.plot(2, 1);
    assert_eq!(lit(&r), vec![(2, 1)]);
}

#[test]
fn hline_and_vline_accept_either_order() {
    let mut a = Raster::new((5, 5), PEN);
    a.hline(3, 1, 2);
    assert_eq!(lit(&a), vec![(1, 2), (2, 2), (3, 2)]);
    let mut b = Raster::new((5, 5), PEN);
    b.hline(1, 3, 2);
    assert_eq!(lit(&a), lit(&b));
    let mut c = Raster::new((5, 5), PEN);
    c.vline(4, 2, 0);
    assert_eq!(lit(&c), vec![(0, 2), (0, 3), (0, 4)]);
}

#[test]
fn hline_of_one_column_is_a_plot() {
    let mut a = Raster::new((4, 4), PEN);
    a.hline(2, 2, 3);
    let mut b = Raster::new((4, 4), PEN);
    b.plot(2, 3);
    assert_eq!(lit(&a), lit(&b));
}

#[test]
fn plot_mirrored_sets_four_reflections() {
    let mut r = Raster::new((7, 7), PEN);
    r.plot_mirrored(3, 3, 2, 1);
    assert_eq!(lit(&r), vec![(1, 2), (5, 2), (1, 4), (5, 4)]);
}

#[test]
fn sort_rect_orders_corners() {
    let (mut x0, mut y0, mut x1, mut y1) = (9, -2, 3, 7);
    sort_rect(&mut x0, &mut y0, &mut x1, &mut y1);
    assert_eq!((x0, y0, x1, y1), (3, -2, 9, 7));
}

#[test]
fn rgba_bytes_are_row_major() {
    let mut r = Raster::new((2, 2), PEN);
    r.plot(1, 0);
    let bytes = r.rgba_bytes();
    assert_eq!(bytes.len(), 16);
    assert_eq!(&bytes[0..4], &CLEAR);
    assert_eq!(&bytes[4..8], &PEN);
    assert_eq!(&bytes[8..16], &[0u8; 8]);
}

#[test]
fn painting_twice_is_painting_once() {
    let mut once = Raster::new((9, 9), PEN);
    once.circfill(4, 4, 3);
    let mut twice = Raster::new((9, 9), PEN);
    twice.circfill(4, 4, 3);
    twice.circfill(4, 4, 3);
    assert_eq!(lit(&once), lit(&twice));
}

#[test]
fn drawing_order_does_not_matter() {
    let mut a = Raster::new((12, 12), PEN);
    a.circ(5, 5, 4);
    a.ovalfill(1, 2, 10, 8);
    let mut b = Raster::new((12, 12), PEN);
    b.ovalfill(10, 8, 1, 2);
    b.circ(5, 5, 4);
    assert_eq!(lit(&a), lit(&b));
}
