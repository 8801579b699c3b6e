use nano9::palette::{IndexedImage, PColor, PaletteMap, PsetError};
use nano9::pico8::{ExtcmdState, N9Canvas, Pico8};

fn pico8() -> Pico8 {
    Pico8 { canvas: N9Canvas::default(), extcmd: ExtcmdState::new(String::from("shots")) }
}

#[test]
fn cls_defaults_to_the_clear_colour() {
    let p = pico8();
    assert_eq!(p.cls(None, 0), PColor::Palette(0));
    assert_eq!(p.cls(Some(PColor::Palette(8)), 0), PColor::Palette(8));
    assert_eq!(p.cls(Some(PColor::Rgba(1, 2, 3, 255)), 5), PColor::Rgba(1, 2, 3, 255));
}

#[test]
fn palette_map_remaps_or_reduces() {
    let identity = PaletteMap { remap: vec![] };
    assert_eq!(identity.map_or_mod(21), 21);
    let pal = PaletteMap { remap: vec![3, 2, 1, 0] };
    assert_eq!(pal.map_or_mod(1), 2);
    assert_eq!(pal.map_or_mod(6), 2);
}

#[test]
fn pset_writes_the_mapped_pen_or_colour() {
    let p = pico8();
    let pal = PaletteMap { remap: vec![0, 1, 2, 3, 4, 5, 6, 7, 8, 9, 10, 11, 12, 13, 14, 15] };
    let mut canvas = IndexedImage::new(128, 128);
    assert_eq!(p.pset(&mut canvas, (3, 4), None, PColor::Palette(7), &pal), Ok(()));
    assert_eq!(canvas.get(3, 4), 7);
    assert_eq!(p.pset(&mut canvas, (3, 4), Some(PColor::Palette(18)), PColor::Palette(7), &pal), Ok(()));
    assert_eq!(canvas.get(3, 4), 2);
    assert_eq!(canvas.get(4, 3), 0);
}

#[test]
fn pset_off_the_canvas_is_an_error() {
    let p = pico8();
    let pal = PaletteMap { remap: vec![] };
    let mut canvas = IndexedImage::new(8, 8);
    assert_eq!(
        p.pset(&mut canvas, (8, 0), Some(PColor::Palette(300)), PColor::Palette(1), &pal),
        Err(PsetError::InvalidArgument { index: 44, x: 8, y: 0 })
    );
    for y in 0..8 {
        for x in 0..8 {
            assert_eq!(canvas.get(x, y), 0);
        }
    }
}
