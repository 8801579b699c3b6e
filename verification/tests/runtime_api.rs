use nano9::canvas::{
    choose_pixel_canvas, setup_canvas, spawn_camera, sync_window_size, CameraStep, PixelCanvasChoice,
    PixelCanvas, ResizeStep,
};
use nano9::pico8::{ExitCode, ExtcmdAction, ExtcmdState, N9Canvas, Pico8};
use nano9::screenshot::{screenshot_rgb, CaptureError, Viewport};

const PEN: [u8; 4] = [41, 173, 255, 255];

fn pico8() -> Pico8 {
    Pico8 { canvas: N9Canvas::default(), extcmd: ExtcmdState::new(String::from("shots")) }
}

#[test]
fn default_canvas_is_pico8_screen() {
    let c = N9Canvas::default();
    assert_eq!(c.size, (128, 128));
    assert_eq!(c.bit_depth, 4);
    assert_eq!(pico8().canvas_size(), (128, 128));
}

#[test]
fn circle_images_are_centred_squares() {
    let p = pico8();
    let img = p.circ(4, PEN);
    assert_eq!((img.width(), img.height()), (9, 9));
    assert_eq!(img.pixel(8, 4), PEN);
    assert_eq!(img.pixel(4, 4), [0, 0, 0, 0]);
    let img = p.circfill(4, PEN);
    assert_eq!((img.width(), img.height()), (9, 9));
    assert_eq!(img.pixel(4, 4), PEN);
    let img = p.circ(0, PEN);
    assert_eq!((img.width(), img.height()), (1, 1));
    assert_eq!(img.pixel(0, 0), PEN);
}

#[test]
fn oval_images_cover_the_rectangle() {
    let p = pico8();
    let (img, corner) = p.oval((16, 30), (10, 20), PEN);
    assert_eq!(corner, (10, 20));
    assert_eq!((img.width(), img.height()), (7, 11));
    assert_eq!(img.pixel(3, 0), PEN);
    assert_eq!(img.pixel(0, 5), PEN);
    assert_eq!(img.pixel(3, 5), [0, 0, 0, 0]);
    let (img, corner) = p.ovalfill((-3, 4), (3, 8), PEN);
    assert_eq!(corner, (-3, 4));
    assert_eq!((img.width(), img.height()), (7, 5));
    assert_eq!(img.pixel(3, 2), PEN);
    assert_eq!(img.pixel(0, 0), [0, 0, 0, 0]);
}

#[test]
fn exit_codes() {
    let p = pico8();
    assert_eq!(p.exit(None), ExitCode::Success);
    assert_eq!(p.exit(Some(0)), ExitCode::Success);
    assert_eq!(p.exit(Some(3)), ExitCode::Error(3));
}

#[test]
fn extcmd_set_filename_and_screenshot_name() {
    let mut p = pico8();
    assert_eq!(p.extcmd.screenshot_file_name(), "nano9.png");
    assert_eq!(p.extcmd("set_filename", None), ExtcmdAction::Done);
    assert_eq!(p.extcmd.filename, None);
    assert_eq!(p.extcmd("set_filename", Some("cart")), ExtcmdAction::Done);
    assert_eq!(p.extcmd.filename.as_deref(), Some("cart"));
    assert_eq!(p.extcmd.screenshot_file_name(), "cart.png");
}

#[test]
fn extcmd_screen_then_shutdown_waits_for_capture() {
    let mut p = pico8();
    assert_eq!(p.extcmd("screen", None), ExtcmdAction::RequestScreenshot);
    assert!(p.extcmd.capturing);
    assert_eq!(p.extcmd("screen", None), ExtcmdAction::Done);
    assert_eq!(p.extcmd("shutdown", None), ExtcmdAction::Done);
    assert!(p.extcmd.shutdown_after);
    assert_eq!(p.extcmd("screen", None), ExtcmdAction::Done);
    assert!(p.extcmd.finish_capture());
    assert!(!p.extcmd.capturing);
}

#[test]
fn extcmd_shutdown_without_capture_exits() {
    let mut p = pico8();
    assert_eq!(p.extcmd("shutdown", None), ExtcmdAction::Exit(ExitCode::Success));
    assert!(!p.extcmd.shutdown_after);
    assert_eq!(p.extcmd("reset", Some("x")), ExtcmdAction::NotImplemented);
    assert!(!p.extcmd.finish_capture());
}

#[test]
fn stem_survives_other_commands_and_capture() {
    let mut p = pico8();
    assert_eq!(p.extcmd("set_filename", Some("level1")), ExtcmdAction::Done);
    assert_eq!(p.extcmd("screen", None), ExtcmdAction::RequestScreenshot);
    assert_eq!(p.extcmd("pause", None), ExtcmdAction::NotImplemented);
    assert!(!p.extcmd.finish_capture());
    assert_eq!(p.extcmd.screenshot_file_name(), "level1.png");
    assert_eq!(p.extcmd.screenshot_dir, "shots");
}

fn entry(entity: u64, visible: bool, draw_count: usize) -> PixelCanvas {
    PixelCanvas { entity, visible, draw_count }
}

#[test]
fn pixel_canvas_choices() {
    assert_eq!(choose_pixel_canvas(&vec![], 5), PixelCanvasChoice::SpawnNew);
    let v = vec![entry(1, true, 3), entry(2, true, 4), entry(3, true, 4)];
    assert_eq!(choose_pixel_canvas(&v, 5), PixelCanvasChoice::Reuse(3));
    assert_eq!(choose_pixel_canvas(&v, 7), PixelCanvasChoice::SpawnNew);
    let v = vec![entry(1, false, 0), entry(2, true, 4), entry(9, false, 1)];
    assert_eq!(choose_pixel_canvas(&v, 7), PixelCanvasChoice::Resurrect(9));
    assert_eq!(choose_pixel_canvas(&v, 5), PixelCanvasChoice::Reuse(2));
    let full: Vec<_> = (0..8).map(|i| entry(i, true, i as usize)).collect();
    assert_eq!(choose_pixel_canvas(&full, 100), PixelCanvasChoice::ReuseAtCap(7));
}

#[test]
fn setup_canvas_spawns_background_once() {
    let c = N9Canvas::default();
    assert!(setup_canvas(None, true).is_none());
    assert!(setup_canvas(Some(&c), false).is_none());
    let bg = setup_canvas(Some(&c), true).expect("background");
    assert_eq!(bg.custom_size, (128, 128));
    assert_eq!((bg.image.width(), bg.image.height()), (1, 1));
    assert_eq!(bg.image.pixel(0, 0), [255, 255, 255, 255]);
}

#[test]
fn screenshot_errors() {
    assert_eq!(screenshot_rgb(None, (4, 2), false, None, (2, 1)), Err(CaptureError::NoCpuData));
    let short = vec![0u8; 31];
    assert_eq!(
        screenshot_rgb(Some(&short), (4, 2), false, None, (2, 1)),
        Err(CaptureError::BufferTooSmall { len: 31, width: 4, height: 2 })
    );
}

fn capture_4x2() -> Vec<u8> {
    let mut data = Vec::new();
    for i in 0..8u8 {
        data.extend_from_slice(&[10 * i, 10 * i + 1, 10 * i + 2, 255]);
    }
    data
}

#[test]
fn screenshot_scales_by_nearest_neighbour() {
    let data = capture_4x2();
    let (w, h, rgb) = screenshot_rgb(Some(&data), (4, 2), false, None, (2, 1)).unwrap();
    assert_eq!((w, h), (2, 1));
    assert_eq!(rgb, vec![0, 1, 2, 20, 21, 22]);
    let (_, _, rgb) = screenshot_rgb(Some(&data), (4, 2), true, None, (2, 1)).unwrap();
    assert_eq!(rgb, vec![2, 1, 0, 22, 21, 20]);
}

#[test]
fn screenshot_of_canvas_size_copies_pixels() {
    let data = capture_4x2();
    let whole = Viewport { x: 0, y: 0, width: 4, height: 2 };
    let (w, h, rgb) = screenshot_rgb(Some(&data), (4, 2), false, Some(whole), (4, 2)).unwrap();
    assert_eq!((w, h), (4, 2));
    let mut expected = Vec::new();
    for i in 0..8u8 {
        expected.extend_from_slice(&[10 * i, 10 * i + 1, 10 * i + 2]);
    }
    assert_eq!(rgb, expected);
}

#[test]
fn screenshot_crops_to_viewport() {
    let data = capture_4x2();
    let vp = Viewport { x: 1, y: 1, width: 100, height: 100 };
    let (w, h, rgb) = screenshot_rgb(Some(&data), (4, 2), false, Some(vp), (0, 0)).unwrap();
    assert_eq!((w, h), (1, 1));
    assert_eq!(rgb, vec![50, 51, 52]);
}

#[test]
fn resize_latch_waits_for_canvas() {
    assert_eq!(sync_window_size(false, false, true), ResizeStep { fit_now: false, still_pending: false });
    assert_eq!(sync_window_size(false, true, false), ResizeStep { fit_now: false, still_pending: true });
    assert_eq!(sync_window_size(true, false, false), ResizeStep { fit_now: false, still_pending: true });
    assert_eq!(sync_window_size(true, false, true), ResizeStep { fit_now: true, still_pending: false });
}

#[test]
fn resize_latch_holds_across_frames() {
    // A resize before the canvas exists, two frames of waiting, then ready.
    let frames = [(true, false), (false, false), (false, false), (false, true), (false, true)];
    let mut pending = false;
    let mut fits = Vec::new();
    for (resized, ready) in frames {
        let step = sync_window_size(pending, resized, ready);
        fits.push(step.fit_now);
        pending = step.still_pending;
    }
    assert_eq!(fits, vec![false, false, false, true, false]);
    assert!(!pending);
}

#[test]
fn camera_decisions() {
    assert_eq!(spawn_camera(false, true, true, false, false, false), CameraStep::Nothing);
    assert_eq!(spawn_camera(true, true, true, false, false, true), CameraStep::SpawnCamera { image_target: true });
    assert_eq!(spawn_camera(true, true, true, false, false, false), CameraStep::SpawnCamera { image_target: false });
    assert_eq!(spawn_camera(true, false, true, false, true, false), CameraStep::RecentreDolly);
    assert_eq!(spawn_camera(true, false, true, true, true, false), CameraStep::RecentreDolly);
    assert_eq!(spawn_camera(true, true, true, true, false, false), CameraStep::Nothing);
    assert_eq!(spawn_camera(true, false, false, false, true, false), CameraStep::Nothing);
}
