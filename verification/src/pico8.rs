//! The drawing and system API of the Pico-8 runtime, as the decisions it
//! takes on plain values: shape images, `exit`, `extcmd` and canvas setup.
use vstd::prelude::*;
use crate::raster::{Raster, clear_pixel};
use crate::circle::{circ_region, circfill_region};
use crate::ellipse::{oval_region, ovalfill_region};

verus! {

/// Size and colour depth of the Pico-8 screen.
pub struct N9Canvas {
    pub size: (u32, u32),
    pub bit_depth: u8,
}

impl Default for N9Canvas {
    /// The Pico-8 screen: 128 x 128 pixels, 4 bits per pixel.
    fn default() -> (c: Self)
        ensures
            c.size == (128u32, 128u32),
            c.bit_depth == 4,
    {
        N9Canvas { size: (128, 128), bit_depth: 4 }
    }
}

/// State of `extcmd`: the stem of the next screenshot, the directory
/// screenshots go to, whether a screenshot is being captured and whether
/// `shutdown` waits for it.
pub struct ExtcmdState {
    pub filename: Option<String>,
    pub screenshot_dir: String,
    pub capturing: bool,
    pub shutdown_after: bool,
}

/// How the application ends.
#[derive(PartialEq, Eq, Structural, Clone, Copy, Debug)]
pub enum ExitCode {
    Success,
    Error(u8),
}

/// What the runtime has to do after an `extcmd`.
#[derive(PartialEq, Eq, Structural, Clone, Copy, Debug)]
pub enum ExtcmdAction {
    /// Nothing beyond the state change.
    Done,
    /// Take a screenshot of the primary window.
    RequestScreenshot,
    /// Exit the application.
    Exit(ExitCode),
    /// The command is not one the runtime implements.
    NotImplemented,
}

/// The stem a screenshot is saved under when none was set.
pub open spec fn default_stem() -> Seq<char> {
    seq!['n', 'a', 'n', 'o', '9']
}

/// What `extcmd` reads and changes of its state: the screenshot stem, whether
/// a screenshot is being captured and whether a shutdown waits for it.
pub open spec fn extcmd_view(s: ExtcmdState) -> (Option<Seq<char>>, bool, bool) {
    (
        match s.filename {
            Some(f) => Some(f@),
            None => None,
        },
        s.capturing,
        s.shutdown_after,
    )
}

/// The text of an optional string argument.
pub open spec fn arg_view(a: Option<&str>) -> Option<Seq<char>> {
    match a {
        Some(t) => Some(t@),
        None => None,
    }
}

/// One `extcmd`: the state after it and what the runtime has to do.
pub open spec fn extcmd_step(st: (Option<Seq<char>>, bool, bool), cmd: Seq<char>, p1: Option<Seq<char>>) -> (
    (Option<Seq<char>>, bool, bool),
    ExtcmdAction,
) {
    let (stem, capturing, shutdown_after) = st;
    if cmd == "set_filename"@ {
        (
            (
                if p1 is Some {
                    p1
                } else {
                    stem
                },
                capturing,
                shutdown_after,
            ),
            ExtcmdAction::Done,
        )
    } else if cmd == "screen"@ {
        if capturing || shutdown_after {
            (st, ExtcmdAction::Done)
        } else {
            ((stem, true, shutdown_after), ExtcmdAction::RequestScreenshot)
        }
    } else if cmd == "shutdown"@ {
        if capturing {
            ((stem, capturing, true), ExtcmdAction::Done)
        } else {
            (st, ExtcmdAction::Exit(ExitCode::Success))
        }
    } else {
        (st, ExtcmdAction::NotImplemented)
    }
}

/// A screenshot has been saved: the state after it, and whether the
/// application exits because a shutdown waited for it.
pub open spec fn capture_done(st: (Option<Seq<char>>, bool, bool)) -> ((Option<Seq<char>>, bool, bool), bool) {
    ((st.0, false, st.2), st.2)
}

/// The file name of the next screenshot for stem `stem`.
pub open spec fn screenshot_name(stem: Option<Seq<char>>) -> Seq<char> {
    let base = match stem {
        Some(t) => t,
        None => default_stem(),
    };
    base + ".png"@
}

/// `s` spells `lit`.
fn str_is(s: &str, lit: &str) -> (b: bool)
    ensures
        b == (s@ == lit@),
{
    let n = s.unicode_len();
    let m = lit.unicode_len();
    if n != m {
        return false;
    }
    let mut i: usize = 0;
    while i < n
        invariant
            n == s@.len(),
            m == lit@.len(),
            n == m,
            i <= n,
            forall|j: int| 0 <= j < i ==> s@[j] == lit@[j],
        decreases n - i,
    {
        if s.get_char(i) != lit.get_char(i) {
            return false;
        }
        i = i + 1;
    }
    assert(s@ =~= lit@);
    true
}

impl ExtcmdState {
    /// No screenshot pending, no stem set, screenshots saved into `dir`.
    pub fn new(screenshot_dir: String) -> (s: Self)
        ensures
            s.filename is None,
            s.screenshot_dir == screenshot_dir,
            !s.capturing,
            !s.shutdown_after,
    {
        ExtcmdState { filename: None, screenshot_dir, capturing: false, shutdown_after: false }
    }

    /// The file name of the next screenshot: its stem (`nano9` unless one
    /// was set) followed by `.png`.
    pub fn screenshot_file_name(&self) -> (name: String)
        ensures
            name@ == screenshot_name(extcmd_view(*self).0),
    {
        let mut name = match &self.filename {
            Some(stem) => stem.clone(),
            None => "nano9".to_owned(),
        };
        proof {
            reveal_strlit("nano9");
        }
        name.append(".png");
        name
    }

    /// A screenshot has been saved: capturing is over. Returns whether a
    /// `shutdown` was waiting for it, in which case the application exits.
    pub fn finish_capture(&mut self) -> (exit: bool)
        ensures
            (extcmd_view(*final(self)), exit) == capture_done(extcmd_view(*old(self))),
            final(self).filename == old(self).filename,
            final(self).screenshot_dir == old(self).screenshot_dir,
    {
        self.capturing = false;
        self.shutdown_after
    }
}

/// The runtime state that the drawing and system calls read.
pub struct Pico8 {
    pub canvas: N9Canvas,
    pub extcmd: ExtcmdState,
}

/// Side of the square image a circle of radius `r` is drawn on.
pub open spec fn circle_image_side(r: int) -> int {
    2 * r + 1
}

/// `img` is a fresh `w` x `h` image drawn with `pen` where `region` holds
/// and transparent elsewhere.
pub open spec fn shape_image(img: Raster, w: int, h: int, pen: [u8; 4], region: spec_fn(int, int) -> bool) -> bool {
    &&& img.wf()
    &&& img.spec_width() == w
    &&& img.spec_height() == h
    &&& img.spec_pen() == pen
    &&& forall|a: int, b: int|
        img.in_bounds(a, b) ==> #[trigger] img.spec_pixel(a, b) == (if region(a, b) {
            pen
        } else {
            clear_pixel()
        })
}

/// Radii the circle calls accept: the image side fits in an `i32`
/// coordinate and the image in memory.
pub open spec fn circle_radius_ok(r: int) -> bool {
    0 <= r < 0x4000_0000 && circle_image_side(r) * circle_image_side(r) <= usize::MAX
}

/// Corners the ellipse calls accept: the rectangle's extent fits an `i32`
/// and its image fits in memory.
pub open spec fn oval_rect_ok(x0: int, y0: int, x1: int, y1: int) -> bool {
    let w = rect_extent(x0, x1);
    let h = rect_extent(y0, y1);
    w <= i32::MAX && h <= i32::MAX && w * h <= usize::MAX
}

impl Pico8 {
    /// The size of the canvas in logical pixels.
    pub fn canvas_size(&self) -> (s: (u32, u32))
        ensures
            s == self.canvas.size,
    {
        self.canvas.size
    }

    /// The exit status for `exit([error])`: success without an error code or
    /// with code zero, else that error code.
    pub fn exit(&self, error: Option<u8>) -> (code: ExitCode)
        ensures
            code == (match error {
                Some(n) => if n == 0 { ExitCode::Success } else { ExitCode::Error(n) },
                None => ExitCode::Success,
            }),
    {
        match error {
            Some(n) => if n == 0 { ExitCode::Success } else { ExitCode::Error(n) },
            None => ExitCode::Success,
        }
    }

    /// Pico-8 `extcmd(cmd, [p1])`. Supported: `set_filename` stores `p1` as
    /// the screenshot stem; `screen` starts a screenshot unless one is being
    /// taken or a shutdown waits; `shutdown` exits, after the screenshot if
    /// one is being taken. Other commands change nothing.
    pub fn extcmd(&mut self, cmd: &str, p1: Option<&str>) -> (act: ExtcmdAction)
        ensures
            final(self).canvas == old(self).canvas,
            final(self).extcmd.screenshot_dir == old(self).extcmd.screenshot_dir,
            (extcmd_view(final(self).extcmd), act) == extcmd_step(
                extcmd_view(old(self).extcmd),
                cmd@,
                arg_view(p1),
            ),
    {
        proof {
            lemma_commands_differ();
        }
        if str_is(cmd, "set_filename") {
            if let Some(name) = p1 {
                self.extcmd.filename = Some(name.to_owned());
            }
            ExtcmdAction::Done
        } else if str_is(cmd, "screen") {
            if self.extcmd.capturing || self.extcmd.shutdown_after {
                return ExtcmdAction::Done;
            }
            self.extcmd.capturing = true;
            ExtcmdAction::RequestScreenshot
        } else if str_is(cmd, "shutdown") {
            if self.extcmd.capturing {
                self.extcmd.shutdown_after = true;
                ExtcmdAction::Done
            } else {
                ExtcmdAction::Exit(self.exit(None))
            }
        } else {
            ExtcmdAction::NotImplemented
        }
    }
}

impl Pico8 {
    /// The image `circ` draws for radius `r`: a square of side `2r + 1`
    /// holding the outline centred in it, in `pen` on transparent black.
    pub fn circ(&self, r: u32, pen: [u8; 4]) -> (img: Raster)
        requires
            circle_radius_ok(r as int),
        ensures
            shape_image(
                img,
                circle_image_side(r as int),
                circle_image_side(r as int),
                pen,
                circ_region(r as int, r as int, r as int),
            ),
    {
        let radius = r as i32;
        let side: u32 = r * 2 + 1;
        let mut raster = Raster::new((side, side), pen);
        raster.circ(radius, radius, radius);
        raster
    }

    /// The image `circfill` draws for radius `r`: a square of side `2r + 1`
    /// holding the disc centred in it, in `pen` on transparent black.
    pub fn circfill(&self, r: u32, pen: [u8; 4]) -> (img: Raster)
        requires
            circle_radius_ok(r as int),
        ensures
            shape_image(
                img,
                circle_image_side(r as int),
                circle_image_side(r as int),
                pen,
                circfill_region(r as int, r as int, r as int),
            ),
    {
        let radius = r as i32;
        let side: u32 = r * 2 + 1;
        let mut raster = Raster::new((side, side), pen);
        raster.circfill(radius, radius, radius);
        raster
    }

    /// The image `oval` draws for the rectangle with corners `upper_left`
    /// and `lower_right` (in any order), and where its top-left pixel goes:
    /// an image exactly covering the rectangle, holding the inscribed
    /// outline in `pen` on transparent black.
    pub fn oval(&self, upper_left: (i32, i32), lower_right: (i32, i32), pen: [u8; 4]) -> (res: (
        Raster,
        (i32, i32),
    ))
        requires
            oval_rect_ok(upper_left.0 as int, upper_left.1 as int, lower_right.0 as int, lower_right.1 as int),
        ensures
            res.1.0 == if upper_left.0 <= lower_right.0 { upper_left.0 } else { lower_right.0 },
            res.1.1 == if upper_left.1 <= lower_right.1 { upper_left.1 } else { lower_right.1 },
            shape_image(
                res.0,
                rect_extent(upper_left.0 as int, lower_right.0 as int),
                rect_extent(upper_left.1 as int, lower_right.1 as int),
                pen,
                oval_region(
                    0,
                    0,
                    rect_extent(upper_left.0 as int, lower_right.0 as int) - 1,
                    rect_extent(upper_left.1 as int, lower_right.1 as int) - 1,
                ),
            ),
    {
        let (img, corner) = self.oval_image(upper_left, lower_right, pen, false);
        (img, corner)
    }

    /// The image `ovalfill` draws for the rectangle with corners
    /// `upper_left` and `lower_right` (in any order), and where its top-left
    /// pixel goes: an image exactly covering the rectangle, holding the
    /// inscribed filled ellipse in `pen` on transparent black.
    pub fn ovalfill(&self, upper_left: (i32, i32), lower_right: (i32, i32), pen: [u8; 4]) -> (res: (
        Raster,
        (i32, i32),
    ))
        requires
            oval_rect_ok(upper_left.0 as int, upper_left.1 as int, lower_right.0 as int, lower_right.1 as int),
        ensures
            res.1.0 == if upper_left.0 <= lower_right.0 { upper_left.0 } else { lower_right.0 },
            res.1.1 == if upper_left.1 <= lower_right.1 { upper_left.1 } else { lower_right.1 },
            shape_image(
                res.0,
                rect_extent(upper_left.0 as int, lower_right.0 as int),
                rect_extent(upper_left.1 as int, lower_right.1 as int),
                pen,
                ovalfill_region(
                    0,
                    0,
                    rect_extent(upper_left.0 as int, lower_right.0 as int) - 1,
                    rect_extent(upper_left.1 as int, lower_right.1 as int) - 1,
                ),
            ),
    {
        self.oval_image(upper_left, lower_right, pen, true)
    }

    fn oval_image(&self, upper_left: (i32, i32), lower_right: (i32, i32), pen: [u8; 4], fill: bool) -> (res: (
        Raster,
        (i32, i32),
    ))
        requires
            oval_rect_ok(upper_left.0 as int, upper_left.1 as int, lower_right.0 as int, lower_right.1 as int),
        ensures
            res.1.0 == if upper_left.0 <= lower_right.0 { upper_left.0 } else { lower_right.0 },
            res.1.1 == if upper_left.1 <= lower_right.1 { upper_left.1 } else { lower_right.1 },
            shape_image(
                res.0,
                rect_extent(upper_left.0 as int, lower_right.0 as int),
                rect_extent(upper_left.1 as int, lower_right.1 as int),
                pen,
                if fill {
                    ovalfill_region(
                        0,
                        0,
                        rect_extent(upper_left.0 as int, lower_right.0 as int) - 1,
                        rect_extent(upper_left.1 as int, lower_right.1 as int) - 1,
                    )
                } else {
                    oval_region(
                        0,
                        0,
                        rect_extent(upper_left.0 as int, lower_right.0 as int) - 1,
                        rect_extent(upper_left.1 as int, lower_right.1 as int) - 1,
                    )
                },
            ),
    {
        let mut x0 = upper_left.0;
        let mut y0 = upper_left.1;
        let mut x1 = lower_right.0;
        let mut y1 = lower_right.1;
        if x0 > x1 {
            let t = x0;
            x0 = x1;
            x1 = t;
        }
        if y0 > y1 {
            let t = y0;
            y0 = y1;
            y1 = t;
        }
        let size: (u32, u32) = ((x1 - x0 + 1) as u32, (y1 - y0 + 1) as u32);
        let mut raster = Raster::new(size, pen);
        if fill {
            raster.ovalfill(0, 0, x1 - x0, y1 - y0);
        } else {
            raster.oval(0, 0, x1 - x0, y1 - y0);
        }
        (raster, (x0, y0))
    }
}

/// A `shutdown` while a screenshot is being captured does not exit at once:
/// the capture goes on, and the application exits when it is saved.
pub proof fn law_shutdown_waits_for_screenshot(st: (Option<Seq<char>>, bool, bool), p1: Option<Seq<char>>)
    requires
        st.1,
    ensures
        extcmd_step(st, "shutdown"@, p1).1 == ExtcmdAction::Done,
        extcmd_step(st, "shutdown"@, p1).0.1,
        capture_done(extcmd_step(st, "shutdown"@, p1).0).1,
{
    lemma_commands_differ();
}

/// One screenshot at a time: while one is being captured, or once a
/// shutdown waits, `screen` changes nothing and requests nothing.
pub proof fn law_one_screenshot_at_a_time(st: (Option<Seq<char>>, bool, bool), p1: Option<Seq<char>>)
    ensures
        extcmd_step(st, "screen"@, p1).1 == ExtcmdAction::RequestScreenshot
            ==> extcmd_step(extcmd_step(st, "screen"@, p1).0, "screen"@, p1) == (
            extcmd_step(st, "screen"@, p1).0,
            ExtcmdAction::Done,
        ),
        st.1 || st.2 ==> extcmd_step(st, "screen"@, p1) == (st, ExtcmdAction::Done),
{
    lemma_commands_differ();
}

/// The next screenshot is saved under the name set with `set_filename`,
/// and any other command, or the end of a capture, keeps that stem.
pub proof fn law_set_filename_names_screenshot(
    st: (Option<Seq<char>>, bool, bool),
    name: Seq<char>,
    cmd: Seq<char>,
    p1: Option<Seq<char>>,
)
    requires
        cmd != "set_filename"@,
    ensures
        screenshot_name(extcmd_step(st, "set_filename"@, Some(name)).0.0) == name + ".png"@,
        extcmd_step(extcmd_step(st, "set_filename"@, Some(name)).0, cmd, p1).0.0 == Some(name),
        capture_done(extcmd_step(st, "set_filename"@, Some(name)).0).0.0 == Some(name),
{
    lemma_commands_differ();
}

/// `set_filename` with a name makes it the stem and touches nothing else;
/// without a name it changes nothing at all.
pub proof fn law_set_filename(st: (Option<Seq<char>>, bool, bool), name: Option<Seq<char>>)
    ensures
        extcmd_step(st, "set_filename"@, name).1 == ExtcmdAction::Done,
        name is None ==> extcmd_step(st, "set_filename"@, name).0 == st,
        name matches Some(n) ==> extcmd_step(st, "set_filename"@, name).0 == (Some(n), st.1, st.2),
{
}

proof fn lemma_commands_differ()
    ensures
        "shutdown"@ != "screen"@,
        "shutdown"@ != "set_filename"@,
        "screen"@ != "set_filename"@,
{
    reveal_strlit("set_filename");
    reveal_strlit("screen");
    reveal_strlit("shutdown");
    assert("shutdown"@.len() == 8);
    assert("screen"@.len() == 6);
    assert("set_filename"@.len() == 12);
}

/// The number of pixels from `v0` to `v1`, both included.
pub open spec fn rect_extent(v0: int, v1: int) -> int {
    if v0 <= v1 { v1 - v0 + 1 } else { v0 - v1 + 1 }
}

} // verus!
