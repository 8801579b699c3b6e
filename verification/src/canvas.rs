//! The screen canvas: its background and the pixel canvases `pset` writes.
use vstd::prelude::*;
use crate::raster::{Raster, raster_side};
use crate::pico8::{N9Canvas, shape_image};

verus! {

/// Most pixel canvases alive at once.
pub const MAX_PIXEL_CANVASES: usize = 8;

/// The one-colour background spawned behind a new canvas: a single white
/// pixel stretched to the canvas size.
pub struct OneColorBackground {
    pub image: Raster,
    pub custom_size: (u32, u32),
}

/// The background to spawn for the canvas resource, if any: one when the
/// canvas exists and was just added.
pub fn setup_canvas(canvas: Option<&N9Canvas>, added: bool) -> (bg: Option<OneColorBackground>)
    ensures
        bg is Some <==> (canvas is Some && added),
        bg matches Some(b) ==> {
            &&& b.custom_size == canvas.unwrap().size
            &&& shape_image(b.image, 1, 1, [0xffu8, 0xffu8, 0xffu8, 0xffu8], |a: int, c: int| true)
        },
{
    match canvas {
        None => None,
        Some(c) => {
            if added {
                assert(raster_side(1) == 1);
                assert(raster_side(1) * raster_side(1) == 1) by (nonlinear_arith)
                    requires
                        raster_side(1) == 1,
                ;
                let mut image = Raster::new((1, 1), [0xff, 0xff, 0xff, 0xff]);
                image.plot(0, 0);
                Some(OneColorBackground { image, custom_size: c.size })
            } else {
                None
            }
        },
    }
}

/// A screen-sized canvas that `pset` writes, as the reuse decision sees it:
/// its entity, whether it is shown, and the draw count it was issued at.
#[derive(PartialEq, Eq, Structural, Clone, Copy, Debug)]
pub struct PixelCanvas {
    pub entity: u64,
    pub visible: bool,
    pub draw_count: usize,
}

/// Where `pset` writes.
#[derive(PartialEq, Eq, Structural, Clone, Copy, Debug)]
pub enum PixelCanvasChoice {
    /// The latest visible canvas is still the last thing drawn: keep
    /// writing it.
    Reuse(u64),
    /// Show a hidden canvas again, cleared.
    Resurrect(u64),
    /// The cap is reached: write the latest visible canvas anyway.
    ReuseAtCap(u64),
    /// The cap is reached and no canvas is visible.
    NoneAtCap,
    /// Spawn a new canvas.
    SpawnNew,
}

/// Entry `i` is the latest visible canvas: visible, with the greatest draw
/// count among the visible ones, and the last such.
pub open spec fn is_latest_visible(s: Seq<PixelCanvas>, i: int) -> bool {
    &&& 0 <= i < s.len()
    &&& s[i].visible
    &&& forall|j: int| 0 <= j < s.len() && s[j].visible ==> s[j].draw_count <= s[i].draw_count
    &&& forall|j: int| i < j < s.len() && s[j].visible ==> s[j].draw_count < s[i].draw_count
}

/// Entry `i` is the last hidden canvas.
pub open spec fn is_last_hidden(s: Seq<PixelCanvas>, i: int) -> bool {
    &&& 0 <= i < s.len()
    &&& !s[i].visible
    &&& forall|j: int| i < j < s.len() ==> s[j].visible
}

/// The latest visible canvas was issued just before the current draw.
pub open spec fn latest_is_current(s: Seq<PixelCanvas>, counter: int) -> bool {
    exists|i: int| is_latest_visible(s, i) && counter == s[i].draw_count + 1
}

pub open spec fn some_visible(s: Seq<PixelCanvas>) -> bool {
    exists|i: int| 0 <= i < s.len() && s[i].visible
}

pub open spec fn some_hidden(s: Seq<PixelCanvas>) -> bool {
    exists|i: int| 0 <= i < s.len() && !s[i].visible
}

/// Chooses the canvas `pset` writes, given the pixel canvases in query order
/// and the current draw counter.
pub fn choose_pixel_canvas(canvases: &Vec<PixelCanvas>, counter: usize) -> (c: PixelCanvasChoice)
    requires
        forall|j: int| 0 <= j < canvases@.len() ==> #[trigger] canvases@[j].draw_count < usize::MAX,
    ensures
        match c {
            PixelCanvasChoice::Reuse(e) => exists|i: int|
                is_latest_visible(canvases@, i) && canvases@[i].entity == e && counter
                    == canvases@[i].draw_count + 1,
            PixelCanvasChoice::Resurrect(e) => !latest_is_current(canvases@, counter as int)
                && exists|i: int| is_last_hidden(canvases@, i) && canvases@[i].entity == e,
            PixelCanvasChoice::ReuseAtCap(e) => !latest_is_current(canvases@, counter as int)
                && !some_hidden(canvases@) && canvases@.len() >= MAX_PIXEL_CANVASES && exists|i: int|
                is_latest_visible(canvases@, i) && canvases@[i].entity == e,
            PixelCanvasChoice::NoneAtCap => !latest_is_current(canvases@, counter as int)
                && !some_hidden(canvases@) && canvases@.len() >= MAX_PIXEL_CANVASES && !some_visible(
                canvases@,
            ),
            PixelCanvasChoice::SpawnNew => !latest_is_current(canvases@, counter as int)
                && !some_hidden(canvases@) && canvases@.len() < MAX_PIXEL_CANVASES,
        },
{
    let n = canvases.len();
    let mut latest: Option<(u64, usize)> = None;
    let mut latest_at: usize = 0;
    let mut hidden: Option<u64> = None;
    let mut hidden_at: usize = 0;
    let mut count: usize = 0;
    let mut k: usize = 0;
    while k < n
        invariant
            n == canvases@.len(),
            k <= n,
            count == k,
            latest is None <==> !some_visible(canvases@.take(k as int)),
            latest matches Some(l) ==> {
                &&& is_latest_visible(canvases@.take(k as int), latest_at as int)
                &&& l.0 == canvases@[latest_at as int].entity
                &&& l.1 == canvases@[latest_at as int].draw_count
            },
            hidden is None <==> !some_hidden(canvases@.take(k as int)),
            hidden matches Some(h) ==> is_last_hidden(canvases@.take(k as int), hidden_at as int)
                && h == canvases@[hidden_at as int].entity,
        decreases n - k,
    {
        let e = canvases[k];
        let ghost pre = canvases@.take(k as int);
        let ghost post = canvases@.take(k + 1);
        assert(post =~= pre.push(e));
        count = count + 1;
        if e.visible {
            let take = match latest {
                None => true,
                Some((_, dc)) => e.draw_count >= dc,
            };
            if take {
                latest = Some((e.entity, e.draw_count));
                latest_at = k;
            }
        } else {
            hidden = Some(e.entity);
            hidden_at = k;
        }
        proof {
            if e.visible {
                assert(post[k as int].visible);
            } else {
                assert(!post[k as int].visible);
            }
            if hidden is Some && !e.visible {
                assert(is_last_hidden(post, k as int));
            }
            if hidden is Some && e.visible {
                assert(is_last_hidden(post, hidden_at as int));
            }
            if !(hidden is Some) {
                assert forall|i: int| 0 <= i < post.len() implies post[i].visible by {
                    if i < k {
                        assert(post[i] == pre[i]);
                    }
                }
            }
            if latest is Some {
                assert(is_latest_visible(post, latest_at as int));
            }
            if !(latest is Some) {
                assert forall|i: int| 0 <= i < post.len() implies !post[i].visible by {
                    if i < k {
                        assert(post[i] == pre[i]);
                    }
                }
            }
        }
        k = k + 1;
    }
    proof {
        assert(canvases@.take(n as int) =~= canvases@);
    }
    let needs_new = match latest {
        Some((_, dc)) => counter != dc + 1,
        None => true,
    };
    proof {
        if latest is Some {
            assert forall|i: int| is_latest_visible(canvases@, i) implies i == latest_at as int by {
                if i < latest_at {
                    assert(canvases@[latest_at as int].draw_count < canvases@[i].draw_count);
                } else if i > latest_at {
                    assert(canvases@[i].draw_count < canvases@[latest_at as int].draw_count);
                }
            }
        }
        if latest is None {
            assert forall|i: int| !is_latest_visible(canvases@, i) by {
                if 0 <= i < canvases@.len() && canvases@[i].visible {
                    assert(some_visible(canvases@));
                }
            }
        }
    }
    if !needs_new {
        match latest {
            Some((entity, _)) => {
                return PixelCanvasChoice::Reuse(entity);
            },
            None => {
                return PixelCanvasChoice::SpawnNew;
            },
        }
    }
    if let Some(entity) = hidden {
        return PixelCanvasChoice::Resurrect(entity);
    }
    if count >= MAX_PIXEL_CANVASES {
        if let Some((entity, _)) = latest {
            return PixelCanvasChoice::ReuseAtCap(entity);
        }
        return PixelCanvasChoice::NoneAtCap;
    }
    PixelCanvasChoice::SpawnNew
}

/// What the window-resize system does in a frame.
#[derive(PartialEq, Eq, Structural, Clone, Copy, Debug)]
pub struct ResizeStep {
    /// Fit the canvas to the window now.
    pub fit_now: bool,
    /// Keep waiting for the canvas and camera.
    pub still_pending: bool,
}

/// One frame of the resize latch: armed by a resize of the primary window or
/// by an earlier one still pending; it fits when everything is ready and
/// stays pending otherwise.
pub open spec fn resize_step(pending: bool, primary_resized: bool, ready: bool) -> ResizeStep {
    ResizeStep {
        fit_now: (pending || primary_resized) && ready,
        still_pending: (pending || primary_resized) && !ready,
    }
}

/// Whether the latch fits the canvas in some frame of `frames`, each a pair
/// of "the primary window was resized" and "canvas, camera and window are
/// ready", starting with `pending`.
pub open spec fn fits_during(pending: bool, frames: Seq<(bool, bool)>) -> bool
    decreases frames.len(),
{
    if frames.len() == 0 {
        false
    } else {
        let step = resize_step(pending, frames[0].0, frames[0].1);
        step.fit_now || fits_during(step.still_pending, frames.drop_first())
    }
}

proof fn lemma_armed_latch_fits(frames: Seq<(bool, bool)>, j: int)
    requires
        0 <= j < frames.len(),
        frames[j].1,
    ensures
        fits_during(true, frames),
    decreases frames.len(),
{
    if !frames[0].1 {
        assert(frames.drop_first()[j - 1] == frames[j]);
        lemma_armed_latch_fits(frames.drop_first(), j - 1);
    }
}

/// A resize of the primary window is not lost: if it comes in frame `i`
/// and everything is ready in frame `j` at or after it, the canvas is
/// fitted in some frame, however many frames it waited in between.
pub proof fn law_resize_not_lost(pending: bool, frames: Seq<(bool, bool)>, i: int, j: int)
    requires
        0 <= i <= j < frames.len(),
        frames[i].0,
        frames[j].1,
    ensures
        fits_during(pending, frames),
    decreases frames.len(),
{
    let step = resize_step(pending, frames[0].0, frames[0].1);
    if !step.fit_now {
        if i == 0 {
            assert(frames.drop_first()[j - 1] == frames[j]);
            lemma_armed_latch_fits(frames.drop_first(), j - 1);
        } else {
            assert(frames.drop_first()[i - 1] == frames[i]);
            assert(frames.drop_first()[j - 1] == frames[j]);
            law_resize_not_lost(step.still_pending, frames.drop_first(), i - 1, j - 1);
        }
    }
}

/// Without a resize and with nothing pending, the canvas is never refitted.
pub proof fn law_no_resize_no_fit(frames: Seq<(bool, bool)>)
    requires
        forall|k: int| 0 <= k < frames.len() ==> !(#[trigger] frames[k]).0,
    ensures
        !fits_during(false, frames),
    decreases frames.len(),
{
    if frames.len() > 0 {
        assert(!frames[0].0);
        assert forall|k: int| 0 <= k < frames.drop_first().len() implies !(#[trigger] frames.drop_first()[k]).0 by {
            assert(frames.drop_first()[k] == frames[k + 1]);
        }
        law_no_resize_no_fit(frames.drop_first());
    }
}

/// Whether the latch is armed before run `k` of `frames`, starting armed as
/// `pending`.
pub open spec fn pending_before(pending: bool, frames: Seq<(bool, bool)>, k: int) -> bool
    decreases k,
{
    if k <= 0 {
        pending
    } else {
        resize_step(pending_before(pending, frames, k - 1), frames[k - 1].0, frames[k - 1].1).still_pending
    }
}

/// What run `k` of `frames` does.
pub open spec fn step_at(pending: bool, frames: Seq<(bool, bool)>, k: int) -> ResizeStep {
    resize_step(pending_before(pending, frames, k), frames[k].0, frames[k].1)
}

proof fn lemma_latch_held(pending: bool, frames: Seq<(bool, bool)>, n: int, m: int, k: int)
    requires
        0 <= n < k <= m < frames.len(),
        frames[n].0,
        forall|j: int| n <= j < m ==> !(#[trigger] frames[j]).1,
    ensures
        pending_before(pending, frames, k),
    decreases k - n,
{
    if k - 1 > n {
        lemma_latch_held(pending, frames, n, m, k - 1);
    }
    assert(!frames[k - 1].1);
}

/// A resize of the primary window read in run `n` is applied exactly at the
/// first run `m` at or after it where the canvas, its camera and a single
/// primary window are ready: the runs before change nothing and keep the
/// latch armed, run `m` fits and clears the latch.
pub proof fn law_resize_fits_at_first_ready_run(pending: bool, frames: Seq<(bool, bool)>, n: int, m: int)
    requires
        0 <= n <= m < frames.len(),
        frames[n].0,
        forall|j: int| n <= j < m ==> !(#[trigger] frames[j]).1,
        frames[m].1,
    ensures
        forall|j: int| n <= j < m ==> !(#[trigger] step_at(pending, frames, j)).fit_now && step_at(pending, frames, j).still_pending,
        step_at(pending, frames, m).fit_now,
        !step_at(pending, frames, m).still_pending,
        !pending_before(pending, frames, m + 1),
{
    assert forall|j: int| n <= j < m implies !(#[trigger] step_at(pending, frames, j)).fit_now && step_at(
        pending,
        frames,
        j,
    ).still_pending by {
        if j > n {
            lemma_latch_held(pending, frames, n, m, j);
        }
        assert(!frames[j].1);
    }
    if m > n {
        lemma_latch_held(pending, frames, n, m, m);
    }
}

/// A run with no resize event while the latch is clear changes nothing and
/// leaves it clear.
pub proof fn law_clear_latch_idle(pending: bool, frames: Seq<(bool, bool)>, k: int)
    requires
        0 <= k < frames.len(),
        !pending_before(pending, frames, k),
        !frames[k].0,
    ensures
        !step_at(pending, frames, k).fit_now,
        !pending_before(pending, frames, k + 1),
{
}

/// The resize latch of `sync_window_size`: a resize of the primary window
/// arms it; it stays armed until the canvas, its camera and a single
/// primary window exist, and the fit then happens once.
pub fn sync_window_size(pending: bool, primary_resized: bool, ready: bool) -> (step: ResizeStep)
    ensures
        step == resize_step(pending, primary_resized, ready),
{
    let armed = pending || primary_resized;
    if !armed {
        return ResizeStep { fit_now: false, still_pending: false };
    }
    if !ready {
        return ResizeStep { fit_now: false, still_pending: true };
    }
    ResizeStep { fit_now: true, still_pending: false }
}

/// What the camera system does in a frame.
#[derive(PartialEq, Eq, Structural, Clone, Copy, Debug)]
pub enum CameraStep {
    Nothing,
    /// Move the camera dolly to the centre of the resized canvas.
    RecentreDolly,
    /// Spawn the dolly and its camera; when headless, the camera renders
    /// into an image target.
    SpawnCamera { image_target: bool },
}

/// The camera system's decision, from whether the canvas resource exists,
/// was just added or changed, whether a canvas render target is already
/// set, whether a dolly exists and whether the run is headless.
pub fn spawn_camera(
    canvas: bool,
    added: bool,
    changed: bool,
    has_render_target: bool,
    has_dolly: bool,
    headless: bool,
) -> (step: CameraStep)
    ensures
        step == (if !canvas {
            CameraStep::Nothing
        } else if has_render_target {
            if changed && has_dolly {
                CameraStep::RecentreDolly
            } else {
                CameraStep::Nothing
            }
        } else if added {
            CameraStep::SpawnCamera { image_target: headless }
        } else if changed && has_dolly {
            CameraStep::RecentreDolly
        } else {
            CameraStep::Nothing
        }),
{
    if !canvas {
        return CameraStep::Nothing;
    }
    if has_render_target {
        if changed && has_dolly {
            return CameraStep::RecentreDolly;
        }
        return CameraStep::Nothing;
    }
    if added {
        CameraStep::SpawnCamera { image_target: headless }
    } else if changed && has_dolly {
        CameraStep::RecentreDolly
    } else {
        CameraStep::Nothing
    }
}

} // verus!
