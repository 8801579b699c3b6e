//! Pixel rasterisation and drawing decisions of the Nano-9 Pico-8 runtime.
//!
//! The library holds the parts of the runtime that compute: shape plotting
//! into an RGBA pixel buffer, screenshot down-sampling, pixel-canvas reuse and
//! the small state machines behind `extcmd`, `exit` and canvas setup.
use vstd::prelude::*;

pub mod raster;
pub mod circle;
pub mod ellipse;
pub mod pico8;
pub mod canvas;
pub mod screenshot;
pub mod lua_values;
pub mod palette;

verus! {

} // verus!
