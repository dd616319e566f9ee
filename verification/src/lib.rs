//! Verified core of a retro-futuristic dashboard for the Thermalright
//! Hyper Vision 360 liquid-cooler panel.
//!
//! * [`daemon`] — the render loop's state and one turn of the loop.
//! * [`mascot`] — the mascot's mood machine and the telemetry throttle.
//! * [`quotes`] — the overload quotes and the choice of their language.
//! * [`render`] — layout, HUD and the composition of a frame.
//! * [`rain`] — the Matrix digital rain behind the mascot.
//! * [`canvas`] — pixel buffers, text, sprites and JPEG encoding.
//! * [`screen`] — the panel's USB protocol: setup, handshake, frame transfer.
//! * [`jpeg`] — JPEG header inspection.
//! * [`png`] — PNG chunk inspection.
//! * [`error`] — errors from the panel.
//! * [`telemetry`] — sensor discovery and the hardware snapshot.
//! * [`prng`] — the Xorshift64 generators behind idle timing and rain.
//! * [`single`] — single-precision rounding and readings, on integers.
//! * [`text`] — trimming, number parsing and number formatting.

use vstd::prelude::*;

pub mod canvas;
pub mod daemon;
pub mod error;
pub mod jpeg;
pub mod mascot;
pub mod png;
pub mod prng;
pub mod quotes;
pub mod rain;
pub mod render;
pub mod screen;
pub mod single;
pub mod telemetry;
pub mod text;

verus! {

} // verus!
