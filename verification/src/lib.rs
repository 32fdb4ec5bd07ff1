//! Core logic of a small 2D particle-visualization helper.
//!
//! The library keeps the parts of the visualizer that are plain data and
//! decisions: the key/value text overlays, the per-particle mini-text
//! lifecycle with its index cache, the line-fitting (truncation) algorithm,
//! and the pause / single-step gating of the frame loop. Rendering, input
//! polling and the floating-point camera arithmetic live outside, in the
//! host application that drives the frame loop.

pub mod config;
pub mod gui;
pub mod text;
