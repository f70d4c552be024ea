//! The demo world: textures, placement, input and diagnostics.

pub mod args;
pub mod font;
pub mod input;
pub mod rng;
pub mod scene;
pub mod single;
pub mod sort_report;
pub mod textures;
pub mod wolf;
