//! Text and escape-sequence logic of a terminal effects overlay.

pub mod params;
pub mod sgr;
pub mod screen;
pub mod effects;
pub mod encode;
pub mod color;
pub mod renderer;
pub mod display;
pub mod input;
pub mod terminal;
pub mod random;
pub mod lightning;
pub mod rain;
pub mod matrix;
