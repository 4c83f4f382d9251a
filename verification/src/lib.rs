//! A handwriting-driven text editor core: ink gesture classification over a
//! fixed character grid, a point-cloud shape matcher with an adaptive template
//! learner, and a coordinate-addressed text buffer with reversible edits.

pub mod text_buffer;
pub mod geom;
pub mod points;
pub mod ink_type;
pub mod text_window;
pub mod hwr;
pub mod config;
pub mod wrap;
