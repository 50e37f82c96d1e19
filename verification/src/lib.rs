//! A toolkit of small, verified building blocks for games: deterministic
//! random streams, musical scales, number and text formatting, a source-size
//! gate, and a WAV container writer.

pub mod rng;
pub mod score;
pub mod series;
pub mod settings;
pub mod source_gate;
pub mod strip;
pub mod synth;
pub mod text;
pub mod ui;

