use vstd::prelude::*;

pub mod text;
pub mod lines;
pub mod token;
pub mod score;
pub mod v3;
pub mod parser;
pub mod parse_notes;
pub mod synth;
pub mod midi;
pub mod keyed;
pub mod display;
pub mod log;
pub mod console;
pub mod tui;
pub mod cli;
pub mod input;
pub mod progress;
pub mod playback;
pub mod panel;

verus! {

} // verus!
