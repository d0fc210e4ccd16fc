//! Coordinate translation over a rope: byte offsets, lines, byte columns and
//! UTF-16 protocol positions, with every operation clamped rather than failing.

pub mod char_indices;
pub mod encoding;
pub mod lines;
pub mod rope;
pub mod rope_text;
pub mod theorems;
