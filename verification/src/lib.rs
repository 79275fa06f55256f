//! Decoder for LST list-mode files produced by multi-detector beam scanning
//! instruments: a textual header followed by a stream of 32-bit little-endian
//! event words. The decoder classifies each word, tracks the beam position,
//! expands variable-length hit payloads, and accumulates counts into a packed
//! 3-D histogram that is then sliced into per-detector cubes and summed into
//! computed group cubes.

pub mod cube;
pub mod events;
pub mod helpers;
pub mod text;
pub mod config;
pub mod models;
pub mod laws;
pub mod stream;
