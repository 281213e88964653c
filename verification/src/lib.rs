//! Flattening of nested audio sources into a playable timeline, with the
//! queue, metadata and formatting logic of the player around it.
use vstd::prelude::*;

pub mod audio;
pub mod cli;
pub mod cover;
pub mod error;
pub mod laws;
pub mod media;
pub mod playback;
pub mod playlist;
pub mod queue;
pub mod resolve;
pub mod scan;
pub mod source;
pub mod style;
pub mod tags;
pub mod text;
pub mod time;
pub mod timeline;
pub mod transport;

verus! {
} // verus!
