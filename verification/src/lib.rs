//! Build 2x2 photo collages.
//!
//! The library has two independent parts: a deterministic image pipeline
//! (decode, center-crop to a square, resize, compose four squares onto a
//! bordered canvas) and a selection state machine that drives an interactive
//! file browser (directory navigation plus a bounded, ordered selection of
//! image paths).
//!
//! Paths are handled as byte strings, exactly as the operating system hands
//! them over; callers convert from `OsString` at the boundary.

use vstd::prelude::*;

pub mod collage;
pub mod explorer;
pub mod utils;

pub use collage::{create_collage, load_and_process_image};
pub use explorer::{FileExplorer, TuiConfig};
pub use utils::is_image_file;

verus! {

} // verus!
