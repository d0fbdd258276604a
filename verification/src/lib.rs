//! Pane views for a terminal workspace manager: the diff view with its parser,
//! navigation and rendering, the pane attachments that hold views, the batching
//! of file-system changes, and the command line that opens a view.
//!
//! Everything here computes on plain values. Running `git`, watching the file
//! system and painting a terminal are left to the caller.
use vstd::prelude::*;

pub mod cli;
pub mod diff;
pub mod order;
pub mod pane;
pub mod text;
pub mod workspace;

verus! {

} // verus!
