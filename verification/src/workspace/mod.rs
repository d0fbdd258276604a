//! Workspaces and what happens in their directories.
pub mod path;
pub mod watch;
