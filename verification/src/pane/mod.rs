//! Panes and what is attached to them.
pub mod input;
pub mod paint;
pub mod state;
pub mod view;
