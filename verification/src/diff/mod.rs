//! The diff view: what `git diff` prints, parsed, navigated and rendered.
pub mod meaning;
pub mod parser;
pub mod render;
pub mod rows;
pub mod scope;
pub mod selection;
pub mod view;
pub mod wire;
