//! Views that can stand in a pane in place of a terminal.
use vstd::prelude::*;

use super::input::{Key, Mouse, Selection, ViewKeyOutcome};
use super::paint::{Area, Palette, Picture};

verus! {

/// A pluggable view-pane kind (diff / file / tree / ...).
pub trait ViewKind: Send {
    /// Title shown in the pane border.
    fn title(&self) -> String;

    /// What to paint in `area`. `focused` is true when this pane has keyboard
    /// focus. View kinds are responsible for their own unfocused styling.
    fn render(&self, area: Area, focused: bool, palette: &Palette) -> Option<Picture>;

    /// How many rows of content sit above the current viewport. Zero for kinds
    /// that don't scroll.
    fn scroll_offset(&self) -> (offset: u16)
        default_ensures
            offset == 0,
    {
        0
    }

    /// The text covered by `sel`, for clipboard copy. `None` for kinds that
    /// don't support selection.
    fn extract_selection(&self, _sel: &Selection) -> (text: Option<String>)
        default_ensures
            text is None,
    {
        None
    }

    /// Handle a keyboard event routed to this pane.
    fn handle_key(&mut self, key: Key) -> ViewKeyOutcome;

    /// Handle a mouse event routed to this pane, whose inner area is `area`.
    fn handle_mouse(&mut self, event: Mouse, area: Area) -> ViewKeyOutcome;

    fn on_files_changed(&mut self, paths: &[String]);

    /// Manual refresh hook.
    fn refresh(&mut self);

    /// The wire-level identifier and serialized options of this kind, so the
    /// server can describe it back to clients and persist it.
    fn wire_descriptor(&self) -> (String, serde_json::Value);
}

/// The state of a pane that holds a view. The parameter is always the box; with
/// it the box is moved in as it is, and no new trait object is made of it.
pub struct ViewPaneState<Kind = Box<dyn ViewKind>> {
    pub kind: Kind,
}

impl ViewPaneState {
    pub fn new(kind: Box<dyn ViewKind>) -> (state: Self)
        ensures
            state.kind == kind,
    {
        let state = ViewPaneState { kind };
        state
    }

    pub fn kind(&self) -> (kind: &Box<dyn ViewKind>)
        ensures
            *kind == self.kind,
    {
        &self.kind
    }

    pub fn kind_mut(&mut self) -> (kind: &mut Box<dyn ViewKind>)
        ensures
            *kind == old(self).kind,
            final(self).kind == *final(kind),
    {
        &mut self.kind
    }
}

} // verus!
