//! What a pane holds.
use vstd::prelude::*;

use super::view::{ViewKind, ViewPaneState};

verus! {

/// What's attached to a pane: a live PTY terminal, or a non-PTY view kind
/// (diff / file / tree / ...).
pub enum PaneAttachment<TerminalId> {
    Pty { terminal_id: TerminalId },
    View(ViewPaneState),
}

/// Viewport state for a pane.
///
/// Terminal identity, cwd, labels, and agent metadata live with the terminal.
pub struct PaneState<TerminalId> {
    pub attachment: PaneAttachment<TerminalId>,
    /// Whether the user has seen this pane since its last state change to Idle.
    /// False = "Done" (agent finished while user was in another workspace).
    pub seen: bool,
}

impl<TerminalId> PaneState<TerminalId> {
    pub fn new_pty(terminal_id: TerminalId) -> (pane: Self)
        ensures
            pane.attachment == (PaneAttachment::Pty { terminal_id }),
            pane.seen,
    {
        PaneState { attachment: PaneAttachment::Pty { terminal_id }, seen: true }
    }

    pub fn new_view(kind: Box<dyn ViewKind>) -> (pane: Self)
        ensures
            pane.attachment matches PaneAttachment::View(view) && view.kind == kind,
            pane.seen,
    {
        let view = ViewPaneState { kind };
        PaneState { attachment: PaneAttachment::View(view), seen: true }
    }

    /// The terminal of a pane that has one.
    pub fn terminal_id(&self) -> (id: Option<&TerminalId>)
        ensures
            id == (match &self.attachment {
                PaneAttachment::Pty { terminal_id } => Some(terminal_id),
                PaneAttachment::View(_) => None,
            }),
    {
        match &self.attachment {
            PaneAttachment::Pty { terminal_id } => Some(terminal_id),
            PaneAttachment::View(_) => None,
        }
    }

    pub fn attachment(&self) -> (attachment: &PaneAttachment<TerminalId>)
        ensures
            *attachment == self.attachment,
    {
        &self.attachment
    }

    pub fn attachment_mut(&mut self) -> (attachment: &mut PaneAttachment<TerminalId>)
        ensures
            *attachment == old(self).attachment,
            final(self).attachment == *final(attachment),
            final(self).seen == old(self).seen,
    {
        &mut self.attachment
    }

    pub fn into_attachment(self) -> (attachment: PaneAttachment<TerminalId>)
        ensures
            attachment == self.attachment,
    {
        self.attachment
    }
}

} // verus!
