use std::sync::atomic::{AtomicUsize, Ordering};
use std::sync::Arc;

use herdr::pane::input::{Key, Mouse, Selection, ViewKeyOutcome};
use herdr::pane::paint::{Area, Color, Palette, Picture};
use herdr::pane::state::{PaneAttachment, PaneState};
use herdr::pane::view::{ViewKind, ViewPaneState};

#[derive(Default, Clone)]
struct Counts {
    keys: Arc<AtomicUsize>,
    mouse: Arc<AtomicUsize>,
    files_changed: Arc<AtomicUsize>,
}

#[derive(Default)]
struct Placeholder {
    counts: Counts,
}

impl ViewKind for Placeholder {
    fn title(&self) -> String {
        "view (test)".to_string()
    }
    fn render(&self, _area: Area, _focused: bool, _palette: &Palette) -> Option<Picture> {
        None
    }
    fn handle_key(&mut self, _key: Key) -> ViewKeyOutcome {
        self.counts.keys.fetch_add(1, Ordering::Relaxed);
        ViewKeyOutcome::Handled
    }
    fn handle_mouse(&mut self, _event: Mouse, _area: Area) -> ViewKeyOutcome {
        self.counts.mouse.fetch_add(1, Ordering::Relaxed);
        ViewKeyOutcome::Handled
    }
    fn on_files_changed(&mut self, _paths: &[String]) {
        self.counts.files_changed.fetch_add(1, Ordering::Relaxed);
    }
    fn refresh(&mut self) {}
    fn wire_descriptor(&self) -> (String, serde_json::Value) {
        ("test".to_string(), serde_json::Value::Null)
    }
}

#[derive(Debug, Clone, PartialEq, Eq)]
struct TerminalId(u32);

fn new_view_placeholder() -> PaneState<TerminalId> {
    PaneState::new_view(Box::new(Placeholder::default()))
}

#[test]
fn pty_constructor_sets_attachment() {
    let tid = TerminalId(1);
    let pane = PaneState::new_pty(tid.clone());
    assert_eq!(pane.terminal_id(), Some(&tid));
    assert!(matches!(pane.attachment(), PaneAttachment::Pty { .. }));
}

#[test]
fn view_placeholder_has_no_terminal() {
    let pane = new_view_placeholder();
    assert_eq!(pane.terminal_id(), None);
    assert!(matches!(pane.attachment(), PaneAttachment::View(_)));
}

#[test]
fn new_panes_count_as_seen() {
    assert!(PaneState::new_pty(TerminalId(3)).seen);
    assert!(new_view_placeholder().seen);
}

#[test]
fn attachment_can_be_replaced() {
    let mut pane = new_view_placeholder();
    *pane.attachment_mut() = PaneAttachment::Pty { terminal_id: TerminalId(9) };
    assert_eq!(pane.terminal_id(), Some(&TerminalId(9)));
    let PaneAttachment::Pty { terminal_id } = pane.into_attachment() else {
        panic!("expected a terminal");
    };
    assert_eq!(terminal_id, TerminalId(9));
}

#[test]
fn events_reach_the_view() {
    let counts = Counts::default();
    let mut state = ViewPaneState::new(Box::new(Placeholder { counts: counts.clone() }));
    let area = Area { x: 0, y: 0, width: 10, height: 10 };
    assert_eq!(state.kind_mut().handle_key(Key::Enter), ViewKeyOutcome::Handled);
    assert_eq!(state.kind_mut().handle_mouse(Mouse::ScrollUp, area), ViewKeyOutcome::Handled);
    state.kind_mut().on_files_changed(&[]);
    assert_eq!(counts.keys.load(Ordering::Relaxed), 1);
    assert_eq!(counts.mouse.load(Ordering::Relaxed), 1);
    assert_eq!(counts.files_changed.load(Ordering::Relaxed), 1);
    assert_eq!(state.kind().title(), "view (test)");
    assert_eq!(state.kind().wire_descriptor().0, "test");
}

#[test]
fn view_kinds_neither_scroll_nor_select_by_default() {
    let view = Placeholder::default();
    let sel = Selection { start_row: 0, start_col: 0, end_row: 3, end_col: 3 };
    assert_eq!(view.scroll_offset(), 0);
    assert_eq!(view.extract_selection(&sel), None);
    let palette = Palette {
        accent: Color::Blue,
        panel_bg: Color::Reset,
        surface_dim: Color::Black,
        overlay0: Color::Gray,
        blue: Color::Blue,
        teal: Color::Cyan,
        green: Color::Green,
        red: Color::Red,
        yellow: Color::Yellow,
    };
    let area = Area { x: 0, y: 0, width: 1, height: 1 };
    assert!(view.render(area, true, &palette).is_none());
}
