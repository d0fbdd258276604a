use herdr::diff::parser::parse_unified_diff;
use herdr::diff::render::{header_contrast_fg, truncate_to_width};
use herdr::diff::rows::{count_rows, file_positions, hunk_positions, list_rows, RowKind};
use herdr::diff::scope::{
    detect_default_baseline, scope_args, BaselineStep, DiffScope, DiffViewOptions,
};
use herdr::diff::selection::slice_columns;
use herdr::diff::view::{failure_message, DiffView, GitRun, ViewAction, MAX_DIFF_LINES};
use herdr::pane::input::{Key, Mouse, Selection, ViewKeyOutcome};
use herdr::pane::paint::{Area, Color, Palette, StyledLine};

const DIFF: &str = "\
diff --git a/a.txt b/a.txt
--- a/a.txt
+++ b/a.txt
@@ -1,2 +1,2 @@ top
 line one
-line two
+NEW LINE
diff --git a/old.rs b/new.rs
rename from old.rs
rename to new.rs
@@ -5 +5 @@
-x
+y
@@ -9 +9,0 @@
-z
diff --git a/i.png b/i.png
Binary files a/i.png and b/i.png differ
";

const AREA: Area = Area { x: 0, y: 0, width: 80, height: 8 };

fn options(scope: DiffScope) -> DiffViewOptions {
    DiffViewOptions { baseline: "main".into(), scope }
}

fn finished(text: &str) -> GitRun {
    GitRun::Finished { stdout: text.as_bytes().to_vec() }
}

fn view_of(text: &str) -> DiffView {
    DiffView::new(options(DiffScope::Unstaged), finished(text))
}

fn palette() -> Palette {
    Palette {
        accent: Color::Rgb(1, 2, 3),
        panel_bg: Color::Indexed(4),
        surface_dim: Color::Black,
        overlay0: Color::Gray,
        blue: Color::Blue,
        teal: Color::Cyan,
        green: Color::Green,
        red: Color::Red,
        yellow: Color::Yellow,
    }
}

fn line(text: &str, fg: Color) -> StyledLine {
    StyledLine { text: text.to_string(), fg, bg: None, bold: false }
}

#[test]
fn detect_default_baseline_prefers_main() {
    assert_eq!(
        detect_default_baseline(&[]),
        BaselineStep::Probe {
            args: vec!["rev-parse".into(), "--verify".into(), "refs/heads/main".into()]
        }
    );
    assert_eq!(detect_default_baseline(&[true]), BaselineStep::Found("main".into()));
    assert_eq!(detect_default_baseline(&[true, true]), BaselineStep::Found("main".into()));
}

#[test]
fn detect_default_baseline_falls_back_to_master() {
    assert_eq!(
        detect_default_baseline(&[false]),
        BaselineStep::Probe {
            args: vec!["rev-parse".into(), "--verify".into(), "refs/heads/master".into()]
        }
    );
    assert_eq!(detect_default_baseline(&[false, true]), BaselineStep::Found("master".into()));
}

#[test]
fn detect_default_baseline_returns_none_on_unborn_repo() {
    assert_eq!(detect_default_baseline(&[false, false]), BaselineStep::NotFound);
    assert_eq!(detect_default_baseline(&[false, false, true]), BaselineStep::NotFound);
}

#[test]
fn options_are_resolved() {
    let given = DiffViewOptions::resolve(Some("dev".into()), Some("main".into()), None);
    assert_eq!(
        given,
        Some(DiffViewOptions { baseline: "dev".into(), scope: DiffScope::All })
    );
    let detected = DiffViewOptions::resolve(None, Some("main".into()), Some(DiffScope::Staged));
    assert_eq!(
        detected,
        Some(DiffViewOptions { baseline: "main".into(), scope: DiffScope::Staged })
    );
    assert_eq!(DiffViewOptions::resolve(None, None, Some(DiffScope::All)), None);
}

#[test]
fn scopes_choose_the_arguments() {
    assert_eq!(scope_args(DiffScope::All, "main"), vec!["diff", "main"]);
    assert_eq!(scope_args(DiffScope::Unstaged, "main"), vec!["diff"]);
    assert_eq!(scope_args(DiffScope::Staged, "main"), vec!["diff", "--cached"]);
    assert_eq!(scope_args(DiffScope::Committed, "main"), vec!["diff", "main..HEAD"]);
    assert_eq!(view_of("").git_args(), vec!["diff"]);
}

#[test]
fn on_files_changed_reruns_git() {
    let mut view = view_of(DIFF);
    assert!(!view.files().is_empty(), "expected diff after mutation");
    assert_eq!(view.on_files_changed(&[]), ViewAction::RunGit);
    view.rerun_git(finished(""));
    assert!(view.files().is_empty(), "expected diff cleared after revert");
    assert_eq!(view.refresh(), ViewAction::RunGit);
}

#[test]
fn title_is_kind_only() {
    let view = DiffView::new(options(DiffScope::Staged), finished(""));
    assert_eq!(view.title(), "diff");
}

#[test]
fn render_paints_in_pane_header_row() {
    let view = view_of("");
    let picture = view.render(AREA, true, &palette()).expect("a picture");
    let row0 = &picture.header.text;
    assert!(row0.contains("main"), "header row missing baseline: {row0:?}");
    assert!(row0.contains("unstaged"), "header row missing scope: {row0:?}");
    assert!(row0.contains("[s] scope"), "header row missing hint: {row0:?}");
    assert_eq!(
        row0,
        " ▸ main · unstaged    [s] scope  [r] refresh  [j/k] scroll  [n/N] hunk "
    );
    assert_eq!(picture.header.fg, Color::Indexed(4));
    assert_eq!(picture.header.bg, Some(Color::Rgb(1, 2, 3)));
    assert!(picture.header.bold);
    assert_eq!(picture.header_area, Area { height: 1, ..AREA });
    assert_eq!(picture.body_area, Area { y: 1, height: 7, ..AREA });
}

#[test]
fn header_row_fits_a_narrow_pane() {
    let view = view_of("");
    let area = Area { width: 6, ..AREA };
    let picture = view.render(area, false, &palette()).expect("a picture");
    assert_eq!(picture.header.text, " ▸ ma…");
}

#[test]
fn nothing_is_painted_without_room() {
    let view = view_of(DIFF);
    assert!(view.render(Area { width: 0, ..AREA }, true, &palette()).is_none());
    assert!(view.render(Area { height: 0, ..AREA }, true, &palette()).is_none());
}

#[test]
fn the_header_takes_one_row_of_any_area() {
    let view = view_of("");
    for height in 1..300u16 {
        for (x, y, width) in [(0, 0, 1), (3, 7, 80), (65000, 65000, 2), (9, 65535 - 299, 500)] {
            let area = Area { x, y, width, height };
            let picture = view.render(area, true, &palette()).expect("a picture");
            assert_eq!(picture.header_area, Area { x, y, width, height: 1 });
            assert_eq!(picture.body_area, Area { x, y: y + 1, width, height: height - 1 });
        }
    }
    for (y, height, header, body) in [
        (65530u16, 100u16, (65530u16, 1u16), (65531u16, 4u16)),
        (65534, 3, (65534, 1), (65535, 0)),
        (65535, 5, (65535, 0), (65535, 0)),
        (65535, 1, (65535, 0), (65535, 0)),
        (40000, 65535, (40000, 1), (40001, 25534)),
    ] {
        let area = Area { x: 2, y, width: 9, height };
        let picture = view.render(area, true, &palette()).expect("a picture");
        let (top, rest) = (picture.header_area, picture.body_area);
        assert_eq!(((top.y, top.height), (rest.y, rest.height)), (header, body));
        assert_eq!(((top.x, top.width), (rest.x, rest.width)), ((2, 9), (2, 9)));
    }
    let tall = Area { x: 0, y: 0, width: 4, height: 65535 };
    let picture = view.render(tall, true, &palette()).expect("a picture");
    assert_eq!(picture.header_area, Area { height: 1, ..tall });
    assert_eq!(picture.body_area, Area { y: 1, height: 65534, ..tall });
}

#[test]
fn rows_are_coloured_by_kind() {
    let view = view_of(DIFF);
    let lines = view.render_lines(&palette());
    let blue = |text: &str| StyledLine { bold: true, ..line(text, Color::Blue) };
    assert_eq!(
        lines,
        vec![
            blue("── a.txt ──"),
            line("@@ -1,2 +1,2 @@ top", Color::Cyan),
            line(" line one", Color::Reset),
            line("-line two", Color::Red),
            line("+NEW LINE", Color::Green),
            blue("── old.rs → new.rs ──"),
            line("@@ -5,1 +5,1 @@ ", Color::Cyan),
            line("-x", Color::Red),
            line("+y", Color::Green),
            line("@@ -9,1 +9,0 @@ ", Color::Cyan),
            line("-z", Color::Red),
            blue("── i.png ──"),
            line("(binary file — diff suppressed)", Color::Gray),
        ]
    );
    let texts: Vec<String> = lines.into_iter().map(|l| l.text).collect();
    assert_eq!(view.plain_lines(), texts);
    assert_eq!(view.total_render_lines(), 13);
    assert_eq!(view.file_boundary_indices(), vec![0, 5, 11]);
    assert_eq!(view.hunk_indices(), vec![1, 6, 9]);
    let rows = list_rows(view.files());
    assert_eq!(rows.len(), count_rows(view.files()));
    assert_eq!(file_positions(view.files()), vec![0, 5, 11]);
    assert_eq!(hunk_positions(view.files()), vec![1, 6, 9]);
    assert_eq!(rows[11].kind, RowKind::File);
    assert_eq!(rows[12].kind, RowKind::Binary);
}

#[test]
fn shown_hunk_headers_read_back() {
    let view = view_of(DIFF);
    let shown = view.plain_lines().join("\n");
    let again = parse_unified_diff(&format!("diff --git a/a b/a\n{shown}"));
    let ranges: Vec<_> = again[0].hunks.iter().map(|h| (h.old_range, h.new_range)).collect();
    assert_eq!(
        ranges,
        vec![((1, 2), (1, 2)), ((5, 1), (5, 1)), ((9, 1), (9, 0))]
    );
    assert_eq!(again[0].hunks[0].heading, "top");
}

#[test]
fn a_shown_hunk_reads_back() {
    let raw = "diff --git a/x b/x\n@@ -1,2 +1,2 @@ top\n--- a\n+++ b/b\n+@@ c\n diff --git d\n";
    let view = view_of(raw);
    let shown = view.plain_lines()[1..].join("\n");
    let again = parse_unified_diff(&format!("diff --git a/x b/x\n{shown}"));
    assert_eq!(view.files()[0].hunks[0].lines.len(), 4);
    assert_eq!(again, view.files());
}

#[test]
fn content_follows_the_banners() {
    let mut view = view_of(DIFF);
    let picture = view.compose(AREA, AREA, &palette());
    assert_eq!(picture.content, view.render_lines(&palette()));
    view.rerun_git(GitRun::Failed {
        status: "exit status: 128".into(),
        stderr: b"  fatal: bad revision\n".to_vec(),
    });
    let picture = view.compose(AREA, AREA, &palette());
    assert_eq!(picture.content, vec![line("git error: fatal: bad revision", Color::Red)]);
}

#[test]
fn contrast_on_a_transparent_panel() {
    assert_eq!(header_contrast_fg(&palette()), Color::Indexed(4));
    let clear = Palette { panel_bg: Color::Reset, ..palette() };
    assert_eq!(header_contrast_fg(&clear), Color::Black);
}

#[test]
fn texts_are_cut_to_width() {
    assert_eq!(truncate_to_width("abc", 0), "");
    assert_eq!(truncate_to_width("abc", 1), "…");
    assert_eq!(truncate_to_width("abc", 2), "a…");
    assert_eq!(truncate_to_width("abc", 3), "abc");
    assert_eq!(truncate_to_width("äöü", 2), "ä…");
    assert_eq!(truncate_to_width("", 0), "");
    assert_eq!(truncate_to_width("", 5), "");
}

#[test]
fn columns_are_cut_out() {
    assert_eq!(slice_columns("abcdef", 1, 3), "bcd");
    assert_eq!(slice_columns("abcdef", 4, 100), "ef");
    assert_eq!(slice_columns("abcdef", 6, 100), "");
    assert_eq!(slice_columns("abcdef", 3, 2), "");
    assert_eq!(slice_columns("abcdef", 0, u16::MAX), "abcdef");
    assert_eq!(slice_columns("äöü", 1, 1), "ö");
    assert_eq!(slice_columns("", 0, 5), "");
}

#[test]
fn scroll_offset_reflects_scroll() {
    let mut view = view_of(DIFF);
    for _ in 0..4 {
        view.handle_key(Key::Char('j'));
    }
    assert_eq!(view.scroll_offset(), 4);
    assert_eq!(view.compose(AREA, AREA, &palette()).scroll, 4);
}

#[test]
fn extract_selection_returns_visible_text_with_prefix() {
    let view = view_of(DIFF);
    let plain = view.plain_lines();
    assert!(!plain.is_empty(), "expected non-empty plain lines");
    let last = (plain.len() - 1) as u32;
    let last_col = plain.iter().map(|l| l.chars().count()).max().unwrap_or(0) as u16;
    let sel = Selection { start_row: 0, start_col: 0, end_row: last, end_col: last_col };
    let text = view.extract_selection(&sel).expect("expected text");
    assert!(
        text.contains("-line two") || text.contains("-"),
        "no removal in {text:?}"
    );
    assert!(text.contains("+NEW LINE"), "missing addition in {text:?}");
    assert_eq!(text, plain.join("\n"));
}

#[test]
fn a_selection_can_be_made_from_either_end() {
    let view = view_of(DIFF);
    let down = Selection { start_row: 2, start_col: 6, end_row: 4, end_col: 3 };
    let up = Selection { start_row: 4, start_col: 3, end_row: 2, end_col: 6 };
    assert_eq!(view.extract_selection(&up).as_deref(), Some("one\n-line two\n+NEW"));
    assert_eq!(view.extract_selection(&up), view.extract_selection(&down));
    assert_eq!(up.ordered_cells(), ((2, 6), (4, 3)));
    assert_eq!(down.ordered_cells(), ((2, 6), (4, 3)));
    let left = Selection { start_row: 3, start_col: 4, end_row: 3, end_col: 1 };
    assert_eq!(left.ordered_cells(), ((3, 1), (3, 4)));
    assert_eq!(view.extract_selection(&left).as_deref(), Some("line"));
}

#[test]
fn parts_of_rows_are_extracted() {
    let view = view_of(DIFF);
    let one = Selection { start_row: 3, start_col: 1, end_row: 3, end_col: 4 };
    assert_eq!(view.extract_selection(&one).as_deref(), Some("line"));
    let more = Selection { start_row: 2, start_col: 6, end_row: 4, end_col: 3 };
    assert_eq!(view.extract_selection(&more).as_deref(), Some("one\n-line two\n+NEW"));
    let below = Selection { start_row: 50, start_col: 1, end_row: 60, end_col: 6 };
    assert_eq!(view.extract_selection(&below).as_deref(), Some("binary"));
    let beyond = Selection { start_row: 3, start_col: 40, end_row: 3, end_col: 50 };
    assert_eq!(view.extract_selection(&beyond), None);
    let empty = view_of("");
    assert_eq!(empty.extract_selection(&one), None);
}

#[test]
fn scrolling_does_not_move_a_selection() {
    let mut view = view_of(DIFF);
    let sel = Selection { start_row: 2, start_col: 6, end_row: 4, end_col: 3 };
    let before = view.extract_selection(&sel);
    view.handle_key(Key::Char('j'));
    view.handle_key(Key::Char('J'));
    view.handle_mouse(Mouse::ScrollDown, AREA);
    assert_eq!(view.extract_selection(&sel), before);
}

#[test]
fn running_git_again_changes_nothing() {
    let mut view = view_of(DIFF);
    view.handle_key(Key::Char('n'));
    view.rerun_git(finished(DIFF));
    let place = (view.cursor(), view.scroll_offset());
    let rows = view.plain_lines();
    view.rerun_git(finished(DIFF));
    assert_eq!((view.cursor(), view.scroll_offset()), place);
    assert_eq!(view.plain_lines(), rows);
}

#[test]
fn scope_key_cycles_through_modes() {
    let mut view = DiffView::new(options(DiffScope::All), finished(""));
    assert_eq!(
        view.handle_key(Key::Char('s')),
        (ViewKeyOutcome::Handled, ViewAction::RunGit)
    );
    assert_eq!(view.options().scope, DiffScope::Unstaged);
    view.handle_key(Key::Char('s'));
    assert_eq!(view.options().scope, DiffScope::Staged);
    view.handle_key(Key::Char('s'));
    assert_eq!(view.options().scope, DiffScope::Committed);
    view.handle_key(Key::Char('s'));
    assert_eq!(view.options().scope, DiffScope::All);
}

#[test]
fn scroll_keys_move_cursor() {
    let mut view = view_of(DIFF);
    let before = view.scroll_offset();
    view.handle_key(Key::Char('j'));
    assert!(view.scroll_offset() >= before, "j should not move scroll up");
    assert_eq!((view.cursor(), view.scroll_offset()), (1, 1));
    view.handle_key(Key::Char('k'));
    assert!(view.scroll_offset() <= before + 1);
    assert_eq!((view.cursor(), view.scroll_offset()), (0, 0));
}

#[test]
fn unknown_key_is_not_handled() {
    let mut view = DiffView::new(options(DiffScope::All), finished(""));
    assert!(matches!(view.handle_key(Key::Char('z')).0, ViewKeyOutcome::NotHandled));
    assert_eq!(
        view.handle_key(Key::Other),
        (ViewKeyOutcome::NotHandled, ViewAction::Nothing)
    );
}

#[test]
fn reserved_keys_are_swallowed() {
    let mut view = view_of(DIFF);
    for key in [Key::Char('b'), Key::Enter] {
        assert_eq!(view.handle_key(key), (ViewKeyOutcome::Handled, ViewAction::Nothing));
        assert_eq!((view.cursor(), view.scroll_offset()), (0, 0));
    }
    assert_eq!(
        view.handle_key(Key::Char('r')),
        (ViewKeyOutcome::Handled, ViewAction::RunGit)
    );
}

#[test]
fn scrolling_stops_at_both_ends() {
    let mut view = view_of(DIFF);
    view.handle_key(Key::Up);
    assert_eq!((view.cursor(), view.scroll_offset()), (0, 0));
    for _ in 0..50 {
        view.handle_key(Key::Down);
    }
    assert_eq!((view.cursor(), view.scroll_offset()), (12, 12));
}

#[test]
fn file_and_hunk_keys_jump() {
    let mut view = view_of(DIFF);
    let mut seen = Vec::new();
    for key in ['n', 'n', 'n', 'n', 'N', 'N', 'N', 'N', 'J', 'J', 'J', 'K', 'K', 'K'] {
        assert_eq!(
            view.handle_key(Key::Char(key)),
            (ViewKeyOutcome::Handled, ViewAction::Nothing)
        );
        assert_eq!(view.cursor(), view.scroll_offset() as usize);
        seen.push(view.cursor());
    }
    assert_eq!(seen, vec![1, 6, 9, 9, 6, 1, 1, 1, 5, 11, 11, 5, 0, 0]);
    let mut empty = view_of("");
    empty.handle_key(Key::Char('n'));
    empty.handle_key(Key::Char('K'));
    assert_eq!((empty.cursor(), empty.scroll_offset()), (0, 0));
}

#[test]
fn the_wheel_scrolls_by_three() {
    let mut view = view_of(DIFF);
    assert_eq!(view.handle_mouse(Mouse::ScrollDown, AREA), ViewKeyOutcome::Handled);
    assert_eq!((view.cursor(), view.scroll_offset()), (0, 3));
    assert_eq!(view.handle_mouse(Mouse::ScrollUp, AREA), ViewKeyOutcome::Handled);
    assert_eq!(view.scroll_offset(), 0);
    view.handle_mouse(Mouse::ScrollUp, AREA);
    assert_eq!(view.scroll_offset(), 0);
    for _ in 0..9 {
        view.handle_mouse(Mouse::ScrollDown, AREA);
    }
    assert_eq!((view.cursor(), view.scroll_offset()), (0, 12));
    assert_eq!(view.handle_mouse(Mouse::Other, AREA), ViewKeyOutcome::NotHandled);
}

#[test]
fn truncation_banner_when_diff_exceeds_cap() {
    let mut text = String::new();
    text.push_str("diff --git a/big.txt b/big.txt\n");
    text.push_str("--- a/big.txt\n");
    text.push_str("+++ b/big.txt\n");
    text.push_str("@@ -1,1 +1,60000 @@\n");
    text.push_str(" anchor\n");
    for i in 0..60_000 {
        text.push_str(&format!("+line {i}\n"));
    }
    let view = view_of(&text);
    assert!(view.truncated_lines() > 0, "expected truncation to leave overflow");
    assert_eq!(view.truncated_lines(), 60_005 - MAX_DIFF_LINES);
    assert_eq!(view.total_render_lines(), MAX_DIFF_LINES - 2);
    let picture = view.compose(AREA, AREA, &palette());
    assert_eq!(
        picture.content[0],
        line("(truncated: showing first 50000 lines; 10005 hidden)", Color::Yellow)
    );
    assert_eq!(picture.content.len(), MAX_DIFF_LINES - 1);
}

#[test]
fn a_diff_of_the_limit_is_shown_whole() {
    let mut text = String::from("diff --git a/x b/x\n@@ -1 +1 @@\n");
    for _ in 0..MAX_DIFF_LINES - 2 {
        text.push_str("+\n");
    }
    let view = view_of(&text);
    assert_eq!(view.truncated_lines(), 0);
    assert_eq!(view.total_render_lines(), MAX_DIFF_LINES);
}

#[test]
fn failures_are_shown_and_keep_the_place() {
    let mut view = view_of(DIFF);
    view.handle_key(Key::Char('n'));
    view.rerun_git(GitRun::NotStarted { error: "not found".into() });
    assert_eq!(view.git_error().map(|s| s.as_str()), Some("failed to run git: not found"));
    assert!(view.files().is_empty());
    assert_eq!(view.truncated_lines(), 0);
    assert_eq!((view.cursor(), view.scroll_offset()), (1, 1));
    view.rerun_git(finished(DIFF));
    assert!(view.git_error().is_none());
    assert_eq!((view.cursor(), view.scroll_offset()), (1, 1));
    view.rerun_git(finished("diff --git a/x b/x\n"));
    assert_eq!((view.cursor(), view.scroll_offset()), (0, 0));
}

#[test]
fn silent_failures_show_the_status() {
    assert_eq!(
        failure_message("exit status: 1", " \n\t"),
        "git diff exited with status exit status: 1"
    );
    assert_eq!(failure_message("exit status: 1", "\u{a0} no\u{3000}"), "no");
    let view = DiffView::new(
        options(DiffScope::All),
        GitRun::Failed { status: "exit status: 2".into(), stderr: Vec::new() },
    );
    assert_eq!(
        view.git_error().map(|s| s.as_str()),
        Some("git diff exited with status exit status: 2")
    );
}

#[test]
fn output_that_is_not_unicode_is_shown_with_replacements() {
    let mut stdout = b"diff --git a/x b/x\r\n@@ -1 +1 @@\r\n+caf\xc3\xa9 ".to_vec();
    stdout.push(0xff);
    let view = DiffView::new(options(DiffScope::All), GitRun::Finished { stdout });
    assert_eq!(view.plain_lines()[2], "+café \u{fffd}");
    assert_eq!(view.files()[0].path, "x");
}

#[test]
fn descriptors_tell_the_options() {
    for (scope, label) in [
        (DiffScope::All, "all"),
        (DiffScope::Unstaged, "unstaged"),
        (DiffScope::Staged, "staged"),
        (DiffScope::Committed, "committed"),
    ] {
        let view = DiffView::new(options(scope), finished(""));
        let (kind, value) = view.wire_descriptor();
        assert_eq!(kind, "diff");
        assert_eq!(value.get("baseline").and_then(|v| v.as_str()), Some("main"));
        assert_eq!(value.get("scope").and_then(|v| v.as_str()), Some(label));
        assert_eq!(value.as_object().map(|o| o.len()), Some(2));
    }
}
