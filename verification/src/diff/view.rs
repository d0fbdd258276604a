//! The state of a diff view: what `git` said, and where the user is in it.
use vstd::prelude::*;
use vstd::utf8::{decode_utf8, valid_utf8};

use super::parser;
use super::parser::{DiffFile, FileModel};
use super::rows;
use super::rows::RowKind;
use super::scope;
use super::scope::{DiffViewOptions, OptionsModel};
use crate::pane::input::{Key, Mouse, ViewKeyOutcome};
use crate::pane::paint::Area;
use crate::text;

verus! {

/// How many lines of `git` output a view takes in. The rest is counted only.
pub const MAX_DIFF_LINES: usize = 50_000;

// ---------------------------------------------------------------------------
// Input from outside
// ---------------------------------------------------------------------------

/// How a run of `git diff` ended.
#[derive(Debug, PartialEq, Eq)]
pub enum GitRun {
    /// The program could not be run; the error as text.
    NotStarted { error: String },
    /// It ran and reported failure: its exit status as text, and what it wrote
    /// to standard error.
    Failed { status: String, stderr: Vec<u8> },
    /// It succeeded and wrote this to standard output.
    Finished { stdout: Vec<u8> },
}

/// What the view's owner has to do after an event.
#[derive(Debug, Clone, Copy, PartialEq, Eq, Structural)]
pub enum ViewAction {
    Nothing,
    /// Run `git` with the view's arguments and hand the view the outcome.
    RunGit,
}

// ---------------------------------------------------------------------------
// Model
// ---------------------------------------------------------------------------

/// What a [`DiffView`] holds.
#[verifier::ext_equal]
pub struct ViewModel {
    pub options: OptionsModel,
    pub files: Seq<FileModel>,
    /// Lines of output beyond the limit.
    pub truncated: int,
    pub git_error: Option<Seq<char>>,
    /// The first row of the diff that is in sight.
    pub scroll: int,
    /// The row that navigation starts from.
    pub cursor: int,
}

impl ViewModel {
    /// The number of rows of the diff.
    pub open spec fn total(self) -> int {
        rows::rows(self.files).len() as int
    }

    /// The index of the last row, zero if there is none.
    pub open spec fn last_row(self) -> int {
        if self.total() > 0 {
            self.total() - 1
        } else {
            0
        }
    }

    /// The diff fits the line limit, and so do both row numbers.
    pub open spec fn wf(self) -> bool {
        &&& self.total() <= MAX_DIFF_LINES
        &&& 0 <= self.truncated
        &&& 0 <= self.scroll < MAX_DIFF_LINES
        &&& 0 <= self.cursor < MAX_DIFF_LINES
    }

    /// Both row numbers are rows of the diff (or zero if it is empty).
    pub open spec fn in_range(self) -> bool {
        self.cursor <= self.last_row() && self.scroll <= self.last_row()
    }
}

pub open spec fn smaller(a: int, b: int) -> int {
    if a <= b {
        a
    } else {
        b
    }
}

/// A view of nothing yet.
pub open spec fn blank(options: OptionsModel) -> ViewModel {
    ViewModel {
        options,
        files: Seq::empty(),
        truncated: 0,
        git_error: None,
        scroll: 0,
        cursor: 0,
    }
}

/// The lines of `output` that the view takes in.
pub open spec fn captured(output: Seq<char>) -> Seq<Seq<char>> {
    let all = text::lines(output);
    if all.len() > MAX_DIFF_LINES {
        all.take(MAX_DIFF_LINES as int)
    } else {
        all
    }
}

/// The view after `git` printed `output`: its diff, with both row numbers moved
/// back as far as needed.
pub open spec fn loaded(view: ViewModel, output: Seq<char>) -> ViewModel {
    let files = parser::parsed(text::joined(captured(output), "\n"@));
    let total = rows::rows(files).len() as int;
    let cursor = if view.cursor < total {
        view.cursor
    } else if total > 0 {
        total - 1
    } else {
        0
    };
    ViewModel {
        options: view.options,
        files,
        truncated: text::lines(output).len() - captured(output).len(),
        git_error: None,
        scroll: smaller(view.scroll, cursor),
        cursor,
    }
}

/// The view after `git` failed with `message`: no diff, and the row numbers as
/// they were.
pub open spec fn failed(view: ViewModel, message: Seq<char>) -> ViewModel {
    ViewModel { files: Seq::empty(), truncated: 0, git_error: Some(message), ..view }
}

/// What a failed run is reported as: what it wrote to standard error, or its
/// status if that is blank.
pub open spec fn failure_text(status: Seq<char>, stderr: Seq<char>) -> Seq<char> {
    if text::trimmed(stderr).len() == 0 {
        "git diff exited with status "@ + status
    } else {
        text::trimmed(stderr)
    }
}

/// The view after a run of `git`.
pub open spec fn ran(view: ViewModel, run: GitRun) -> ViewModel {
    match run {
        GitRun::NotStarted { error } => failed(view, "failed to run git: "@ + error@),
        GitRun::Failed { status, stderr } => failed(
            view,
            failure_text(status@, text::utf8_lossy(stderr@)),
        ),
        GitRun::Finished { stdout } => loaded(view, text::utf8_lossy(stdout@)),
    }
}

/// `view` with both row numbers held to the last row.
pub open spec fn clamped(view: ViewModel) -> ViewModel {
    ViewModel {
        cursor: smaller(view.cursor, view.last_row()),
        scroll: smaller(view.scroll, view.last_row()),
        ..view
    }
}

/// The first of the ascending `marks` above `row`.
pub open spec fn first_above(marks: Seq<int>, row: int) -> Option<int>
    decreases marks.len(),
{
    if marks.len() == 0 {
        None
    } else if marks[0] > row {
        Some(marks[0])
    } else {
        first_above(marks.skip(1), row)
    }
}

/// The last of the ascending `marks` below `row`.
pub open spec fn last_below(marks: Seq<int>, row: int) -> Option<int>
    decreases marks.len(),
{
    if marks.len() == 0 {
        None
    } else if marks.last() < row {
        Some(marks.last())
    } else {
        last_below(marks.drop_last(), row)
    }
}

/// Where a step forward from `row` leads: the next mark, else the last one.
pub open spec fn next_mark(marks: Seq<int>, row: int) -> int {
    match first_above(marks, row) {
        Some(mark) => mark,
        None => if marks.len() > 0 {
            marks.last()
        } else {
            row
        },
    }
}

/// Where a step back from `row` leads: the mark before it, else the first one.
pub open spec fn previous_mark(marks: Seq<int>, row: int) -> int {
    match last_below(marks, row) {
        Some(mark) => mark,
        None => if marks.len() > 0 {
            marks[0]
        } else {
            row
        },
    }
}

/// `view` with cursor and top row both at `row`.
pub open spec fn at_row(view: ViewModel, row: int) -> ViewModel {
    ViewModel { cursor: row, scroll: row, ..view }
}

/// The rows of the diff at which something of `kind` stands.
pub open spec fn marks(view: ViewModel, kind: RowKind) -> Seq<int> {
    rows::positions(rows::rows(view.files), kind)
}

/// `n` rows up from `row`, but not above the first.
pub open spec fn less(row: int, n: int) -> int {
    if row > n {
        row - n
    } else {
        0
    }
}

/// What a key press makes of a view.
pub open spec fn pressed(view: ViewModel, key: Key) -> (ViewModel, ViewKeyOutcome, ViewAction) {
    let handled = ViewKeyOutcome::Handled;
    let nothing = ViewAction::Nothing;
    match key {
        Key::Char('j') | Key::Down => (
            clamped(ViewModel { cursor: view.cursor + 1, scroll: view.scroll + 1, ..view }),
            handled,
            nothing,
        ),
        Key::Char('k') | Key::Up => (
            ViewModel { cursor: less(view.cursor, 1), scroll: less(view.scroll, 1), ..view },
            handled,
            nothing,
        ),
        Key::Char('J') => (
            at_row(view, next_mark(marks(view, RowKind::File), view.cursor)),
            handled,
            nothing,
        ),
        Key::Char('K') => (
            at_row(view, previous_mark(marks(view, RowKind::File), view.cursor)),
            handled,
            nothing,
        ),
        Key::Char('n') => (
            at_row(view, next_mark(marks(view, RowKind::Hunk), view.cursor)),
            handled,
            nothing,
        ),
        Key::Char('N') => (
            at_row(view, previous_mark(marks(view, RowKind::Hunk), view.cursor)),
            handled,
            nothing,
        ),
        Key::Char('r') => (view, handled, ViewAction::RunGit),
        Key::Char('s') => (
            ViewModel {
                options: OptionsModel { scope: scope::next_scope(view.options.scope), ..view.options },
                ..view
            },
            handled,
            ViewAction::RunGit,
        ),
        Key::Char('b') | Key::Enter => (view, handled, nothing),
        _ => (view, ViewKeyOutcome::NotHandled, nothing),
    }
}

/// What a mouse event makes of a view.
pub open spec fn moused(view: ViewModel, mouse: Mouse) -> (ViewModel, ViewKeyOutcome) {
    match mouse {
        Mouse::ScrollDown => (
            clamped(ViewModel { scroll: view.scroll + 3, ..view }),
            ViewKeyOutcome::Handled,
        ),
        Mouse::ScrollUp => (
            ViewModel { scroll: less(view.scroll, 3), ..view },
            ViewKeyOutcome::Handled,
        ),
        Mouse::Other => (view, ViewKeyOutcome::NotHandled),
    }
}

// ---------------------------------------------------------------------------
// Laws
// ---------------------------------------------------------------------------

/// The captured lines of any output are what the parser reads, and they fit
/// the limit; so does the diff they describe.
pub proof fn lemma_captured_fits(output: Seq<char>)
    ensures
        captured(output).len() <= MAX_DIFF_LINES,
        captured(output).len() > 0 ==> text::fields(
            text::joined(captured(output), "\n"@),
            '\n',
        ) == captured(output),
        rows::rows(parser::parsed(text::joined(captured(output), "\n"@))).len() <= MAX_DIFF_LINES,
{
    let lines = captured(output);
    let joined = text::joined(lines, "\n"@);
    reveal_strlit("\n");
    assert("\n"@ =~= seq!['\n']);
    text::lemma_lines_plain(output);
    rows::lemma_rows_bounded(text::fields(joined, '\n'));
    if lines.len() > 0 {
        assert forall|i: int| 0 <= i < lines.len() implies !(#[trigger] lines[i]).contains(
            '\n',
        ) by {
            assert(lines[i] == text::lines(output)[i]);
        }
        text::lemma_fields_joined(lines, '\n');
    } else {
        assert(joined =~= Seq::<char>::empty());
        assert(text::fields(joined, '\n').len() == 1);
    }
}

/// Output within the limit is taken in whole; of longer output exactly the
/// lines beyond the limit are left out, and they are counted.
pub proof fn lemma_truncation(view: ViewModel, output: Seq<char>)
    ensures
        captured(output).is_prefix_of(text::lines(output)),
        captured(output).len() + loaded(view, output).truncated == text::lines(output).len(),
        loaded(view, output).truncated > 0 <==> text::lines(output).len() > MAX_DIFF_LINES,
        loaded(view, output).truncated > 0 ==> captured(output).len() == MAX_DIFF_LINES,
{
}

/// After a successful run both row numbers are rows of the new diff, with the
/// cursor in sight or below.
pub proof fn lemma_loaded_in_range(view: ViewModel, output: Seq<char>)
    requires
        view.wf(),
    ensures
        loaded(view, output).wf(),
        loaded(view, output).in_range(),
        loaded(view, output).scroll <= loaded(view, output).cursor,
{
    lemma_captured_fits(output);
}

/// Running `git` again without a change leaves the view as it is.
pub proof fn lemma_reload_same(view: ViewModel, output: Seq<char>)
    requires
        view.wf(),
    ensures
        loaded(loaded(view, output), output) == loaded(view, output),
{
    assert(loaded(loaded(view, output), output) =~= loaded(view, output));
}

/// A failed run in between does not lose the place: the next success gives the
/// view that it would have given without the failure.
pub proof fn lemma_failure_keeps_place(view: ViewModel, message: Seq<char>, output: Seq<char>)
    ensures
        loaded(failed(view, message), output) == loaded(view, output),
{
}

proof fn lemma_first_above(marks: Seq<int>, row: int)
    requires
        forall|j: int, k: int| 0 <= j < k < marks.len() ==> marks[j] < marks[k],
    ensures
        match first_above(marks, row) {
            Some(mark) => {
                &&& marks.contains(mark)
                &&& mark > row
                &&& forall|k: int| 0 <= k < marks.len() && #[trigger] marks[k] > row ==> marks[k] >= mark
            },
            None => forall|k: int| 0 <= k < marks.len() ==> #[trigger] marks[k] <= row,
        },
    decreases marks.len(),
{
    if marks.len() > 0 {
        let rest = marks.skip(1);
        assert(marks.contains(marks[0]));
        if marks[0] <= row {
            assert forall|j: int, k: int| 0 <= j < k < rest.len() implies rest[j] < rest[k] by {
                assert(rest[j] == marks[j + 1] && rest[k] == marks[k + 1]);
            }
            lemma_first_above(rest, row);
            assert forall|k: int| 0 < k < marks.len() implies #[trigger] marks[k] == rest[k - 1] by {}
            if let Some(mark) = first_above(rest, row) {
                let k = choose|k: int| 0 <= k < rest.len() && rest[k] == mark;
                assert(marks[k + 1] == mark);
            }
        }
    }
}

proof fn lemma_last_below(marks: Seq<int>, row: int)
    requires
        forall|j: int, k: int| 0 <= j < k < marks.len() ==> marks[j] < marks[k],
    ensures
        match last_below(marks, row) {
            Some(mark) => {
                &&& marks.contains(mark)
                &&& mark < row
                &&& forall|k: int| 0 <= k < marks.len() && #[trigger] marks[k] < row ==> marks[k] <= mark
            },
            None => forall|k: int| 0 <= k < marks.len() ==> #[trigger] marks[k] >= row,
        },
    decreases marks.len(),
{
    if marks.len() > 0 {
        let rest = marks.drop_last();
        assert(marks[marks.len() - 1] == marks.last());
        assert(marks.contains(marks.last()));
        if marks.last() >= row {
            lemma_last_below(rest, row);
            assert forall|k: int| 0 <= k < rest.len() implies #[trigger] marks[k] == rest[k] by {}
            if let Some(mark) = last_below(rest, row) {
                let k = choose|k: int| 0 <= k < rest.len() && rest[k] == mark;
                assert(marks[k] == mark);
            }
        }
    }
}

/// A step forward lands on a row of the kind asked for, the nearest one below
/// the cursor if there is one; a step back likewise, the nearest one above.
/// Without such a row the cursor stays.
pub proof fn lemma_steps_land_on_marks(view: ViewModel, kind: RowKind)
    ensures
        ({
            let all = rows::rows(view.files);
            let found = marks(view, kind);
            let next = next_mark(found, view.cursor);
            let previous = previous_mark(found, view.cursor);
            &&& found.len() == 0 ==> next == view.cursor && previous == view.cursor
            &&& found.len() > 0 ==> {
                &&& 0 <= next < all.len() && all[next].kind == kind
                &&& 0 <= previous < all.len() && all[previous].kind == kind
            }
            &&& forall|i: int|
                0 <= i < all.len() && view.cursor < i && (#[trigger] all[i]).kind == kind
                    ==> view.cursor < next <= i
            &&& forall|i: int|
                0 <= i < view.cursor && i < all.len() && (#[trigger] all[i]).kind == kind ==> i
                    <= previous < view.cursor
        }),
{
    let all = rows::rows(view.files);
    let found = marks(view, kind);
    rows::lemma_positions(all, kind);
    lemma_first_above(found, view.cursor);
    lemma_last_below(found, view.cursor);
    let next = next_mark(found, view.cursor);
    let previous = previous_mark(found, view.cursor);
    if found.len() > 0 {
        assert(found.contains(found.last())) by {
            assert(found[found.len() - 1] == found.last());
        }
        assert(found.contains(found[0]));
        assert(found.contains(next));
        assert(found.contains(previous));
    }
    assert forall|i: int|
        0 <= i < all.len() && view.cursor < i && (#[trigger] all[i]).kind == kind implies view.cursor
        < next <= i by {
        let k = choose|k: int| 0 <= k < found.len() && found[k] == i;
        assert(found[k] > view.cursor);
    }
    assert forall|i: int|
        0 <= i < view.cursor && i < all.len() && (#[trigger] all[i]).kind == kind implies i
        <= previous < view.cursor by {
        let k = choose|k: int| 0 <= k < found.len() && found[k] == i;
        assert(found[k] < view.cursor);
    }
}

/// From a file or hunk header that is not the last of its kind, a step forward
/// and a step back return to it.
pub proof fn lemma_step_back_undoes_step_forward(view: ViewModel, kind: RowKind)
    requires
        marks(view, kind).contains(view.cursor),
        view.cursor < marks(view, kind).last(),
    ensures
        previous_mark(marks(view, kind), next_mark(marks(view, kind), view.cursor)) == view.cursor,
{
    let found = marks(view, kind);
    let row = view.cursor;
    rows::lemma_positions(rows::rows(view.files), kind);
    lemma_first_above(found, row);
    let next = next_mark(found, row);
    assert(found[found.len() - 1] == found.last());
    assert(next > row);
    lemma_last_below(found, next);
    let k = choose|k: int| 0 <= k < found.len() && found[k] == row;
    assert(found[k] < next);
    let back = previous_mark(found, next);
    let b = choose|b: int| 0 <= b < found.len() && found[b] == back;
    assert(row <= back < next);
    if back > row {
        assert(found[b] > row);
    }
}

/// The row numbers stay rows of the diff under every key and mouse event.
pub proof fn lemma_events_stay_in_range(view: ViewModel, key: Key, mouse: Mouse)
    requires
        view.wf(),
        view.in_range(),
    ensures
        pressed(view, key).0.wf(),
        pressed(view, key).0.in_range(),
        moused(view, mouse).0.wf(),
        moused(view, mouse).0.in_range(),
{
    lemma_steps_land_on_marks(view, RowKind::File);
    lemma_steps_land_on_marks(view, RowKind::Hunk);
}

/// Events change neither the diff nor the baseline; only the scope key changes
/// the scope.
pub proof fn lemma_events_keep_diff(view: ViewModel, key: Key, mouse: Mouse)
    ensures
        pressed(view, key).0.files == view.files,
        pressed(view, key).0.truncated == view.truncated,
        pressed(view, key).0.git_error == view.git_error,
        pressed(view, key).0.options.baseline == view.options.baseline,
        key != Key::Char('s') ==> pressed(view, key).0.options == view.options,
        moused(view, mouse).0.files == view.files,
        moused(view, mouse).0.truncated == view.truncated,
        moused(view, mouse).0.git_error == view.git_error,
        moused(view, mouse).0.options == view.options,
{
}

/// A key that is not handled changes nothing and asks for nothing.
pub proof fn lemma_unhandled_key_ignored(view: ViewModel, key: Key)
    requires
        pressed(view, key).1 == ViewKeyOutcome::NotHandled,
    ensures
        pressed(view, key).0 == view,
        pressed(view, key).2 == ViewAction::Nothing,
{
}

/// Scrolling down does not move up, and scrolling up again undoes it unless
/// the end was reached.
pub proof fn lemma_scroll_keys(view: ViewModel)
    requires
        view.wf(),
        view.in_range(),
    ensures
        pressed(view, Key::Char('j')).0.scroll >= view.scroll,
        pressed(view, Key::Char('j')).0.cursor >= view.cursor,
        view.cursor < view.last_row() && view.scroll < view.last_row() ==> pressed(
            pressed(view, Key::Char('j')).0,
            Key::Char('k'),
        ).0 == view,
{
}

/// Pressing the scope key four times gives the first view back, and every
/// press asks for a run of `git`.
pub proof fn lemma_scope_key_cycles(view: ViewModel)
    ensures
        ({
            let s = Key::Char('s');
            let once = pressed(view, s).0;
            let twice = pressed(once, s).0;
            let thrice = pressed(twice, s).0;
            pressed(thrice, s).0 == view
        }),
        pressed(view, Key::Char('s')).2 == ViewAction::RunGit,
{
    let s = Key::Char('s');
    let once = pressed(view, s).0;
    let twice = pressed(once, s).0;
    let thrice = pressed(twice, s).0;
    assert(pressed(thrice, s).0 =~= view);
}

/// From every view, `k` and the up key move the first row in sight up by one, if
/// there is a row above it, and the cursor up by one, if there is a row above it, each
/// whatever the other does; nothing else changes.
pub proof fn lemma_up_keys(view: ViewModel, key: Key)
    requires
        key == Key::Char('k') || key == Key::Up,
    ensures
        ({
            let (next, outcome, action) = pressed(view, key);
            &&& view.scroll > 0 ==> next.scroll == view.scroll - 1
            &&& view.scroll == 0 ==> next.scroll == 0
            &&& view.cursor > 0 ==> next.cursor == view.cursor - 1
            &&& view.cursor == 0 ==> next.cursor == 0
            &&& next == (ViewModel { scroll: next.scroll, cursor: next.cursor, ..view })
            &&& outcome == ViewKeyOutcome::Handled
            &&& action == ViewAction::Nothing
        }),
{
}

/// `j` and the down key move the first row in sight and the cursor down by one, each
/// as long as it is not on the last row; where one is beyond it, it comes back to it.
/// Nothing else changes.
pub proof fn lemma_down_keys(view: ViewModel, key: Key)
    requires
        key == Key::Char('j') || key == Key::Down,
        0 <= view.scroll,
        0 <= view.cursor,
    ensures
        ({
            let (next, outcome, action) = pressed(view, key);
            let n = rows::rows(view.files).len() as int;
            &&& view.scroll + 1 < n ==> next.scroll == view.scroll + 1
            &&& 0 < n <= view.scroll + 1 ==> next.scroll == n - 1
            &&& view.cursor + 1 < n ==> next.cursor == view.cursor + 1
            &&& 0 < n <= view.cursor + 1 ==> next.cursor == n - 1
            &&& n == 0 ==> next.scroll == 0 && next.cursor == 0
            &&& next == (ViewModel { scroll: next.scroll, cursor: next.cursor, ..view })
            &&& outcome == ViewKeyOutcome::Handled
            &&& action == ViewAction::Nothing
        }),
{
}

/// `n` and `J` jump to the next hunk and the next file: to the nearest row below the
/// cursor at which one begins, to the last such row if there is none below, and
/// nowhere if there is none at all. The row jumped to is the first in sight; nothing
/// else changes.
pub proof fn lemma_forward_keys(view: ViewModel, key: Key, kind: RowKind)
    requires
        key == Key::Char('n') && kind == RowKind::Hunk || key == Key::Char('J') && kind
            == RowKind::File,
    ensures
        ({
            let (next, outcome, action) = pressed(view, key);
            let all = rows::rows(view.files);
            let to = next.cursor;
            &&& forall|i: int|
                0 <= i < all.len() && view.cursor < i && (#[trigger] all[i]).kind == kind
                    ==> view.cursor < to <= i
            &&& forall|i: int|
                0 <= i < all.len() && (#[trigger] all[i]).kind == kind ==> 0 <= to < all.len()
                    && all[to].kind == kind
            &&& to <= view.cursor ==> forall|i: int|
                0 <= i < all.len() && (#[trigger] all[i]).kind == kind ==> i <= to
            &&& (forall|i: int| 0 <= i < all.len() ==> (#[trigger] all[i]).kind != kind) ==> to
                == view.cursor
            &&& next == (ViewModel { scroll: to, cursor: to, ..view })
            &&& outcome == ViewKeyOutcome::Handled
            &&& action == ViewAction::Nothing
        }),
{
    let all = rows::rows(view.files);
    let found = marks(view, kind);
    lemma_steps_land_on_marks(view, kind);
    rows::lemma_positions(all, kind);
    lemma_first_above(found, view.cursor);
    let to = next_mark(found, view.cursor);
    assert forall|i: int| 0 <= i < all.len() && (#[trigger] all[i]).kind == kind implies 0 <= to
        < all.len() && all[to].kind == kind && (to <= view.cursor ==> i <= to) by {
        let k = choose|k: int| 0 <= k < found.len() && found[k] == i;
        assert(found[k] == i);
        if to <= view.cursor {
            if let Some(mark) = first_above(found, view.cursor) {
            } else {
                if k < found.len() - 1 {
                    assert(found[k] < found[found.len() - 1]);
                }
            }
        }
    }
    if forall|i: int| 0 <= i < all.len() ==> (#[trigger] all[i]).kind != kind {
        if found.len() > 0 {
            assert(found.contains(found[0]));
            assert(all[found[0]].kind == kind);
        }
    }
}

/// `N` and `K` jump back to the hunk and the file before: to the nearest row above the
/// cursor at which one begins, to the first such row if there is none above, and
/// nowhere if there is none at all. The row jumped to is the first in sight; nothing
/// else changes.
pub proof fn lemma_back_keys(view: ViewModel, key: Key, kind: RowKind)
    requires
        key == Key::Char('N') && kind == RowKind::Hunk || key == Key::Char('K') && kind
            == RowKind::File,
    ensures
        ({
            let (next, outcome, action) = pressed(view, key);
            let all = rows::rows(view.files);
            let to = next.cursor;
            &&& forall|i: int|
                0 <= i < all.len() && i < view.cursor && (#[trigger] all[i]).kind == kind ==> i
                    <= to < view.cursor
            &&& forall|i: int|
                0 <= i < all.len() && (#[trigger] all[i]).kind == kind ==> 0 <= to < all.len()
                    && all[to].kind == kind
            &&& to >= view.cursor ==> forall|i: int|
                0 <= i < all.len() && (#[trigger] all[i]).kind == kind ==> to <= i
            &&& (forall|i: int| 0 <= i < all.len() ==> (#[trigger] all[i]).kind != kind) ==> to
                == view.cursor
            &&& next == (ViewModel { scroll: to, cursor: to, ..view })
            &&& outcome == ViewKeyOutcome::Handled
            &&& action == ViewAction::Nothing
        }),
{
    let all = rows::rows(view.files);
    let found = marks(view, kind);
    lemma_steps_land_on_marks(view, kind);
    rows::lemma_positions(all, kind);
    lemma_last_below(found, view.cursor);
    let to = previous_mark(found, view.cursor);
    assert forall|i: int| 0 <= i < all.len() && (#[trigger] all[i]).kind == kind implies 0 <= to
        < all.len() && all[to].kind == kind && (to >= view.cursor ==> to <= i) by {
        let k = choose|k: int| 0 <= k < found.len() && found[k] == i;
        assert(found[k] == i);
        if to >= view.cursor {
            if let Some(mark) = last_below(found, view.cursor) {
            } else {
                if k > 0 {
                    assert(found[0] < found[k]);
                }
            }
        }
    }
    if forall|i: int| 0 <= i < all.len() ==> (#[trigger] all[i]).kind != kind {
        if found.len() > 0 {
            assert(found.contains(found[0]));
            assert(all[found[0]].kind == kind);
        }
    }
}

/// `r` asks for a run of `git` and changes nothing by itself; `s` asks for one with
/// the next scope, of all, unstaged, staged and committed in turn; `b` and Enter do
/// nothing yet. No other key is this view's, but for those that move.
pub proof fn lemma_other_keys(view: ViewModel, key: Key)
    ensures
        pressed(view, Key::Char('r')) == (view, ViewKeyOutcome::Handled, ViewAction::RunGit),
        ({
            let (next, outcome, action) = pressed(view, Key::Char('s'));
            &&& next.options.scope == (match view.options.scope {
                scope::DiffScope::All => scope::DiffScope::Unstaged,
                scope::DiffScope::Unstaged => scope::DiffScope::Staged,
                scope::DiffScope::Staged => scope::DiffScope::Committed,
                scope::DiffScope::Committed => scope::DiffScope::All,
            })
            &&& next.options.baseline == view.options.baseline
            &&& next == (ViewModel { options: next.options, ..view })
            &&& outcome == ViewKeyOutcome::Handled
            &&& action == ViewAction::RunGit
        }),
        pressed(view, Key::Char('b')) == (view, ViewKeyOutcome::Handled, ViewAction::Nothing),
        pressed(view, Key::Enter) == (view, ViewKeyOutcome::Handled, ViewAction::Nothing),
        key != Key::Up && key != Key::Down && key != Key::Enter && key != Key::Char('j') && key
            != Key::Char('k') && key != Key::Char('J') && key != Key::Char('K') && key
            != Key::Char('n') && key != Key::Char('N') && key != Key::Char('r') && key
            != Key::Char('s') && key != Key::Char('b') ==> pressed(view, key) == (
            view,
            ViewKeyOutcome::NotHandled,
            ViewAction::Nothing,
        ),
{
}

/// The wheel moves the first row in sight by three, as far as there are rows, and the
/// cursor not at all, unless it is beyond the last row and the wheel goes down.
pub proof fn lemma_wheel(view: ViewModel)
    requires
        0 <= view.scroll,
        0 <= view.cursor,
    ensures
        ({
            let (next, outcome) = moused(view, Mouse::ScrollDown);
            let n = rows::rows(view.files).len() as int;
            &&& view.scroll + 3 < n ==> next.scroll == view.scroll + 3
            &&& 0 < n <= view.scroll + 3 ==> next.scroll == n - 1
            &&& n == 0 ==> next.scroll == 0 && next.cursor == 0
            &&& view.cursor < n ==> next.cursor == view.cursor
            &&& 0 < n <= view.cursor ==> next.cursor == n - 1
            &&& next == (ViewModel { scroll: next.scroll, cursor: next.cursor, ..view })
            &&& outcome == ViewKeyOutcome::Handled
        }),
        ({
            let (next, outcome) = moused(view, Mouse::ScrollUp);
            &&& view.scroll >= 3 ==> next.scroll == view.scroll - 3
            &&& view.scroll < 3 ==> next.scroll == 0
            &&& next == (ViewModel { scroll: next.scroll, ..view })
            &&& outcome == ViewKeyOutcome::Handled
        }),
        moused(view, Mouse::Other) == (view, ViewKeyOutcome::NotHandled),
{
}

/// A run that succeeds clears the error and keeps the options. The cursor stays where
/// it is if that is still a row, else it goes to the last one; the first row in sight
/// stays too, unless the cursor would be above it.
pub proof fn lemma_place_after_a_run(view: ViewModel, output: Seq<char>)
    requires
        0 <= view.scroll,
        0 <= view.cursor,
    ensures
        ({
            let next = loaded(view, output);
            let n = rows::rows(next.files).len() as int;
            &&& next.options == view.options
            &&& next.git_error is None
            &&& view.cursor < n ==> next.cursor == view.cursor
            &&& 0 < n <= view.cursor ==> next.cursor == n - 1
            &&& n == 0 ==> next.cursor == 0
            &&& view.scroll <= next.cursor ==> next.scroll == view.scroll
            &&& view.scroll > next.cursor ==> next.scroll == next.cursor
        }),
{
}

/// Output whose lines fit the limit is read whole, however its lines are ended; of
/// longer output the first fifty thousand lines are read, and the rest is counted.
pub proof fn lemma_output_is_read(
    view: ViewModel,
    lines: Seq<Seq<char>>,
    ending: Seq<char>,
)
    requires
        lines.len() > 0,
        ending == seq!['\n'] || ending == seq!['\r', '\n'],
        forall|i: int| 0 <= i < lines.len() ==> !(#[trigger] lines[i]).contains('\n'),
        forall|i: int|
            0 <= i < lines.len() && ending == seq!['\n'] ==> (#[trigger] lines[i]).len() == 0
                || lines[i].last() != '\r',
    ensures
        ({
            let next = loaded(view, text::joined(lines, ending) + ending);
            &&& lines.len() <= 50_000 ==> next.files == parser::steps(lines).files
                && next.truncated == 0
            &&& lines.len() > 50_000 ==> next.files == parser::steps(lines.take(50_000)).files
                && next.truncated == lines.len() - 50_000
        }),
{
    let output = text::joined(lines, ending) + ending;
    text::lemma_lines_of_joined(lines, ending);
    lemma_captured_fits(output);
}

/// The same of output whose last line has no ending; no output is no diff.
pub proof fn lemma_unended_output_is_read(view: ViewModel, lines: Seq<Seq<char>>)
    requires
        lines.len() > 0,
        lines.last().len() > 0,
        forall|i: int| 0 <= i < lines.len() ==> !(#[trigger] lines[i]).contains('\n'),
        forall|i: int|
            0 <= i < lines.len() - 1 ==> (#[trigger] lines[i]).len() == 0 || lines[i].last()
                != '\r',
    ensures
        ({
            let next = loaded(view, text::joined(lines, seq!['\n']));
            &&& lines.len() <= 50_000 ==> next.files == parser::steps(lines).files
                && next.truncated == 0
            &&& lines.len() > 50_000 ==> next.files == parser::steps(lines.take(50_000)).files
                && next.truncated == lines.len() - 50_000
        }),
        loaded(view, Seq::empty()).files.len() == 0,
        loaded(view, Seq::empty()).truncated == 0,
{
    text::lemma_lines_unended(lines);
    lemma_captured_fits(text::joined(lines, seq!['\n']));
    lemma_captured_fits(Seq::empty());
    let none = captured(Seq::empty());
    assert(text::joined(none, "\n"@) =~= Seq::<char>::empty());
    assert(text::fields(Seq::empty(), '\n') =~= seq![Seq::<char>::empty()]);
    let line = Seq::<char>::empty();
    reveal_strlit("diff --git ");
    assert(seq![line].drop_last() =~= Seq::<Seq<char>>::empty());
    assert(parser::steps(seq![line].drop_last()) == parser::start());
    assert(parser::steps(seq![line]).files.len() == 0);
}

/// A run that fails shows its message in place of the diff; the options and the place
/// stay.
pub proof fn lemma_failed_run(view: ViewModel, message: Seq<char>)
    ensures
        ({
            let next = failed(view, message);
            &&& next.files.len() == 0
            &&& next.truncated == 0
            &&& next.git_error == Some(message)
            &&& next.options == view.options
            &&& next.scroll == view.scroll
            &&& next.cursor == view.cursor
        }),
{
}

/// What a failed run is reported as: all that it wrote to standard error, without the
/// white space around it; its status if it wrote nothing; the error if it could not be
/// started.
pub proof fn lemma_failure_messages(
    view: ViewModel,
    run: GitRun,
    before: Seq<char>,
    said: Seq<char>,
    after: Seq<char>,
)
    requires
        forall|i: int| 0 <= i < before.len() ==> text::white_space(#[trigger] before[i]),
        forall|i: int| 0 <= i < after.len() ==> text::white_space(#[trigger] after[i]),
        said.len() > 0 ==> !text::white_space(said[0]) && !text::white_space(said.last()),
    ensures
        run matches GitRun::NotStarted { error } ==> ran(view, run).git_error == Some(
            "failed to run git: "@ + error@,
        ),
        run matches GitRun::Failed { status, stderr } ==> (text::utf8_lossy(stderr@) == before + said
            + after ==> ran(view, run).git_error == Some(
            if said.len() > 0 {
                said
            } else {
                "git diff exited with status "@ + status@
            },
        )),
{
    text::lemma_trimmed(before, said, after);
}

/// A view starts with these options at the top of nothing. What a run of `git` makes of
/// a view is what its output or its message does.
pub proof fn lemma_runs(view: ViewModel, options: OptionsModel, run: GitRun)
    ensures
        blank(options) == (ViewModel {
            options,
            files: Seq::empty(),
            truncated: 0,
            git_error: None,
            scroll: 0,
            cursor: 0,
        }),
        run matches GitRun::Finished { stdout } ==> ran(view, run) == loaded(
            view,
            text::utf8_lossy(stdout@),
        ),
        !(run is Finished) ==> ran(view, run).git_error is Some && ran(view, run) == failed(
            view,
            ran(view, run).git_error->0,
        ),
{
}

// ---------------------------------------------------------------------------
// The view
// ---------------------------------------------------------------------------

/// A diff view.
pub struct DiffView {
    options: DiffViewOptions,
    files: Vec<DiffFile>,
    truncated_lines: usize,
    git_error: Option<String>,
    scroll: usize,
    cursor: usize,
}

impl View for DiffView {
    type V = ViewModel;

    closed spec fn view(&self) -> ViewModel {
        ViewModel {
            options: self.options@,
            files: self.files.deep_view(),
            truncated: self.truncated_lines as int,
            git_error: match self.git_error {
                Some(message) => Some(message@),
                None => None,
            },
            scroll: self.scroll as int,
            cursor: self.cursor as int,
        }
    }
}

impl DiffView {
    #[verifier::type_invariant]
    closed spec fn fits(self) -> bool {
        self@.wf()
    }

    /// A view with these options, after its first run of `git`.
    pub fn new(options: DiffViewOptions, run: GitRun) -> (view: Self)
        ensures
            view@ == ran(blank(options@), run),
            (run matches GitRun::Finished { stdout } ==> valid_utf8(stdout@) ==> view@ == loaded(
                blank(options@),
                decode_utf8(stdout@),
            )),
            (run matches GitRun::Failed { status, stderr } ==> valid_utf8(stderr@) ==> view@
                == failed(blank(options@), failure_text(status@, decode_utf8(stderr@)))),
            view@.wf(),
    {
        let files: Vec<DiffFile> = Vec::new();
        assert(files.deep_view() =~= Seq::<FileModel>::empty());
        let mut view = DiffView {
            options,
            files,
            truncated_lines: 0,
            git_error: None,
            scroll: 0,
            cursor: 0,
        };
        view.rerun_git(run);
        view
    }

    pub fn files(&self) -> (files: &[DiffFile])
        ensures
            files.deep_view() == self@.files,
            self@.wf(),
    {
        proof {
            use_type_invariant(self);
        }
        let files = self.files.as_slice();
        assert(files.deep_view() =~= self.files.deep_view());
        files
    }

    pub fn truncated_lines(&self) -> (n: usize)
        ensures
            n == self@.truncated,
    {
        self.truncated_lines
    }

    pub fn options(&self) -> (options: &DiffViewOptions)
        ensures
            options@ == self@.options,
    {
        &self.options
    }

    /// The message of the last run of `git`, if it failed.
    pub fn git_error(&self) -> (error: Option<&String>)
        ensures
            error is Some <==> self@.git_error is Some,
            error matches Some(message) ==> message@ == self@.git_error->0,
    {
        self.git_error.as_ref()
    }

    /// The row that navigation starts from.
    pub fn cursor(&self) -> (row: usize)
        ensures
            row == self@.cursor,
    {
        self.cursor
    }

    /// The arguments to run `git` with.
    pub fn git_args(&self) -> (args: Vec<String>)
        ensures
            args.deep_view() == scope::diff_args(self@.options.scope, self@.options.baseline),
    {
        scope::scope_args(self.options.scope, self.options.baseline.as_str())
    }

    /// Takes in the outcome of a run of `git`.
    pub fn rerun_git(&mut self, run: GitRun)
        ensures
            final(self)@ == ran(old(self)@, run),
            (run matches GitRun::Finished { stdout } ==> valid_utf8(stdout@) ==> final(self)@
                == loaded(old(self)@, decode_utf8(stdout@))),
            (run matches GitRun::Failed { status, stderr } ==> valid_utf8(stderr@) ==> final(self)@
                == failed(old(self)@, failure_text(status@, decode_utf8(stderr@)))),
            final(self)@.wf(),
    {
        match run {
            GitRun::NotStarted { error } => {
                self.fail(String::from_str("failed to run git: ").concat(error.as_str()));
            },
            GitRun::Failed { status, stderr } => {
                let said = text::decode_lossy(stderr.as_slice());
                self.fail(failure_message(status.as_str(), said.as_str()));
            },
            GitRun::Finished { stdout } => {
                let output = text::decode_lossy(stdout.as_slice());
                self.load(output.as_str());
            },
        }
    }

    /// Shows `message` in place of a diff.
    pub fn fail(&mut self, message: String)
        ensures
            final(self)@ == failed(old(self)@, message@),
            final(self)@.wf(),
    {
        proof {
            use_type_invariant(&*self);
        }
        let files: Vec<DiffFile> = Vec::new();
        assert(files.deep_view() =~= Seq::<FileModel>::empty());
        self.git_error = Some(message);
        self.files = files;
        self.truncated_lines = 0;
    }

    /// Shows the diff that `git` printed as `output`.
    pub fn load(&mut self, output: &str)
        ensures
            final(self)@ == loaded(old(self)@, output@),
            final(self)@.wf(),
    {
        proof {
            use_type_invariant(&*self);
            lemma_captured_fits(output@);
        }
        let chars = text::chars_of(output);
        let mut lines = text::split_lines(chars.as_slice());
        let ghost all = lines.deep_view();
        let mut hidden: usize = 0;
        if lines.len() > MAX_DIFF_LINES {
            hidden = lines.len() - MAX_DIFF_LINES;
            lines.truncate(MAX_DIFF_LINES);
        }
        assert(lines.deep_view() =~= captured(output@));
        let files = parser::parse_unified_diff(text::join(&lines, "\n").as_str());
        let slice = files.as_slice();
        assert(slice.deep_view() =~= files.deep_view());
        let total: usize = rows::count_rows(slice);
        self.git_error = None;
        self.truncated_lines = hidden;
        self.files = files;
        if self.cursor >= total {
            self.cursor = if total > 0 {
                total - 1
            } else {
                0
            };
        }
        if self.scroll > self.cursor {
            self.scroll = self.cursor;
        }
    }

    pub fn total_render_lines(&self) -> (n: usize)
        ensures
            n == self@.total(),
    {
        rows::count_rows(self.files())
    }

    /// The rows at which a file begins.
    pub fn file_boundary_indices(&self) -> (indices: Vec<usize>)
        ensures
            rows::ints(indices@) == marks(self@, RowKind::File),
    {
        rows::file_positions(self.files())
    }

    /// The rows at which a hunk begins.
    pub fn hunk_indices(&self) -> (indices: Vec<usize>)
        ensures
            rows::ints(indices@) == marks(self@, RowKind::Hunk),
    {
        rows::hunk_positions(self.files())
    }

    fn move_to_next(&mut self, boundaries: &[usize])
        requires
            forall|i: int| 0 <= i < boundaries@.len() ==> #[trigger] boundaries@[i] < MAX_DIFF_LINES,
        ensures
            final(self)@ == (ViewModel {
                cursor: next_mark(rows::ints(boundaries@), old(self)@.cursor),
                ..old(self)@
            }),
    {
        proof {
            use_type_invariant(&*self);
        }
        let ghost marks = rows::ints(boundaries@);
        let row: usize = self.cursor;
        assert(marks.skip(0) =~= marks);
        for i in 0..boundaries.len()
            invariant
                marks == rows::ints(boundaries@),
                forall|i: int|
                    0 <= i < boundaries@.len() ==> #[trigger] boundaries@[i] < MAX_DIFF_LINES,
                row == old(self)@.cursor,
                self@ == old(self)@,
                self@.wf(),
                first_above(marks, row as int) == first_above(marks.skip(i as int), row as int),
        {
            assert(marks.skip(i as int)[0] == boundaries@[i as int]);
            assert(marks.skip(i as int).skip(1) =~= marks.skip(i + 1));
            if boundaries[i] > row {
                self.cursor = boundaries[i];
                return;
            }
        }
        assert(first_above(marks, row as int) is None);
        if boundaries.len() > 0 {
            assert(marks.last() == boundaries@[boundaries@.len() - 1]);
            self.cursor = boundaries[boundaries.len() - 1];
        }
    }

    fn move_to_prev(&mut self, boundaries: &[usize])
        requires
            forall|i: int| 0 <= i < boundaries@.len() ==> #[trigger] boundaries@[i] < MAX_DIFF_LINES,
        ensures
            final(self)@ == (ViewModel {
                cursor: previous_mark(rows::ints(boundaries@), old(self)@.cursor),
                ..old(self)@
            }),
    {
        proof {
            use_type_invariant(&*self);
        }
        let ghost marks = rows::ints(boundaries@);
        let row: usize = self.cursor;
        let mut i: usize = boundaries.len();
        assert(marks.take(i as int) =~= marks);
        while i > 0
            invariant
                marks == rows::ints(boundaries@),
                forall|i: int|
                    0 <= i < boundaries@.len() ==> #[trigger] boundaries@[i] < MAX_DIFF_LINES,
                i <= boundaries@.len(),
                row == old(self)@.cursor,
                self@ == old(self)@,
                self@.wf(),
                last_below(marks, row as int) == last_below(marks.take(i as int), row as int),
            decreases i,
        {
            assert(marks.take(i as int).last() == boundaries@[i - 1]);
            assert(marks.take(i as int).drop_last() =~= marks.take(i - 1));
            if boundaries[i - 1] < row {
                self.cursor = boundaries[i - 1];
                return;
            }
            i = i - 1;
        }
        assert(last_below(marks, row as int) is None);
        if boundaries.len() > 0 {
            assert(marks[0] == boundaries@[0]);
            self.cursor = boundaries[0];
        }
    }

    /// Moves to these row numbers, held to the last row.
    fn clamp_scroll(&mut self, cursor: usize, scroll: usize)
        ensures
            final(self)@ == clamped(
                ViewModel { cursor: cursor as int, scroll: scroll as int, ..old(self)@ },
            ),
    {
        proof {
            use_type_invariant(&*self);
        }
        let total: usize = self.total_render_lines();
        let last_index: usize = if total > 0 {
            total - 1
        } else {
            0
        };
        self.cursor = if cursor > last_index {
            last_index
        } else {
            cursor
        };
        self.scroll = if scroll > last_index {
            last_index
        } else {
            scroll
        };
    }

    /// Moves to the next row at which something of `kind` begins.
    fn step_forward(&mut self, kind: RowKind)
        requires
            kind == RowKind::File || kind == RowKind::Hunk,
        ensures
            final(self)@ == at_row(
                old(self)@,
                next_mark(marks(old(self)@, kind), old(self)@.cursor),
            ),
    {
        proof {
            use_type_invariant(&*self);
        }
        let boundaries = self.boundaries(kind);
        self.move_to_next(boundaries.as_slice());
        proof {
            use_type_invariant(&*self);
        }
        self.scroll = self.cursor;
    }

    /// Moves back to the row before at which something of `kind` begins.
    fn step_back(&mut self, kind: RowKind)
        requires
            kind == RowKind::File || kind == RowKind::Hunk,
        ensures
            final(self)@ == at_row(
                old(self)@,
                previous_mark(marks(old(self)@, kind), old(self)@.cursor),
            ),
    {
        proof {
            use_type_invariant(&*self);
        }
        let boundaries = self.boundaries(kind);
        self.move_to_prev(boundaries.as_slice());
        proof {
            use_type_invariant(&*self);
        }
        self.scroll = self.cursor;
    }

    fn boundaries(&self, kind: RowKind) -> (indices: Vec<usize>)
        requires
            kind == RowKind::File || kind == RowKind::Hunk,
        ensures
            rows::ints(indices@) == marks(self@, kind),
            forall|i: int| 0 <= i < indices@.len() ==> #[trigger] indices@[i] < MAX_DIFF_LINES,
    {
        let indices = if kind == RowKind::File {
            self.file_boundary_indices()
        } else {
            self.hunk_indices()
        };
        proof {
            use_type_invariant(self);
            rows::lemma_positions(rows::rows(self@.files), kind);
            assert forall|i: int| 0 <= i < indices@.len() implies #[trigger] indices@[i]
                < MAX_DIFF_LINES by {
                assert(rows::ints(indices@)[i] == indices@[i]);
            }
        }
        indices
    }

    /// Handles a key press routed to this view.
    pub fn handle_key(&mut self, key: Key) -> (reply: (ViewKeyOutcome, ViewAction))
        ensures
            (final(self)@, reply.0, reply.1) == pressed(old(self)@, key),
            final(self)@.wf(),
    {
        proof {
            use_type_invariant(&*self);
        }
        let mut action = ViewAction::Nothing;
        match key {
            Key::Char('j') | Key::Down => {
                self.clamp_scroll(self.cursor + 1, self.scroll + 1);
            },
            Key::Char('k') | Key::Up => {
                self.cursor = self.cursor.saturating_sub(1);
                self.scroll = self.scroll.saturating_sub(1);
            },
            Key::Char('J') => {
                self.step_forward(RowKind::File);
            },
            Key::Char('K') => {
                self.step_back(RowKind::File);
            },
            Key::Char('n') => {
                self.step_forward(RowKind::Hunk);
            },
            Key::Char('N') => {
                self.step_back(RowKind::Hunk);
            },
            Key::Char('r') => {
                action = ViewAction::RunGit;
            },
            Key::Char('s') => {
                self.options.scope = self.options.scope.next();
                action = ViewAction::RunGit;
            },
            // Changing the baseline and opening a file are not offered yet.
            Key::Char('b') | Key::Enter => {},
            _ => {
                return (ViewKeyOutcome::NotHandled, action);
            },
        }
        proof {
            use_type_invariant(&*self);
        }
        (ViewKeyOutcome::Handled, action)
    }

    /// Handles a mouse event routed to this view.
    pub fn handle_mouse(&mut self, mouse: Mouse, _area: Area) -> (outcome: ViewKeyOutcome)
        ensures
            (final(self)@, outcome) == moused(old(self)@, mouse),
            final(self)@.wf(),
    {
        proof {
            use_type_invariant(&*self);
        }
        match mouse {
            Mouse::ScrollDown => {
                self.clamp_scroll(self.cursor, self.scroll + 3);
                proof {
                    use_type_invariant(&*self);
                }
                ViewKeyOutcome::Handled
            },
            Mouse::ScrollUp => {
                self.scroll = self.scroll.saturating_sub(3);
                ViewKeyOutcome::Handled
            },
            Mouse::Other => ViewKeyOutcome::NotHandled,
        }
    }

    /// What to do when files of the workspace changed.
    pub fn on_files_changed(&self, _paths: &[String]) -> (action: ViewAction)
        ensures
            action == ViewAction::RunGit,
    {
        ViewAction::RunGit
    }

    /// What to do to bring the view up to date.
    pub fn refresh(&self) -> (action: ViewAction)
        ensures
            action == ViewAction::RunGit,
    {
        ViewAction::RunGit
    }

    /// How many rows of the diff sit above the viewport.
    pub fn scroll_offset(&self) -> (offset: u16)
        ensures
            offset == self@.scroll,
    {
        proof {
            use_type_invariant(self);
        }
        self.scroll as u16
    }

    /// Title shown in the pane border: the kind of view alone, so that it stays
    /// readable on narrow panes.
    pub fn title(&self) -> (title: &'static str)
        ensures
            title@ == "diff"@,
    {
        "diff"
    }
}

/// What a failed run is reported as.
pub fn failure_message(status: &str, stderr: &str) -> (message: String)
    ensures
        message@ == failure_text(status@, stderr@),
{
    let chars = text::chars_of(stderr);
    let said = text::trim(chars.as_slice());
    if said.len() == 0 {
        String::from_str("git diff exited with status ").concat(status)
    } else {
        text::string_of(said)
    }
}

} // verus!
