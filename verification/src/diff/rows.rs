//! The rows that a parsed diff is shown as, one under the other.
use vstd::prelude::*;

use super::parser;
use super::parser::{DiffFile, DiffHunk, FileModel, HunkLine, HunkModel, LineModel};
use crate::text;

verus! {

/// What a row shows.
#[derive(Debug, Clone, Copy, PartialEq, Eq, Structural)]
pub enum RowKind {
    File,
    Hunk,
    Added,
    Removed,
    Context,
    Binary,
}

/// One row of the diff: what it shows and its text.
#[derive(Debug, PartialEq, Eq)]
pub struct Row {
    pub kind: RowKind,
    pub text: String,
}

/// What a [`Row`] holds.
#[verifier::ext_equal]
pub struct RowModel {
    pub kind: RowKind,
    pub text: Seq<char>,
}

impl DeepView for Row {
    type V = RowModel;

    open spec fn deep_view(&self) -> RowModel {
        RowModel { kind: self.kind, text: self.text@ }
    }
}

// ---------------------------------------------------------------------------
// The rows of a diff
// ---------------------------------------------------------------------------

pub open spec fn file_header_text(file: FileModel) -> Seq<char> {
    match file.rename_from {
        Some(from) => "── "@ + from + " → "@ + file.path + " ──"@,
        None => "── "@ + file.path + " ──"@,
    }
}

pub open spec fn hunk_header_text(hunk: HunkModel) -> Seq<char> {
    "@@ -"@ + text::decimal(hunk.old_range.0 as nat) + ","@ + text::decimal(
        hunk.old_range.1 as nat,
    ) + " +"@ + text::decimal(hunk.new_range.0 as nat) + ","@ + text::decimal(
        hunk.new_range.1 as nat,
    ) + " @@ "@ + hunk.heading
}

pub open spec fn line_row(line: LineModel) -> RowModel {
    match line {
        LineModel::Added(s) => RowModel { kind: RowKind::Added, text: "+"@ + s },
        LineModel::Removed(s) => RowModel { kind: RowKind::Removed, text: "-"@ + s },
        LineModel::Context(s) => RowModel { kind: RowKind::Context, text: " "@ + s },
    }
}

/// A hunk's header, then its lines.
pub open spec fn hunk_rows(hunk: HunkModel) -> Seq<RowModel> {
    seq![RowModel { kind: RowKind::Hunk, text: hunk_header_text(hunk) }] + hunk.lines.map_values(
        |line: LineModel| line_row(line),
    )
}

pub open spec fn hunks_rows(hunks: Seq<HunkModel>) -> Seq<RowModel>
    decreases hunks.len(),
{
    if hunks.len() == 0 {
        Seq::empty()
    } else {
        hunks_rows(hunks.drop_last()) + hunk_rows(hunks.last())
    }
}

/// The note in place of a binary file's content, if `file` is one.
pub open spec fn binary_note(file: FileModel) -> Seq<RowModel> {
    if file.binary {
        seq![RowModel { kind: RowKind::Binary, text: "(binary file — diff suppressed)"@ }]
    } else {
        Seq::empty()
    }
}

/// A file's header, its hunks, and the note if it is binary.
pub open spec fn file_rows(file: FileModel) -> Seq<RowModel> {
    seq![RowModel { kind: RowKind::File, text: file_header_text(file) }] + hunks_rows(file.hunks)
        + binary_note(file)
}

/// The rows of all files, in order.
pub open spec fn rows(files: Seq<FileModel>) -> Seq<RowModel>
    decreases files.len(),
{
    if files.len() == 0 {
        Seq::empty()
    } else {
        rows(files.drop_last()) + file_rows(files.last())
    }
}

/// The indices of the rows of one kind, ascending.
pub open spec fn positions(rows: Seq<RowModel>, kind: RowKind) -> Seq<int>
    decreases rows.len(),
{
    if rows.len() == 0 {
        Seq::empty()
    } else {
        let before = positions(rows.drop_last(), kind);
        if rows.last().kind == kind {
            before.push(rows.len() - 1)
        } else {
            before
        }
    }
}

/// Indices as integers.
pub open spec fn ints(s: Seq<usize>) -> Seq<int> {
    s.map_values(|i: usize| i as int)
}

// ---------------------------------------------------------------------------
// Facts about rows
// ---------------------------------------------------------------------------

proof fn lemma_rows_push(files: Seq<FileModel>, file: FileModel)
    ensures
        rows(files.push(file)) == rows(files) + file_rows(file),
{
    assert(files.push(file).drop_last() =~= files);
}

proof fn lemma_hunks_rows_push(hunks: Seq<HunkModel>, hunk: HunkModel)
    ensures
        hunks_rows(hunks.push(hunk)) == hunks_rows(hunks) + hunk_rows(hunk),
{
    assert(hunks.push(hunk).drop_last() =~= hunks);
}

/// Every position is the index of a row of that kind, every such row is
/// found, and the positions ascend.
pub proof fn lemma_positions(rows: Seq<RowModel>, kind: RowKind)
    ensures
        forall|k: int| 0 <= k < positions(rows, kind).len() ==> {
            let p = #[trigger] positions(rows, kind)[k];
            0 <= p < rows.len() && rows[p].kind == kind
        },
        forall|i: int|
            0 <= i < rows.len() && (#[trigger] rows[i]).kind == kind ==> positions(
                rows,
                kind,
            ).contains(i),
        forall|j: int, k: int|
            0 <= j < k < positions(rows, kind).len() ==> positions(rows, kind)[j] < positions(
                rows,
                kind,
            )[k],
    decreases rows.len(),
{
    let all = positions(rows, kind);
    if rows.len() > 0 {
        let shorter = rows.drop_last();
        let before = positions(shorter, kind);
        lemma_positions(shorter, kind);
        assert forall|k: int| 0 <= k < all.len() implies {
            let p = #[trigger] all[k];
            0 <= p < rows.len() && rows[p].kind == kind
        } by {
            if k < before.len() {
                assert(all[k] == before[k]);
                assert(shorter[before[k]] == rows[before[k]]);
            }
        }
        assert forall|i: int|
            0 <= i < rows.len() && (#[trigger] rows[i]).kind == kind implies all.contains(i) by {
            if i < shorter.len() {
                assert(shorter[i] == rows[i]);
                let k = choose|k: int| 0 <= k < before.len() && before[k] == i;
                assert(all[k] == i);
            } else {
                assert(all[all.len() - 1] == i);
            }
        }
        assert forall|j: int, k: int| 0 <= j < k < all.len() implies all[j] < all[k] by {
            assert(all[j] == before[j]);
            if k < before.len() {
                assert(all[k] == before[k]);
            }
        }
    }
}

proof fn lemma_positions_concat(a: Seq<RowModel>, b: Seq<RowModel>, kind: RowKind)
    ensures
        positions(a + b, kind) == positions(a, kind) + positions(b, kind).map_values(
            |p: int| p + a.len(),
        ),
    decreases b.len(),
{
    let shift = |p: int| p + a.len();
    if b.len() == 0 {
        assert(a + b =~= a);
        assert(positions(a + b, kind) =~= positions(a, kind) + positions(b, kind).map_values(
            shift,
        ));
    } else {
        let shorter = b.drop_last();
        lemma_positions_concat(a, shorter, kind);
        assert((a + b).drop_last() =~= a + shorter);
        assert((a + b).last() == b.last());
        assert(positions(a + b, kind) =~= positions(a, kind) + positions(b, kind).map_values(
            shift,
        ));
    }
}

/// Rows none of which is of `kind` have no positions.
proof fn lemma_no_positions(rows: Seq<RowModel>, kind: RowKind)
    requires
        forall|i: int| 0 <= i < rows.len() ==> (#[trigger] rows[i]).kind != kind,
    ensures
        positions(rows, kind) == Seq::<int>::empty(),
    decreases rows.len(),
{
    if rows.len() > 0 {
        let shorter = rows.drop_last();
        assert forall|i: int| 0 <= i < shorter.len() implies (#[trigger] shorter[i]).kind
            != kind by {
            assert(shorter[i] == rows[i]);
        }
        lemma_no_positions(shorter, kind);
        assert(rows[rows.len() - 1].kind != kind);
    }
    assert(positions(rows, kind) =~= Seq::<int>::empty());
}

proof fn lemma_hunks_rows_kinds(hunks: Seq<HunkModel>)
    ensures
        forall|i: int|
            0 <= i < hunks_rows(hunks).len() ==> (#[trigger] hunks_rows(hunks)[i]).kind
                != RowKind::File,
    decreases hunks.len(),
{
    if hunks.len() > 0 {
        lemma_hunks_rows_kinds(hunks.drop_last());
        let before = hunks_rows(hunks.drop_last());
        let own = hunk_rows(hunks.last());
        assert forall|i: int| 0 <= i < hunks_rows(hunks).len() implies (#[trigger] hunks_rows(
            hunks,
        )[i]).kind != RowKind::File by {
            if i < before.len() {
                assert(hunks_rows(hunks)[i] == before[i]);
            } else {
                assert(hunks_rows(hunks)[i] == own[i - before.len()]);
            }
        }
    }
}

proof fn lemma_single_position(row: RowModel)
    ensures
        positions(seq![row], row.kind) == seq![0int],
        forall|kind: RowKind| kind != row.kind ==> #[trigger] positions(seq![row], kind)
            == Seq::<int>::empty(),
{
    let one = seq![row];
    assert(one.drop_last() =~= Seq::<RowModel>::empty());
    assert forall|kind: RowKind| true implies #[trigger] positions(one, kind) == if kind
        == row.kind {
        seq![0int]
    } else {
        Seq::<int>::empty()
    } by {
        assert(positions(one.drop_last(), kind) =~= Seq::<int>::empty());
        assert(positions(one, kind) =~= if kind == row.kind {
            seq![0int]
        } else {
            Seq::<int>::empty()
        });
    }
}

/// A file's only file row is its first.
proof fn lemma_file_positions(file: FileModel)
    ensures
        positions(file_rows(file), RowKind::File) == seq![0int],
{
    let head = seq![RowModel { kind: RowKind::File, text: file_header_text(file) }];
    let tail = hunks_rows(file.hunks) + binary_note(file);
    lemma_hunks_rows_kinds(file.hunks);
    lemma_no_positions(tail, RowKind::File);
    lemma_single_position(head[0]);
    lemma_positions_concat(head, tail, RowKind::File);
    assert(file_rows(file) =~= head + tail);
    assert(positions(file_rows(file), RowKind::File) =~= seq![0int]);
}

/// A hunk's only hunk row is its first.
proof fn lemma_hunk_positions(hunk: HunkModel)
    ensures
        positions(hunk_rows(hunk), RowKind::Hunk) == seq![0int],
{
    let head = seq![RowModel { kind: RowKind::Hunk, text: hunk_header_text(hunk) }];
    let tail = hunk.lines.map_values(|line: LineModel| line_row(line));
    lemma_no_positions(tail, RowKind::Hunk);
    lemma_single_position(head[0]);
    lemma_positions_concat(head, tail, RowKind::Hunk);
    assert(positions(hunk_rows(hunk), RowKind::Hunk) =~= seq![0int]);
}

proof fn lemma_rows_last(files: Seq<FileModel>)
    requires
        files.len() > 0,
    ensures
        rows(files).len() == rows(files.drop_last()).len() + file_rows(files.last()).len(),
{
}

/// One line of a diff adds at most one row.
proof fn lemma_step_rows(state: parser::ParseState, line: Seq<char>)
    requires
        parser::coherent(state),
    ensures
        rows(parser::step(state, line).files).len() <= rows(state.files).len() + 1,
{
    let next = parser::step(state, line);
    if let parser::DiffLine::FileHeader(path) = parser::said(line, state.in_hunk) {
        let file = parser::new_file(path);
        lemma_rows_push(state.files, file);
        assert(file_rows(file).len() == 1);
    } else if state.files.len() > 0 {
        let file = state.files.last();
        let rest = state.files.drop_last();
        let changed = next.files.last();
        lemma_rows_last(state.files);
        lemma_rows_last(next.files);
        assert(next.files.drop_last() =~= rest);
        match parser::said(line, state.in_hunk) {
            parser::DiffLine::HunkHeader(Some(hunk)) => {
                if !file.binary {
                    lemma_hunks_rows_push(file.hunks, hunk);
                    assert(hunk.lines.len() == 0);
                    assert(hunk_rows(hunk).len() == 1);
                }
            },
            parser::DiffLine::Body(_) => {
                let init = file.hunks.drop_last();
                let grown = changed.hunks.last();
                assert(init.push(file.hunks.last()) =~= file.hunks);
                lemma_hunks_rows_push(init, file.hunks.last());
                lemma_hunks_rows_push(init, grown);
            },
            _ => {},
        }
    }
}

/// A diff is never shown on more rows than it has lines.
pub proof fn lemma_rows_bounded(lines: Seq<Seq<char>>)
    ensures
        rows(parser::steps(lines).files).len() <= lines.len(),
    decreases lines.len(),
{
    if lines.len() > 0 {
        lemma_rows_bounded(lines.drop_last());
        parser::lemma_steps_coherent(lines.drop_last());
        lemma_step_rows(parser::steps(lines.drop_last()), lines.last());
    }
}

/// A position and count as they stand in a hunk header.
pub open spec fn range_text(range: (u32, u32)) -> Seq<char> {
    text::decimal(range.0 as nat) + ","@ + text::decimal(range.1 as nat)
}

proof fn lemma_range_reads_back(range: (u32, u32), tail: Seq<char>)
    ensures
        parser::range(range_text(range)) == Some(range),
        text::cut(range_text(range) + " "@ + tail, " "@) == Some((range_text(range), tail)),
{
    reveal_strlit(",");
    reveal_strlit(" ");
    assert(","@ =~= seq![',']);
    assert(" "@ =~= seq![' ']);
    let start = text::decimal(range.0 as nat);
    let count = text::decimal(range.1 as nat);
    text::lemma_decimal_digits(range.0 as nat);
    text::lemma_decimal_digits(range.1 as nat);
    text::lemma_number_of_decimal(range.0);
    text::lemma_number_of_decimal(range.1);
    assert(!start.contains(','));
    text::lemma_cut(start, ',', count);
    assert(!range_text(range).contains(' ')) by {
        assert forall|i: int| 0 <= i < range_text(range).len() implies range_text(range)[i]
            != ' ' by {
            if i < start.len() {
                assert(text::is_digit(start[i]));
            } else if i > start.len() {
                assert(text::is_digit(count[i - start.len() - 1]));
            }
        }
    }
    text::lemma_cut(range_text(range), ' ', tail);
}

/// A line that begins with two at signs is a hunk header, in a hunk or not.
proof fn lemma_hunk_header_line(rest: Seq<char>, in_hunk: bool)
    ensures
        parser::said("@@"@ + rest, in_hunk) == parser::DiffLine::HunkHeader(
            parser::hunk_header(rest),
        ),
{
    let line = "@@"@ + rest;
    reveal_strlit("@@");
    reveal_strlit("diff --git ");
    reveal_strlit("rename from ");
    reveal_strlit("rename to ");
    reveal_strlit("Binary files ");
    reveal_strlit("+++ b/");
    reveal_strlit("--- ");
    reveal_strlit("+++ ");
    reveal_strlit("index ");
    reveal_strlit("new file mode ");
    reveal_strlit("deleted file mode ");
    reveal_strlit("old mode ");
    reveal_strlit("new mode ");
    reveal_strlit("similarity index ");
    reveal_strlit("dissimilarity index ");
    reveal_strlit("copy from ");
    reveal_strlit("copy to ");
    reveal_strlit("+");
    reveal_strlit("-");
    reveal_strlit(" ");
    assert(line[0] == '@');
    assert(line.skip(2) =~= rest);
    assert("@@"@.is_prefix_of(line));
}

proof fn lemma_signed_range(sign: char, range: (u32, u32), tail: Seq<char>)
    requires
        !text::white_space(sign),
    ensures
        parser::signed_word(seq![' ', sign] + range_text(range) + " "@ + tail, seq![sign]) == Some(
            (range_text(range), tail),
        ),
        parser::signed_word(seq![sign] + range_text(range) + " "@ + tail, seq![sign]) == Some(
            (range_text(range), tail),
        ),
{
    let word = range_text(range) + " "@ + tail;
    let bare = seq![sign] + range_text(range) + " "@ + tail;
    let spaced = seq![' ', sign] + range_text(range) + " "@ + tail;
    lemma_range_reads_back(range, tail);
    assert(bare.skip(1) =~= word);
    assert(seq![sign].is_prefix_of(bare));
    assert(bare[0] == sign);
    assert(text::trimmed_start(bare) == bare);
    assert(spaced[0] == ' ');
    assert(spaced.skip(1) =~= bare);
}

proof fn lemma_heading_reads_back(heading: Seq<char>)
    requires
        text::trimmed_start(heading) == heading,
    ensures
        parser::heading("@@"@ + (" "@ + heading)) == heading,
{
    let spaced = " "@ + heading;
    let whole = "@@"@ + spaced;
    reveal_strlit("@@");
    reveal_strlit(" ");
    assert(whole[0] == '@');
    assert("@@"@.is_prefix_of(whole));
    assert(whole.skip(2) =~= spaced);
    assert(spaced[0] == ' ');
    assert(spaced.skip(1) =~= heading);
}

proof fn lemma_header_shape(
    a: Seq<char>,
    b: Seq<char>,
    c: Seq<char>,
    d: Seq<char>,
    heading: Seq<char>,
)
    ensures
        "@@ -"@ + a + ","@ + b + " +"@ + c + ","@ + d + " @@ "@ + heading == "@@"@ + (seq![' ', '-']
            + (a + ","@ + b) + " "@ + (seq!['+'] + (c + ","@ + d) + " "@ + ("@@"@ + (" "@
            + heading)))),
{
    reveal_strlit("@@ -");
    reveal_strlit(" +");
    reveal_strlit(" @@ ");
    reveal_strlit(" ");
    reveal_strlit("@@");
    assert("@@ -"@ =~= "@@"@ + seq![' ', '-']);
    assert(" +"@ =~= " "@ + seq!['+']);
    assert(" @@ "@ =~= " "@ + "@@"@ + " "@);
    assert("@@ -"@ + a + ","@ + b + " +"@ + c + ","@ + d + " @@ "@ + heading =~= "@@"@ + (seq![
        ' ',
        '-',
    ] + (a + ","@ + b) + " "@ + (seq!['+'] + (c + ","@ + d) + " "@ + ("@@"@ + (" "@ + heading)))));
}

/// What is shown of a hunk's header reads back as that header, for any heading
/// that does not begin with white space.
pub proof fn lemma_hunk_header_reads_back(hunk: HunkModel, in_hunk: bool)
    requires
        text::trimmed_start(hunk.heading) == hunk.heading,
    ensures
        parser::said(hunk_header_text(hunk), in_hunk) == parser::DiffLine::HunkHeader(
            Some(HunkModel { lines: Seq::empty(), ..hunk }),
        ),
{
    let old_part = range_text(hunk.old_range);
    let new_part = range_text(hunk.new_range);
    let spaced = " "@ + hunk.heading;
    let after_new = "@@"@ + spaced;
    let after_old = seq!['+'] + new_part + " "@ + after_new;
    let rest = seq![' ', '-'] + old_part + " "@ + after_old;
    lemma_header_shape(
        text::decimal(hunk.old_range.0 as nat),
        text::decimal(hunk.old_range.1 as nat),
        text::decimal(hunk.new_range.0 as nat),
        text::decimal(hunk.new_range.1 as nat),
        hunk.heading,
    );
    lemma_signed_range('-', hunk.old_range, after_old);
    lemma_signed_range('+', hunk.new_range, after_new);
    assert("-"@ =~= seq!['-']) by {
        reveal_strlit("-");
    }
    assert("+"@ =~= seq!['+']) by {
        reveal_strlit("+");
    }
    lemma_range_reads_back(hunk.old_range, after_old);
    lemma_range_reads_back(hunk.new_range, after_new);
    lemma_heading_reads_back(hunk.heading);
    lemma_hunk_header_line(rest, in_hunk);
}

/// Every hunk header that was read is shown in a form that reads back as the
/// same header.
pub proof fn lemma_read_header_reads_back(rest: Seq<char>, in_hunk: bool)
    requires
        parser::hunk_header(rest) is Some,
    ensures
        parser::said(hunk_header_text(parser::hunk_header(rest)->0), in_hunk)
            == parser::DiffLine::HunkHeader(parser::hunk_header(rest)),
{
    let hunk = parser::hunk_header(rest)->0;
    let (_, after_old) = parser::signed_word(rest, "-"@)->0;
    let (_, after_new) = parser::signed_word(after_old, "+"@)->0;
    let tail = text::trimmed_start(after_new);
    assert(hunk.heading == parser::heading(after_new));
    match text::without_prefix(tail, "@@"@) {
        Some(after) => text::lemma_trimmed_start_twice(after),
        None => text::lemma_trimmed_start_twice(tail),
    }
    lemma_hunk_header_reads_back(hunk, in_hunk);
}

/// What is shown of a line of a hunk reads back as that line in an open hunk,
/// whatever its text is.
pub proof fn lemma_body_line_reads_back(line: LineModel)
    ensures
        parser::said(line_row(line).text, true) == parser::DiffLine::Body(line),
{
    reveal_strlit("+");
    reveal_strlit("-");
    reveal_strlit(" ");
    let shown = line_row(line).text;
    match line {
        LineModel::Added(s) => {
            assert(shown.skip(1) =~= s);
            assert("+"@.is_prefix_of(shown));
        },
        LineModel::Removed(s) => {
            assert(shown.skip(1) =~= s);
            assert("-"@.is_prefix_of(shown));
            assert("+"@[0] != shown[0]);
        },
        LineModel::Context(s) => {
            assert(shown.skip(1) =~= s);
            assert(" "@.is_prefix_of(shown));
            assert("+"@[0] != shown[0]);
            assert("-"@[0] != shown[0]);
        },
    }
}

/// The texts of rows.
pub open spec fn row_texts(rows: Seq<RowModel>) -> Seq<Seq<char>> {
    rows.map_values(|row: RowModel| row.text)
}

/// What is shown of a hunk reads back, after the header of a file that is not
/// binary, as one more hunk of that file, with the same lines.
pub proof fn lemma_hunk_reads_back(state: parser::ParseState, hunk: HunkModel)
    requires
        state.files.len() > 0,
        !state.files.last().binary,
        text::trimmed_start(hunk.heading) == hunk.heading,
    ensures
        ({
            let file = state.files.last();
            parser::steps_from(state, row_texts(hunk_rows(hunk))) == (parser::ParseState {
                files: state.files.drop_last().push(
                    FileModel { hunks: file.hunks.push(hunk), ..file },
                ),
                in_hunk: true,
            })
        }),
    decreases hunk.lines.len(),
{
    let shown = row_texts(hunk_rows(hunk));
    let file = state.files.last();
    let after = parser::steps_from(state, shown);
    let expected = parser::ParseState {
        files: state.files.drop_last().push(FileModel { hunks: file.hunks.push(hunk), ..file }),
        in_hunk: true,
    };
    if hunk.lines.len() == 0 {
        lemma_hunk_header_reads_back(hunk, state.in_hunk);
        assert(shown =~= seq![hunk_header_text(hunk)]);
        assert(parser::steps_from(state, shown.drop_last()) == state);
        assert(HunkModel { lines: Seq::empty(), ..hunk } =~= hunk);
        assert(after =~= expected);
    } else {
        let shorter = HunkModel { lines: hunk.lines.drop_last(), ..hunk };
        lemma_hunk_reads_back(state, shorter);
        lemma_body_line_reads_back(hunk.lines.last());
        assert(shown.drop_last() =~= row_texts(hunk_rows(shorter)));
        assert(shown.last() == line_row(hunk.lines.last()).text);
        let before = parser::steps_from(state, shown.drop_last());
        let open = before.files.last();
        assert(before.files.drop_last() =~= state.files.drop_last());
        assert(open.hunks.drop_last() =~= file.hunks);
        assert(hunk.lines.drop_last().push(hunk.lines.last()) =~= hunk.lines);
        assert(parser::with_line(open, hunk.lines.last()) =~= (FileModel {
            hunks: file.hunks.push(hunk),
            ..file
        }));
        assert(after =~= expected);
    }
}

/// A file's rows begin with its header, which shows its whole path, after its rename
/// source if it has one.
pub proof fn lemma_shown_file_header(file: FileModel)
    ensures
        rows(seq![file]).len() >= 1,
        rows(seq![file])[0] == (RowModel {
            kind: RowKind::File,
            text: match file.rename_from {
                Some(from) => "── "@ + from + " → "@ + file.path + " ──"@,
                None => "── "@ + file.path + " ──"@,
            },
        }),
{
    lemma_rows_of_one(file);
}

proof fn lemma_rows_of_one(file: FileModel)
    ensures
        rows(seq![file]) == file_rows(file),
{
    assert(seq![file].drop_last() =~= Seq::<FileModel>::empty());
    assert(rows(seq![file].drop_last()) =~= Seq::<RowModel>::empty());
    assert(rows(seq![file]) =~= file_rows(file));
}

/// Files with different paths, or renamed to one path from different ones, have
/// different headers.
pub proof fn lemma_different_files_look_different(a: FileModel, b: FileModel)
    requires
        a.rename_from is None && b.rename_from is None && a.path != b.path || (a.rename_from is Some
            && b.rename_from is Some && a.path == b.path && a.rename_from != b.rename_from),
    ensures
        rows(seq![a])[0].text != rows(seq![b])[0].text,
{
    lemma_shown_file_header(a);
    lemma_shown_file_header(b);
    let x = rows(seq![a])[0].text;
    let y = rows(seq![b])[0].text;
    let n = "── "@.len() as int;
    if x == y {
        if a.rename_from is None {
            let m = " ──"@.len() as int;
            assert(x.subrange(n, x.len() - m) =~= a.path);
            assert(y.subrange(n, y.len() - m) =~= b.path);
        } else {
            let m = " → "@.len() + a.path.len() + " ──"@.len();
            assert(x.subrange(n, x.len() - m) =~= a.rename_from->0);
            assert(y.subrange(n, y.len() - m) =~= b.rename_from->0);
        }
    }
}

/// The rows of a diff are those of its files, one file under the other.
pub proof fn lemma_rows_concat(a: Seq<FileModel>, b: Seq<FileModel>)
    ensures
        rows(a + b) == rows(a) + rows(b),
    decreases b.len(),
{
    if b.len() == 0 {
        assert(a + b =~= a);
        assert(rows(a) + rows(b) =~= rows(a));
    } else {
        lemma_rows_concat(a, b.drop_last());
        assert((a + b).drop_last() =~= a + b.drop_last());
        assert(rows(a + b) =~= rows(a) + rows(b));
    }
}

/// One more hunk of a file adds its header and its lines at the end of the file's
/// rows: the ranges and the heading, and each line with its sign in front, all of it
/// and in order.
pub proof fn lemma_shown_hunk(file: FileModel, hunk: HunkModel)
    requires
        !file.binary,
    ensures
        ({
            let before = rows(seq![file]);
            let after = rows(seq![FileModel { hunks: file.hunks.push(hunk), ..file }]);
            let n = before.len() as int;
            &&& after.len() == n + 1 + hunk.lines.len()
            &&& after.take(n) == before
            &&& after[n] == (RowModel {
                kind: RowKind::Hunk,
                text: "@@ -"@ + text::decimal(hunk.old_range.0 as nat) + ","@ + text::decimal(
                    hunk.old_range.1 as nat,
                ) + " +"@ + text::decimal(hunk.new_range.0 as nat) + ","@ + text::decimal(
                    hunk.new_range.1 as nat,
                ) + " @@ "@ + hunk.heading,
            })
            &&& forall|i: int|
                0 <= i < hunk.lines.len() ==> after[n + 1 + i] == (match #[trigger] hunk.lines[i] {
                    LineModel::Added(s) => RowModel { kind: RowKind::Added, text: seq!['+'] + s },
                    LineModel::Removed(s) => RowModel {
                        kind: RowKind::Removed,
                        text: seq!['-'] + s,
                    },
                    LineModel::Context(s) => RowModel {
                        kind: RowKind::Context,
                        text: seq![' '] + s,
                    },
                })
        }),
{
    let grown = FileModel { hunks: file.hunks.push(hunk), ..file };
    lemma_rows_of_one(file);
    lemma_rows_of_one(grown);
    lemma_hunks_rows_push(file.hunks, hunk);
    let before = rows(seq![file]);
    let after = rows(seq![grown]);
    assert(after =~= before + hunk_rows(hunk));
    assert(after.take(before.len() as int) =~= before);
    reveal_strlit("+");
    reveal_strlit("-");
    reveal_strlit(" ");
    assert("+"@ =~= seq!['+']);
    assert("-"@ =~= seq!['-']);
    assert(" "@ =~= seq![' ']);
}

/// A file without hunks is shown by its header, and by a note if it is binary.
pub proof fn lemma_shown_file_without_hunks(file: FileModel)
    requires
        file.hunks.len() == 0,
    ensures
        !file.binary ==> rows(seq![file]).len() == 1,
        file.binary ==> rows(seq![file]).len() == 2 && rows(seq![file])[1] == (RowModel {
            kind: RowKind::Binary,
            text: "(binary file — diff suppressed)"@,
        }),
{
    lemma_rows_of_one(file);
}

/// A range without a count stands for one line, and a header that uses it reads
/// like one that says so.
pub proof fn lemma_short_ranges(old: (u32, u32), new: (u32, u32), heading: Seq<char>)
    requires
        text::trimmed_start(heading) == heading,
    ensures
        ({
            let read = HunkModel { old_range: old, new_range: new, heading, lines: Seq::empty() };
            &&& old.1 == 1 ==> parser::hunk_header(
                seq![' ', '-'] + text::decimal(old.0 as nat) + " "@ + (seq!['+'] + range_text(new)
                    + " "@ + ("@@"@ + (" "@ + heading))),
            ) == Some(read)
            &&& new.1 == 1 ==> parser::hunk_header(
                seq![' ', '-'] + range_text(old) + " "@ + (seq!['+'] + text::decimal(new.0 as nat)
                    + " "@ + ("@@"@ + (" "@ + heading))),
            ) == Some(read)
            &&& old.1 == 1 && new.1 == 1 ==> parser::hunk_header(
                seq![' ', '-'] + text::decimal(old.0 as nat) + " "@ + (seq!['+'] + text::decimal(
                    new.0 as nat,
                ) + " "@ + ("@@"@ + (" "@ + heading))),
            ) == Some(read)
        }),
{
    let after_new = "@@"@ + (" "@ + heading);
    lemma_heading_reads_back(heading);
    assert("-"@ =~= seq!['-']) by {
        reveal_strlit("-");
    }
    assert("+"@ =~= seq!['+']) by {
        reveal_strlit("+");
    }
    let long_new = seq!['+'] + range_text(new) + " "@ + after_new;
    let short_new = seq!['+'] + text::decimal(new.0 as nat) + " "@ + after_new;
    lemma_signed_range('+', new, after_new);
    lemma_range_reads_back(new, after_new);
    lemma_range_reads_back(old, long_new);
    lemma_short_word('+', new.0, after_new);
    lemma_short_word('-', old.0, long_new);
    lemma_short_word('-', old.0, short_new);
    lemma_signed_range('-', old, short_new);
}

proof fn lemma_short_word(sign: char, start: u32, tail: Seq<char>)
    requires
        !text::white_space(sign),
    ensures
        parser::range(text::decimal(start as nat)) == Some((start, 1u32)),
        parser::signed_word(
            seq![' ', sign] + text::decimal(start as nat) + " "@ + tail,
            seq![sign],
        ) == Some((text::decimal(start as nat), tail)),
        parser::signed_word(seq![sign] + text::decimal(start as nat) + " "@ + tail, seq![sign])
            == Some((text::decimal(start as nat), tail)),
{
    let digits = text::decimal(start as nat);
    let word = digits + " "@ + tail;
    let bare = seq![sign] + digits + " "@ + tail;
    let spaced = seq![' ', sign] + digits + " "@ + tail;
    text::lemma_decimal_digits(start as nat);
    text::lemma_number_of_decimal(start);
    assert(" "@ =~= seq![' ']) by {
        reveal_strlit(" ");
    }
    assert(","@ =~= seq![',']) by {
        reveal_strlit(",");
    }
    assert(!digits.contains(' ') && !digits.contains(','));
    text::lemma_cut(digits, ' ', tail);
    text::lemma_cut_is_first(digits, ","@);
    if let Some((a, b)) = text::cut(digits, ","@) {
        assert(digits[a.len() as int] == ',');
    }
    assert(bare.skip(1) =~= word);
    assert(seq![sign].is_prefix_of(bare));
    assert(bare[0] == sign);
    assert(text::trimmed_start(bare) == bare);
    assert(spaced[0] == ' ');
    assert(spaced.skip(1) =~= bare);
}

// ---------------------------------------------------------------------------
// Building rows
// ---------------------------------------------------------------------------

fn file_header(file: &DiffFile) -> (out: String)
    ensures
        out@ == file_header_text(file.deep_view()),
{
    let mut out = String::new();
    out.append("── ");
    if let Some(from) = &file.rename_from {
        out.append(from.as_str());
        out.append(" → ");
    }
    out.append(file.path.as_str());
    out.append(" ──");
    assert(out@ =~= file_header_text(file.deep_view()));
    out
}

fn hunk_header(hunk: &DiffHunk) -> (out: String)
    ensures
        out@ == hunk_header_text(hunk.deep_view()),
{
    let mut out = String::new();
    out.append("@@ -");
    text::push_decimal(&mut out, hunk.old_range.0 as u64);
    out.append(",");
    text::push_decimal(&mut out, hunk.old_range.1 as u64);
    out.append(" +");
    text::push_decimal(&mut out, hunk.new_range.0 as u64);
    out.append(",");
    text::push_decimal(&mut out, hunk.new_range.1 as u64);
    out.append(" @@ ");
    out.append(hunk.heading.as_str());
    assert(out@ =~= hunk_header_text(hunk.deep_view()));
    out
}

/// `prefix` and `body` in one string.
fn prefixed(prefix: &str, body: &str) -> (out: String)
    ensures
        out@ == prefix@ + body@,
{
    let mut out = String::new();
    out.append(prefix);
    out.append(body);
    assert(out@ =~= prefix@ + body@);
    out
}

fn line_as_row(line: &HunkLine) -> (row: Row)
    ensures
        row.deep_view() == line_row(line.deep_view()),
{
    match line {
        HunkLine::Added(s) => Row { kind: RowKind::Added, text: prefixed("+", s.as_str()) },
        HunkLine::Removed(s) => Row { kind: RowKind::Removed, text: prefixed("-", s.as_str()) },
        HunkLine::Context(s) => Row { kind: RowKind::Context, text: prefixed(" ", s.as_str()) },
    }
}

fn push_row(out: &mut Vec<Row>, row: Row)
    ensures
        final(out).deep_view() == old(out).deep_view().push(row.deep_view()),
{
    let ghost before = out.deep_view();
    out.push(row);
    assert(out.deep_view() =~= before.push(row.deep_view()));
}

fn push_hunk_rows(out: &mut Vec<Row>, hunk: &DiffHunk)
    ensures
        final(out).deep_view() == old(out).deep_view() + hunk_rows(hunk.deep_view()),
{
    let ghost before = out.deep_view();
    let ghost all = hunk_rows(hunk.deep_view());
    push_row(out, Row { kind: RowKind::Hunk, text: hunk_header(hunk) });
    assert(out.deep_view() =~= before + all.take(1));
    for i in 0..hunk.lines.len()
        invariant
            all == hunk_rows(hunk.deep_view()),
            out.deep_view() == before + all.take(i + 1),
    {
        let row = line_as_row(&hunk.lines[i]);
        assert(all[i + 1] == row.deep_view());
        push_row(out, row);
        assert(out.deep_view() =~= before + all.take(i + 2));
    }
    assert(all.take(all.len() as int) =~= all);
}

fn push_file_rows(out: &mut Vec<Row>, file: &DiffFile)
    ensures
        final(out).deep_view() == old(out).deep_view() + file_rows(file.deep_view()),
{
    let ghost model = file.deep_view();
    let ghost before = out.deep_view();
    push_row(out, Row { kind: RowKind::File, text: file_header(file) });
    let ghost head = before.push(RowModel { kind: RowKind::File, text: file_header_text(model) });
    assert(out.deep_view() =~= head + hunks_rows(model.hunks.take(0)));
    for i in 0..file.hunks.len()
        invariant
            model == file.deep_view(),
            out.deep_view() == head + hunks_rows(model.hunks.take(i as int)),
    {
        push_hunk_rows(out, &file.hunks[i]);
        assert(model.hunks.take(i + 1).drop_last() =~= model.hunks.take(i as int));
        assert(model.hunks.take(i + 1).last() == file.hunks@[i as int].deep_view());
        assert(out.deep_view() =~= head + hunks_rows(model.hunks.take(i + 1)));
    }
    assert(model.hunks.take(file.hunks@.len() as int) =~= model.hunks);
    if file.binary {
        let note = String::from_str("(binary file — diff suppressed)");
        push_row(out, Row { kind: RowKind::Binary, text: note });
    }
    assert(out.deep_view() =~= before + file_rows(model));
}

/// The rows that `files` are shown as.
pub fn list_rows(files: &[DiffFile]) -> (out: Vec<Row>)
    ensures
        out.deep_view() == rows(files.deep_view()),
{
    let mut out: Vec<Row> = Vec::new();
    let ghost model = files.deep_view();
    assert(out.deep_view() =~= rows(model.take(0)));
    for i in 0..files.len()
        invariant
            model == files.deep_view(),
            out.deep_view() == rows(model.take(i as int)),
    {
        push_file_rows(&mut out, &files[i]);
        assert(model.take(i + 1).drop_last() =~= model.take(i as int));
        assert(model.take(i + 1).last() == files@[i as int].deep_view());
    }
    assert(model.take(files@.len() as int) =~= model);
    out
}

// ---------------------------------------------------------------------------
// Counting rows
// ---------------------------------------------------------------------------

proof fn lemma_rows_of_prefix(files: Seq<FileModel>, n: int)
    requires
        0 <= n <= files.len(),
    ensures
        rows(files.take(n)).len() <= rows(files).len(),
    decreases files.len() - n,
{
    if n == files.len() {
        assert(files.take(n) =~= files);
    } else {
        lemma_rows_of_prefix(files, n + 1);
        assert(files.take(n + 1).drop_last() =~= files.take(n));
    }
}

proof fn lemma_hunks_rows_of_prefix(hunks: Seq<HunkModel>, n: int)
    requires
        0 <= n <= hunks.len(),
    ensures
        hunks_rows(hunks.take(n)).len() <= hunks_rows(hunks).len(),
    decreases hunks.len() - n,
{
    if n == hunks.len() {
        assert(hunks.take(n) =~= hunks);
    } else {
        lemma_hunks_rows_of_prefix(hunks, n + 1);
        assert(hunks.take(n + 1).drop_last() =~= hunks.take(n));
    }
}

/// The number of rows of one file.
fn count_file_rows(file: &DiffFile) -> (n: usize)
    requires
        file_rows(file.deep_view()).len() <= usize::MAX,
    ensures
        n == file_rows(file.deep_view()).len(),
{
    let ghost model = file.deep_view();
    let mut n: usize = 1;
    for i in 0..file.hunks.len()
        invariant
            model == file.deep_view(),
            file_rows(model).len() <= usize::MAX,
            n == 1 + hunks_rows(model.hunks.take(i as int)).len(),
    {
        proof {
            lemma_hunks_rows_of_prefix(model.hunks, i + 1);
            assert(model.hunks.take(i + 1).drop_last() =~= model.hunks.take(i as int));
            assert(model.hunks.take(i + 1).last() == file.hunks@[i as int].deep_view());
        }
        n = n + 1 + file.hunks[i].lines.len();
    }
    assert(model.hunks.take(file.hunks@.len() as int) =~= model.hunks);
    if file.binary {
        n = n + 1;
    }
    n
}

/// The number of rows that `files` are shown on.
pub fn count_rows(files: &[DiffFile]) -> (n: usize)
    requires
        rows(files.deep_view()).len() <= usize::MAX,
    ensures
        n == rows(files.deep_view()).len(),
{
    let ghost model = files.deep_view();
    let mut n: usize = 0;
    for i in 0..files.len()
        invariant
            model == files.deep_view(),
            rows(model).len() <= usize::MAX,
            n == rows(model.take(i as int)).len(),
    {
        proof {
            lemma_rows_of_prefix(model, i + 1);
            assert(model.take(i + 1).drop_last() =~= model.take(i as int));
            assert(model.take(i + 1).last() == files@[i as int].deep_view());
        }
        n = n + count_file_rows(&files[i]);
    }
    assert(model.take(files@.len() as int) =~= model);
    n
}

/// The rows at which a file begins.
pub fn file_positions(files: &[DiffFile]) -> (out: Vec<usize>)
    requires
        rows(files.deep_view()).len() <= usize::MAX,
    ensures
        ints(out@) == positions(rows(files.deep_view()), RowKind::File),
{
    let ghost model = files.deep_view();
    let mut row: usize = 0;
    let mut out: Vec<usize> = Vec::new();
    assert(ints(out@) =~= positions(rows(model.take(0)), RowKind::File));
    for i in 0..files.len()
        invariant
            model == files.deep_view(),
            rows(model).len() <= usize::MAX,
            row == rows(model.take(i as int)).len(),
            ints(out@) == positions(rows(model.take(i as int)), RowKind::File),
    {
        let ghost before = out@;
        let ghost file = files@[i as int].deep_view();
        proof {
            lemma_rows_of_prefix(model, i + 1);
            assert(model.take(i + 1).drop_last() =~= model.take(i as int));
            assert(model.take(i + 1).last() == file);
            lemma_file_positions(file);
            lemma_positions_concat(rows(model.take(i as int)), file_rows(file), RowKind::File);
        }
        out.push(row);
        assert(ints(out@) =~= positions(rows(model.take(i + 1)), RowKind::File));
        row = row + count_file_rows(&files[i]);
    }
    assert(model.take(files@.len() as int) =~= model);
    out
}

/// A row of another kind adds no position.
proof fn lemma_positions_other_row(rows: Seq<RowModel>, row: RowModel, kind: RowKind)
    requires
        row.kind != kind,
    ensures
        positions(rows.push(row), kind) == positions(rows, kind),
{
    assert(rows.push(row).drop_last() =~= rows);
}

/// The rows at which a hunk begins.
pub fn hunk_positions(files: &[DiffFile]) -> (out: Vec<usize>)
    requires
        rows(files.deep_view()).len() <= usize::MAX,
    ensures
        ints(out@) == positions(rows(files.deep_view()), RowKind::Hunk),
{
    let ghost model = files.deep_view();
    let mut row: usize = 0;
    let mut out: Vec<usize> = Vec::new();
    assert(ints(out@) =~= positions(rows(model.take(0)), RowKind::Hunk));
    for i in 0..files.len()
        invariant
            model == files.deep_view(),
            rows(model).len() <= usize::MAX,
            row == rows(model.take(i as int)).len(),
            ints(out@) == positions(rows(model.take(i as int)), RowKind::Hunk),
    {
        let file = &files[i];
        let ghost fm = file.deep_view();
        let ghost base = rows(model.take(i as int));
        let ghost head = RowModel { kind: RowKind::File, text: file_header_text(fm) };
        let ghost mut seen = base.push(head);
        proof {
            lemma_rows_of_prefix(model, i + 1);
            assert(model.take(i + 1).drop_last() =~= model.take(i as int));
            assert(model.take(i + 1).last() == fm);
            lemma_positions_other_row(base, head, RowKind::Hunk);
            assert(seen =~= base.push(head) + hunks_rows(fm.hunks.take(0)));
        }
        row = row + 1;
        for j in 0..file.hunks.len()
            invariant
                fm == file.deep_view(),
                base.len() + file_rows(fm).len() <= usize::MAX,
                seen == base.push(head) + hunks_rows(fm.hunks.take(j as int)),
                row == seen.len(),
                ints(out@) == positions(seen, RowKind::Hunk),
        {
            let ghost hunk = file.hunks@[j as int].deep_view();
            proof {
                lemma_hunks_rows_of_prefix(fm.hunks, j + 1);
                assert(fm.hunks.take(j + 1).drop_last() =~= fm.hunks.take(j as int));
                assert(fm.hunks.take(j + 1).last() == hunk);
                lemma_hunk_positions(hunk);
                lemma_positions_concat(seen, hunk_rows(hunk), RowKind::Hunk);
            }
            out.push(row);
            proof {
                assert(seen + hunk_rows(hunk) =~= base.push(head) + hunks_rows(
                    fm.hunks.take(j + 1),
                ));
                seen = seen + hunk_rows(hunk);
                assert(ints(out@) =~= positions(seen, RowKind::Hunk));
            }
            row = row + 1 + file.hunks[j].lines.len();
        }
        assert(fm.hunks.take(file.hunks@.len() as int) =~= fm.hunks);
        if file.binary {
            proof {
                lemma_positions_other_row(seen, binary_note(fm)[0], RowKind::Hunk);
                seen = seen.push(binary_note(fm)[0]);
            }
            row = row + 1;
        }
        assert(seen =~= base + file_rows(fm));
    }
    assert(model.take(files@.len() as int) =~= model);
    out
}

} // verus!
