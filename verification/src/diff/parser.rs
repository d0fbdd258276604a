//! Parser for the unified format that `git diff` prints.
use vstd::prelude::*;

use crate::text;

verus! {

/// One file's worth of diff: the path, an optional rename source, whether
/// it's binary, and the list of hunks. Binary entries carry no hunks.
#[derive(Debug, PartialEq, Eq)]
pub struct DiffFile {
    pub path: String,
    pub hunks: Vec<DiffHunk>,
    pub binary: bool,
    pub rename_from: Option<String>,
}

#[derive(Debug, PartialEq, Eq)]
pub struct DiffHunk {
    pub old_range: (u32, u32),
    pub new_range: (u32, u32),
    pub heading: String,
    pub lines: Vec<HunkLine>,
}

#[derive(Debug, PartialEq, Eq)]
pub enum HunkLine {
    Context(String),
    Added(String),
    Removed(String),
}

// ---------------------------------------------------------------------------
// Models
// ---------------------------------------------------------------------------

/// What a [`DiffFile`] holds.
#[verifier::ext_equal]
pub struct FileModel {
    pub path: Seq<char>,
    pub hunks: Seq<HunkModel>,
    pub binary: bool,
    pub rename_from: Option<Seq<char>>,
}

/// What a [`DiffHunk`] holds.
#[verifier::ext_equal]
pub struct HunkModel {
    pub old_range: (u32, u32),
    pub new_range: (u32, u32),
    pub heading: Seq<char>,
    pub lines: Seq<LineModel>,
}

/// What a [`HunkLine`] holds.
#[verifier::ext_equal]
pub enum LineModel {
    Context(Seq<char>),
    Added(Seq<char>),
    Removed(Seq<char>),
}

impl DeepView for HunkLine {
    type V = LineModel;

    open spec fn deep_view(&self) -> LineModel {
        match self {
            HunkLine::Context(s) => LineModel::Context(s@),
            HunkLine::Added(s) => LineModel::Added(s@),
            HunkLine::Removed(s) => LineModel::Removed(s@),
        }
    }
}

impl DeepView for DiffHunk {
    type V = HunkModel;

    open spec fn deep_view(&self) -> HunkModel {
        HunkModel {
            old_range: self.old_range,
            new_range: self.new_range,
            heading: self.heading@,
            lines: self.lines.deep_view(),
        }
    }
}

impl DeepView for DiffFile {
    type V = FileModel;

    open spec fn deep_view(&self) -> FileModel {
        FileModel {
            path: self.path@,
            hunks: self.hunks.deep_view(),
            binary: self.binary,
            rename_from: match self.rename_from {
                Some(from) => Some(from@),
                None => None,
            },
        }
    }
}

impl Clone for HunkLine {
    fn clone(&self) -> (copy: Self)
        ensures
            copy.deep_view() == self.deep_view(),
    {
        match self {
            HunkLine::Context(s) => HunkLine::Context(s.clone()),
            HunkLine::Added(s) => HunkLine::Added(s.clone()),
            HunkLine::Removed(s) => HunkLine::Removed(s.clone()),
        }
    }
}

impl Clone for DiffHunk {
    fn clone(&self) -> (copy: Self)
        ensures
            copy.deep_view() == self.deep_view(),
    {
        let mut lines: Vec<HunkLine> = Vec::new();
        for i in 0..self.lines.len()
            invariant
                lines.deep_view() == self.lines.deep_view().take(i as int),
        {
            let ghost before = lines.deep_view();
            let line = self.lines[i].clone();
            lines.push(line);
            assert(lines.deep_view() =~= before.push(line.deep_view()));
            assert(lines.deep_view() =~= self.lines.deep_view().take(i + 1));
        }
        assert(lines.deep_view() =~= self.lines.deep_view());
        DiffHunk {
            old_range: (self.old_range.0, self.old_range.1),
            new_range: (self.new_range.0, self.new_range.1),
            heading: self.heading.clone(),
            lines,
        }
    }
}

impl Clone for DiffFile {
    fn clone(&self) -> (copy: Self)
        ensures
            copy.deep_view() == self.deep_view(),
    {
        let mut hunks: Vec<DiffHunk> = Vec::new();
        for i in 0..self.hunks.len()
            invariant
                hunks.deep_view() == self.hunks.deep_view().take(i as int),
        {
            let ghost before = hunks.deep_view();
            let hunk = self.hunks[i].clone();
            hunks.push(hunk);
            assert(hunks.deep_view() =~= before.push(hunk.deep_view()));
            assert(hunks.deep_view() =~= self.hunks.deep_view().take(i + 1));
        }
        assert(hunks.deep_view() =~= self.hunks.deep_view());
        let rename_from = match &self.rename_from {
            Some(from) => Some(from.clone()),
            None => None,
        };
        DiffFile { path: self.path.clone(), hunks, binary: self.binary, rename_from }
    }
}

// ---------------------------------------------------------------------------
// What one line says
// ---------------------------------------------------------------------------

/// The meaning of one line of a unified diff.
pub enum DiffLine {
    /// `diff --git a/X b/Y`: a new file with this path.
    FileHeader(Seq<char>),
    RenameFrom(Seq<char>),
    RenameTo(Seq<char>),
    /// `Binary files X and Y differ`.
    BinaryMarker,
    /// `+++ b/Y`: the authoritative path.
    NewPath(Seq<char>),
    /// A line that carries nothing the view shows.
    Metadata,
    /// `@@ ... @@`, with the hunk it opens if it is well formed.
    HunkHeader(Option<HunkModel>),
    /// A line of the open hunk.
    Body(LineModel),
    Other,
}

/// A line position and count, `start,count` or `start` for a count of one.
pub open spec fn range(part: Seq<char>) -> Option<(u32, u32)> {
    match text::cut(part, ","@) {
        Some((start, count)) => match (text::number(start), text::number(count)) {
            (Some(s), Some(c)) => Some((s, c)),
            _ => None,
        },
        None => match text::number(part) {
            Some(s) => Some((s, 1)),
            None => None,
        },
    }
}

/// The word after `sign` at the beginning of `s`, and what follows the space
/// that ends it.
pub open spec fn signed_word(s: Seq<char>, sign: Seq<char>) -> Option<(Seq<char>, Seq<char>)> {
    match text::without_prefix(text::trimmed_start(s), sign) {
        Some(rest) => text::cut(rest, " "@),
        None => None,
    }
}

/// The heading after the ranges of a hunk header.
pub open spec fn heading(s: Seq<char>) -> Seq<char> {
    let rest = text::trimmed_start(s);
    match text::without_prefix(rest, "@@"@) {
        Some(after) => text::trimmed_start(after),
        None => text::trimmed_start(rest),
    }
}

/// The hunk that the tail of a hunk header opens, e.g. ` -1,5 +1,7 @@ heading`.
pub open spec fn hunk_header(rest: Seq<char>) -> Option<HunkModel> {
    match signed_word(rest, "-"@) {
        Some((old_part, after_old)) => match signed_word(after_old, "+"@) {
            Some((new_part, after_new)) => match (range(old_part), range(new_part)) {
                (Some(old_range), Some(new_range)) => Some(
                    HunkModel {
                        old_range,
                        new_range,
                        heading: heading(after_new),
                        lines: Seq::empty(),
                    },
                ),
                _ => None,
            },
            None => None,
        },
        None => None,
    }
}

/// The path that `diff --git <rest>` names: the `b/` side, or all of it.
pub open spec fn header_path(rest: Seq<char>) -> Seq<char> {
    match text::cut(rest, " b/"@) {
        Some((_, path)) => path,
        None => rest,
    }
}

/// The line of a hunk that `line` is, if its first character is the sign of one.
pub open spec fn body(line: Seq<char>) -> Option<LineModel> {
    if let Some(rest) = text::without_prefix(line, "+"@) {
        Some(LineModel::Added(rest))
    } else if let Some(rest) = text::without_prefix(line, "-"@) {
        Some(LineModel::Removed(rest))
    } else if let Some(rest) = text::without_prefix(line, " "@) {
        Some(LineModel::Context(rest))
    } else {
        None
    }
}

/// Whether `line` is part of a file's header without telling anything that the
/// view shows.
pub open spec fn is_metadata(line: Seq<char>) -> bool {
    ||| "--- "@.is_prefix_of(line)
    ||| "+++ "@.is_prefix_of(line)
    ||| "index "@.is_prefix_of(line)
    ||| "new file mode "@.is_prefix_of(line)
    ||| "deleted file mode "@.is_prefix_of(line)
    ||| "old mode "@.is_prefix_of(line)
    ||| "new mode "@.is_prefix_of(line)
    ||| "similarity index "@.is_prefix_of(line)
    ||| "dissimilarity index "@.is_prefix_of(line)
    ||| "copy from "@.is_prefix_of(line)
    ||| "copy to "@.is_prefix_of(line)
}

/// What `line` says outside any hunk.
pub open spec fn classify(line: Seq<char>) -> DiffLine {
    if let Some(rest) = text::without_prefix(line, "diff --git "@) {
        DiffLine::FileHeader(header_path(rest))
    } else if let Some(rest) = text::without_prefix(line, "rename from "@) {
        DiffLine::RenameFrom(rest)
    } else if let Some(rest) = text::without_prefix(line, "rename to "@) {
        DiffLine::RenameTo(rest)
    } else if "Binary files "@.is_prefix_of(line) && " differ"@.is_suffix_of(line) {
        DiffLine::BinaryMarker
    } else if let Some(rest) = text::without_prefix(line, "+++ b/"@) {
        DiffLine::NewPath(rest)
    } else if is_metadata(line) {
        DiffLine::Metadata
    } else if let Some(rest) = text::without_prefix(line, "@@"@) {
        DiffLine::HunkHeader(hunk_header(rest))
    } else {
        DiffLine::Other
    }
}

/// What `line` says. In an open hunk the sign in front of a line decides, whatever
/// follows it: there `--- x` removes the text `-- x`, and is no file header.
pub open spec fn said(line: Seq<char>, in_hunk: bool) -> DiffLine {
    match body(line) {
        Some(text) if in_hunk => DiffLine::Body(text),
        _ => classify(line),
    }
}

// ---------------------------------------------------------------------------
// What the lines say together
// ---------------------------------------------------------------------------

/// The files read so far, the last of them still open, and whether lines of
/// its last hunk may follow.
#[verifier::ext_equal]
pub struct ParseState {
    pub files: Seq<FileModel>,
    pub in_hunk: bool,
}

pub open spec fn start() -> ParseState {
    ParseState { files: Seq::empty(), in_hunk: false }
}

pub open spec fn new_file(path: Seq<char>) -> FileModel {
    FileModel { path, hunks: Seq::empty(), binary: false, rename_from: None }
}

/// `file` with `line` at the end of its last hunk.
pub open spec fn with_line(file: FileModel, line: LineModel) -> FileModel {
    let hunk = file.hunks.last();
    FileModel {
        hunks: file.hunks.drop_last().push(HunkModel { lines: hunk.lines.push(line), ..hunk }),
        ..file
    }
}

/// `state` after one more line. Before the first file header nothing counts.
pub open spec fn step(state: ParseState, line: Seq<char>) -> ParseState {
    match said(line, state.in_hunk) {
        DiffLine::FileHeader(path) => ParseState {
            files: state.files.push(new_file(path)),
            in_hunk: false,
        },
        other => if state.files.len() == 0 {
            state
        } else {
            let file = state.files.last();
            let rest = state.files.drop_last();
            match other {
                DiffLine::RenameFrom(from) => ParseState {
                    files: rest.push(FileModel { rename_from: Some(from), ..file }),
                    ..state
                },
                DiffLine::RenameTo(path) => ParseState {
                    files: rest.push(FileModel { path, ..file }),
                    ..state
                },
                DiffLine::NewPath(path) => ParseState {
                    files: rest.push(FileModel { path, ..file }),
                    ..state
                },
                DiffLine::BinaryMarker => ParseState {
                    files: rest.push(FileModel { hunks: Seq::empty(), binary: true, ..file }),
                    in_hunk: false,
                },
                DiffLine::HunkHeader(Some(hunk)) if !file.binary => ParseState {
                    files: rest.push(FileModel { hunks: file.hunks.push(hunk), ..file }),
                    in_hunk: true,
                },
                DiffLine::HunkHeader(_) => ParseState { in_hunk: false, ..state },
                DiffLine::Body(text) => ParseState {
                    files: rest.push(with_line(file, text)),
                    ..state
                },
                _ => state,
            }
        },
    }
}

/// The state after all of `lines`.
pub open spec fn steps(lines: Seq<Seq<char>>) -> ParseState
    decreases lines.len(),
{
    if lines.len() == 0 {
        start()
    } else {
        step(steps(lines.drop_last()), lines.last())
    }
}

/// The files that the diff `raw` describes.
pub open spec fn parsed(raw: Seq<char>) -> Seq<FileModel> {
    steps(text::fields(raw, '\n')).files
}

// ---------------------------------------------------------------------------
// Laws
// ---------------------------------------------------------------------------

/// What holds of the state after any lines.
pub open spec fn coherent(state: ParseState) -> bool {
    &&& forall|i: int|
        0 <= i < state.files.len() && (#[trigger] state.files[i]).binary
            ==> state.files[i].hunks.len() == 0
    &&& state.in_hunk ==> state.files.len() > 0 && state.files.last().hunks.len() > 0
}

/// One line keeps the state coherent.
pub proof fn lemma_step_coherent(state: ParseState, line: Seq<char>)
    requires
        coherent(state),
    ensures
        coherent(step(state, line)),
{
    let next = step(state, line);
    assert forall|i: int|
        0 <= i < next.files.len() && (#[trigger] next.files[i]).binary implies next.files[i].hunks.len()
        == 0 by {
        if i < state.files.len() - 1 {
            assert(next.files[i] == state.files[i]);
        } else if i < state.files.len() {
            assert(state.files[i] == state.files.last());
        }
    }
}

/// The state is coherent after any lines.
pub proof fn lemma_steps_coherent(lines: Seq<Seq<char>>)
    ensures
        coherent(steps(lines)),
    decreases lines.len(),
{
    if lines.len() > 0 {
        lemma_steps_coherent(lines.drop_last());
        lemma_step_coherent(steps(lines.drop_last()), lines.last());
    }
}

/// Binary entries carry no hunks, whatever the input.
pub proof fn lemma_binary_without_hunks(raw: Seq<char>, i: int)
    requires
        0 <= i < parsed(raw).len(),
        parsed(raw)[i].binary,
    ensures
        parsed(raw)[i].hunks.len() == 0,
{
    lemma_steps_coherent(text::fields(raw, '\n'));
}

/// A file header has no sign in front, so it is one in a hunk too.
pub proof fn lemma_file_header_anywhere(line: Seq<char>, in_hunk: bool)
    ensures
        said(line, in_hunk) is FileHeader <==> classify(line) is FileHeader,
        classify(line) is FileHeader ==> said(line, in_hunk) == classify(line),
{
    reveal_strlit("diff --git ");
    reveal_strlit("+");
    reveal_strlit("-");
    reveal_strlit(" ");
    if classify(line) is FileHeader {
        assert("diff --git "@[0] == line[0]);
        assert(line[0] == 'd');
        assert(body(line) is None) by {
            assert("+"@[0] != line[0]);
            assert("-"@[0] != line[0]);
            assert(" "@[0] != line[0]);
        }
    }
}

/// The number of file headers among `lines`.
pub open spec fn header_count(lines: Seq<Seq<char>>) -> nat
    decreases lines.len(),
{
    if lines.len() == 0 {
        0
    } else {
        header_count(lines.drop_last()) + if classify(lines.last()) is FileHeader {
            1nat
        } else {
            0nat
        }
    }
}

/// Each file header yields one file, and nothing else does; so input without
/// a header yields no files.
pub proof fn lemma_one_file_per_header(lines: Seq<Seq<char>>)
    ensures
        steps(lines).files.len() == header_count(lines),
    decreases lines.len(),
{
    if lines.len() > 0 {
        lemma_one_file_per_header(lines.drop_last());
        lemma_file_header_anywhere(lines.last(), steps(lines.drop_last()).in_hunk);
    }
}

/// The state reached from `state` over `lines`.
pub open spec fn steps_from(state: ParseState, lines: Seq<Seq<char>>) -> ParseState
    decreases lines.len(),
{
    if lines.len() == 0 {
        state
    } else {
        step(steps_from(state, lines.drop_last()), lines.last())
    }
}

/// Reading two runs of lines is reading the second from where the first ended.
pub proof fn lemma_steps_concat(first: Seq<Seq<char>>, second: Seq<Seq<char>>)
    ensures
        steps(first + second) == steps_from(steps(first), second),
    decreases second.len(),
{
    if second.len() == 0 {
        assert(first + second =~= first);
    } else {
        lemma_steps_concat(first, second.drop_last());
        assert((first + second).drop_last() =~= first + second.drop_last());
        assert((first + second).last() == second.last());
    }
}

/// A line that says nothing where it stands, or that only carries metadata, is
/// dropped: the result is as if it were not there.
pub proof fn lemma_unrecognized_dropped(
    before: Seq<Seq<char>>,
    line: Seq<char>,
    after: Seq<Seq<char>>,
)
    requires
        ({
            let meaning = said(line, steps(before).in_hunk);
            meaning is Other || meaning is Metadata
        }),
    ensures
        steps(before.push(line) + after) == steps(before + after),
{
    lemma_steps_concat(before.push(line), after);
    lemma_steps_concat(before, after);
    assert(before.push(line).drop_last() =~= before);
    assert(steps(before.push(line)) == steps(before));
}

/// Files with `earlier` in front of them.
spec fn after_files(earlier: Seq<FileModel>, state: ParseState) -> ParseState {
    ParseState { files: earlier + state.files, ..state }
}

proof fn lemma_step_after_files(earlier: Seq<FileModel>, state: ParseState, line: Seq<char>)
    requires
        state.files.len() > 0 || classify(line) is FileHeader,
    ensures
        step(after_files(earlier, state), line) == after_files(earlier, step(state, line)),
{
    let whole = earlier + state.files;
    lemma_file_header_anywhere(line, state.in_hunk);
    if state.files.len() > 0 {
        assert(whole.last() == state.files.last());
        assert(whole.drop_last() =~= earlier + state.files.drop_last());
    }
    assert(step(after_files(earlier, state), line) =~= after_files(earlier, step(state, line)));
}

proof fn lemma_steps_from_after_files(
    earlier: Seq<FileModel>,
    state: ParseState,
    lines: Seq<Seq<char>>,
)
    requires
        state.files.len() > 0,
    ensures
        steps_from(after_files(earlier, state), lines) == after_files(
            earlier,
            steps_from(state, lines),
        ),
        steps_from(state, lines).files.len() > 0,
    decreases lines.len(),
{
    if lines.len() > 0 {
        lemma_steps_from_after_files(earlier, state, lines.drop_last());
        lemma_step_after_files(earlier, steps_from(state, lines.drop_last()), lines.last());
    }
}

/// A diff is read file by file: where `second` begins with a file header, its
/// files follow those of `first`, and neither part influences the other.
pub proof fn lemma_files_independent(first: Seq<Seq<char>>, second: Seq<Seq<char>>)
    requires
        second.len() > 0,
        classify(second[0]) is FileHeader,
    ensures
        steps(first + second).files == steps(first).files + steps(second).files,
{
    let head = second.take(1);
    let tail = second.skip(1);
    assert(second =~= head + tail);
    assert(first + second =~= first.push(second[0]) + tail);
    assert(first.push(second[0]).drop_last() =~= first);
    assert(head.drop_last() =~= Seq::<Seq<char>>::empty());
    assert(head.last() == second[0]);
    lemma_steps_concat(first.push(second[0]), tail);
    lemma_steps_concat(head, tail);
    let earlier = steps(first).files;
    let opened = step(start(), second[0]);
    lemma_file_header_anywhere(second[0], false);
    lemma_file_header_anywhere(second[0], steps(first).in_hunk);
    assert(steps(head.drop_last()) == start());
    assert(steps(head) == opened);
    assert(step(steps(first), second[0]) =~= after_files(earlier, opened));
    lemma_steps_from_after_files(earlier, opened, tail);
}

// ---------------------------------------------------------------------------
// The parser
// ---------------------------------------------------------------------------

/// Reads `start,count`, or `start` alone for a count of one.
pub fn parse_range(part: &[char]) -> (out: Option<(u32, u32)>)
    ensures
        out == range(part@),
{
    if let Some((start, count)) = text::split_once(part, ",") {
        match (text::parse_u32(start), text::parse_u32(count)) {
            (Some(s), Some(c)) => Some((s, c)),
            _ => None,
        }
    } else {
        match text::parse_u32(part) {
            Some(s) => Some((s, 1)),
            None => None,
        }
    }
}

fn take_signed_word<'a>(s: &'a [char], sign: &str) -> (out: Option<(&'a [char], &'a [char])>)
    ensures
        out is Some <==> signed_word(s@, sign@) is Some,
        out matches Some((word, rest)) ==> {
            &&& word@ == (signed_word(s@, sign@)->0).0
            &&& rest@ == (signed_word(s@, sign@)->0).1
        },
{
    match text::strip_prefix(text::trim_start(s), sign) {
        Some(rest) => text::split_once(rest, " "),
        None => None,
    }
}

fn parse_heading(s: &[char]) -> (out: String)
    ensures
        out@ == heading(s@),
{
    let rest = text::trim_start(s);
    match text::strip_prefix(rest, "@@") {
        Some(after) => text::string_of(text::trim_start(after)),
        None => text::string_of(text::trim_start(rest)),
    }
}

/// Parse the tail of a hunk header, e.g. ` -1,5 +1,7 @@ heading`.
pub fn parse_hunk_header(rest: &[char]) -> (out: Option<DiffHunk>)
    ensures
        out is Some <==> hunk_header(rest@) is Some,
        out matches Some(hunk) ==> hunk.deep_view() == hunk_header(rest@)->0,
{
    let (old_part, after_old) = match take_signed_word(rest, "-") {
        Some(parts) => parts,
        None => return None,
    };
    let (new_part, after_new) = match take_signed_word(after_old, "+") {
        Some(parts) => parts,
        None => return None,
    };
    match (parse_range(old_part), parse_range(new_part)) {
        (Some(old_range), Some(new_range)) => {
            let hunk = DiffHunk {
                old_range,
                new_range,
                heading: parse_heading(after_new),
                lines: Vec::new(),
            };
            assert(hunk.deep_view().lines =~= Seq::<LineModel>::empty());
            Some(hunk)
        },
        _ => None,
    }
}

/// Extract the `b/<path>` side of `diff --git a/X b/Y` as our file path.
/// Returns `None` if the shape doesn't match; the caller falls back to the
/// raw header.
pub fn parse_diff_git_header(rest: &[char]) -> (out: Option<String>)
    ensures
        out is Some <==> text::cut(rest@, " b/"@) is Some,
        out matches Some(path) ==> path@ == header_path(rest@),
{
    match text::split_once(rest, " b/") {
        Some((_, path)) => Some(text::string_of(path)),
        None => None,
    }
}

fn skips_line(line: &[char]) -> (yes: bool)
    ensures
        yes == is_metadata(line@),
{
    text::has_prefix(line, "--- ") || text::has_prefix(line, "+++ ") || text::has_prefix(
        line,
        "index ",
    ) || text::has_prefix(line, "new file mode ") || text::has_prefix(line, "deleted file mode ")
        || text::has_prefix(line, "old mode ") || text::has_prefix(line, "new mode ")
        || text::has_prefix(line, "similarity index ") || text::has_prefix(
        line,
        "dissimilarity index ",
    ) || text::has_prefix(line, "copy from ") || text::has_prefix(line, "copy to ")
}

/// The line of a hunk that `line` is, if its first character is the sign of one.
fn parse_body(line: &[char]) -> (out: Option<HunkLine>)
    ensures
        out is Some <==> body(line@) is Some,
        out matches Some(text) ==> text.deep_view() == body(line@)->0,
{
    if let Some(rest) = text::strip_prefix(line, "+") {
        Some(HunkLine::Added(text::string_of(rest)))
    } else if let Some(rest) = text::strip_prefix(line, "-") {
        Some(HunkLine::Removed(text::string_of(rest)))
    } else if let Some(rest) = text::strip_prefix(line, " ") {
        Some(HunkLine::Context(text::string_of(rest)))
    } else {
        None
    }
}

/// The parser between two lines: the files that are complete, the file under
/// construction, and its hunk under construction.
struct Parser {
    done: Vec<DiffFile>,
    file: Option<DiffFile>,
    hunk: Option<DiffHunk>,
}

/// `file` with the hunk under construction as its last.
spec fn with_open_hunk(file: FileModel, hunk: Option<DiffHunk>) -> FileModel {
    match hunk {
        Some(h) => FileModel { hunks: file.hunks.push(h.deep_view()), ..file },
        None => file,
    }
}

impl Parser {
    spec fn state(self) -> ParseState {
        ParseState {
            files: match self.file {
                Some(file) => self.done.deep_view().push(
                    with_open_hunk(file.deep_view(), self.hunk),
                ),
                None => self.done.deep_view(),
            },
            in_hunk: self.hunk is Some,
        }
    }

    spec fn wf(self) -> bool {
        &&& self.file is None ==> self.done@.len() == 0 && self.hunk is None
        &&& self.file matches Some(file) ==> file.binary ==> self.hunk is None
    }

    /// The parser after one more line of the hunk under construction.
    fn push_line(self, line: HunkLine) -> (next: Parser)
        requires
            self.wf(),
            self.hunk is Some,
        ensures
            next.wf(),
            next.state().in_hunk,
            next.state().files == self.state().files.drop_last().push(
                with_line(self.state().files.last(), line.deep_view()),
            ),
    {
        let ghost before = self.state();
        let Parser { done, file, hunk } = self;
        match (file, hunk) {
            (Some(file), Some(mut hunk)) => {
                assert(before.files.drop_last() =~= done.deep_view());
                assert(before.files.last().hunks.drop_last() =~= file.deep_view().hunks);
                let ghost lines = hunk.lines.deep_view();
                hunk.lines.push(line);
                assert(hunk.lines.deep_view() =~= lines.push(line.deep_view()));
                Parser { done, file: Some(file), hunk: Some(hunk) }
            },
            (file, hunk) => Parser { done, file, hunk },
        }
    }

    /// Moves the hunk under construction into `file`.
    fn flush_hunk(file: &mut DiffFile, hunk: Option<DiffHunk>)
        ensures
            final(file).deep_view() == with_open_hunk(old(file).deep_view(), hunk),
    {
        let ghost before = file.hunks.deep_view();
        if let Some(h) = hunk {
            file.hunks.push(h);
            assert(file.hunks.deep_view() =~= before.push(h.deep_view()));
        }
    }

    /// The parser after one more line.
    fn feed(self, line: &[char]) -> (next: Parser)
        requires
            self.wf(),
        ensures
            next.wf(),
            next.state() == step(self.state(), line@),
    {
        let ghost before = self.state();
        if self.hunk.is_some() {
            if let Some(text) = parse_body(line) {
                return self.push_line(text);
            }
        }
        assert(said(line@, before.in_hunk) == classify(line@));
        if let Some(rest) = text::strip_prefix(line, "diff --git ") {
            let done = self.finish();
            let path = match parse_diff_git_header(rest) {
                Some(path) => path,
                None => text::string_of(rest),
            };
            let file = DiffFile { path, hunks: Vec::new(), binary: false, rename_from: None };
            assert(file.deep_view() =~= new_file(header_path(rest@)));
            return Parser { done, file: Some(file), hunk: None };
        }
        let Parser { done, file, hunk } = self;
        let mut file = match file {
            Some(file) => file,
            None => {
                return Parser { done, file: None, hunk };
            },
        };
        assert(before.files.last() == with_open_hunk(file.deep_view(), hunk));
        assert(before.files.drop_last() =~= done.deep_view());
        if let Some(rest) = text::strip_prefix(line, "rename from ") {
            file.rename_from = Some(text::string_of(rest));
            return Parser { done, file: Some(file), hunk };
        }
        if let Some(rest) = text::strip_prefix(line, "rename to ") {
            file.path = text::string_of(rest);
            return Parser { done, file: Some(file), hunk };
        }
        if text::has_prefix(line, "Binary files ") && text::has_suffix(line, " differ") {
            file.hunks = Vec::new();
            file.binary = true;
            assert(file.hunks.deep_view() =~= Seq::<HunkModel>::empty());
            return Parser { done, file: Some(file), hunk: None };
        }
        if let Some(rest) = text::strip_prefix(line, "+++ b/") {
            // Trust the b/ side as the authoritative path when present.
            file.path = text::string_of(rest);
            return Parser { done, file: Some(file), hunk };
        }
        if skips_line(line) {
            assert(classify(line@) == DiffLine::Metadata);
            return Parser { done, file: Some(file), hunk };
        }
        if let Some(rest) = text::strip_prefix(line, "@@") {
            Self::flush_hunk(&mut file, hunk);
            let opened = if file.binary {
                None
            } else {
                parse_hunk_header(rest)
            };
            return Parser { done, file: Some(file), hunk: opened };
        }
        // A line of another form, such as the note on a missing newline.
        Parser { done, file: Some(file), hunk }
    }

    /// The files read, the one under construction as the last.
    fn finish(self) -> (files: Vec<DiffFile>)
        requires
            self.wf(),
        ensures
            files.deep_view() == self.state().files,
    {
        let Parser { mut done, file, hunk } = self;
        let ghost before = done.deep_view();
        if let Some(mut file) = file {
            Self::flush_hunk(&mut file, hunk);
            done.push(file);
            assert(done.deep_view() =~= before.push(file.deep_view()));
        }
        done
    }
}

/// Parse the output of `git diff` (unified format). Tolerant of malformed
/// input: unrecognized lines are dropped.
pub fn parse_unified_diff(raw: &str) -> (files: Vec<DiffFile>)
    ensures
        files.deep_view() == parsed(raw@),
{
    let chars = text::chars_of(raw);
    let lines = text::split_fields(chars.as_slice(), '\n');
    let ghost model = lines.deep_view();
    let mut parser = Parser { done: Vec::new(), file: None, hunk: None };
    assert(parser.state() =~= steps(model.take(0)));
    for i in 0..lines.len()
        invariant
            model == lines.deep_view(),
            parser.wf(),
            parser.state() == steps(model.take(i as int)),
    {
        let line = text::chars_of(lines[i].as_str());
        assert(model.take(i + 1).drop_last() =~= model.take(i as int));
        assert(model.take(i + 1).last() == line@);
        parser = parser.feed(line.as_slice());
    }
    assert(model.take(lines@.len() as int) =~= model);
    parser.finish()
}

} // verus!
