//! Laws on what the lines of a diff mean, in the words of the format: what each
//! line does to the file it belongs to, and that a diff as `git` writes it is
//! read as what it was written for.
use vstd::prelude::*;

use super::parser;
use super::parser::{FileModel, HunkModel, LineModel, ParseState};
use super::rows;
use crate::text;

verus! {

// ---------------------------------------------------------------------------
// How lines begin
// ---------------------------------------------------------------------------

proof fn lemma_concat(p: Seq<char>, tail: Seq<char>)
    ensures
        p.is_prefix_of(p + tail),
        (p + tail).skip(p.len() as int) == tail,
        text::without_prefix(p + tail, p) == Some(tail),
        p.len() > 0 ==> (p + tail)[0] == p[0],
{
    assert((p + tail).subrange(0, p.len() as int) =~= p);
    assert((p + tail).skip(p.len() as int) =~= tail);
}

/// What stands at the beginning of a line stands at the same place in it.
proof fn lemma_prefix_at(p: Seq<char>, line: Seq<char>, i: int)
    requires
        p.is_prefix_of(line),
        0 <= i < p.len(),
    ensures
        line.len() >= p.len(),
        line[i] == p[i],
{
    assert(line.subrange(0, p.len() as int)[i] == line[i]);
}

proof fn lemma_heads(line: Seq<char>)
    ensures
        "diff --git "@.is_prefix_of(line) ==> line.len() > 0 && line[0] == 'd',
        "rename from "@.is_prefix_of(line) ==> line.len() > 7 && line[0] == 'r' && line[7] == 'f',
        "rename to "@.is_prefix_of(line) ==> line.len() > 7 && line[0] == 'r' && line[7] == 't',
        "Binary files "@.is_prefix_of(line) ==> line.len() > 0 && line[0] == 'B',
        "+++ b/"@.is_prefix_of(line) ==> line.len() > 0 && line[0] == '+',
        "@@"@.is_prefix_of(line) ==> line.len() > 0 && line[0] == '@',
        "+"@.is_prefix_of(line) <==> line.len() > 0 && line[0] == '+',
        "-"@.is_prefix_of(line) <==> line.len() > 0 && line[0] == '-',
        " "@.is_prefix_of(line) <==> line.len() > 0 && line[0] == ' ',
        parser::is_metadata(line) ==> line.len() > 0 && (line[0] == '-' || line[0] == '+' || line[0]
            == 'i' || line[0] == 'n' || line[0] == 'd' || line[0] == 'o' || line[0] == 's' || line[0]
            == 'c'),
{
    reveal_strlit("diff --git ");
    reveal_strlit("rename from ");
    reveal_strlit("rename to ");
    reveal_strlit("Binary files ");
    reveal_strlit("+++ b/");
    reveal_strlit("@@");
    reveal_strlit("+");
    reveal_strlit("-");
    reveal_strlit(" ");
    if "diff --git "@.is_prefix_of(line) {
        lemma_prefix_at("diff --git "@, line, 0);
    }
    if "rename from "@.is_prefix_of(line) {
        lemma_prefix_at("rename from "@, line, 0);
        lemma_prefix_at("rename from "@, line, 7);
    }
    if "rename to "@.is_prefix_of(line) {
        lemma_prefix_at("rename to "@, line, 0);
        lemma_prefix_at("rename to "@, line, 7);
    }
    if "Binary files "@.is_prefix_of(line) {
        lemma_prefix_at("Binary files "@, line, 0);
    }
    if "+++ b/"@.is_prefix_of(line) {
        lemma_prefix_at("+++ b/"@, line, 0);
    }
    if "@@"@.is_prefix_of(line) {
        lemma_prefix_at("@@"@, line, 0);
    }
    lemma_sign(line, '+', "+"@);
    lemma_sign(line, '-', "-"@);
    lemma_sign(line, ' ', " "@);
    lemma_metadata_heads(line);
}

proof fn lemma_sign(line: Seq<char>, c: char, sign: Seq<char>)
    requires
        sign =~= seq![c],
    ensures
        sign.is_prefix_of(line) <==> line.len() > 0 && line[0] == c,
{
    if line.len() > 0 {
        assert(line.subrange(0, 1)[0] == line[0]);
        if line[0] == c {
            assert(line.subrange(0, 1) =~= sign);
        }
    }
}

proof fn lemma_metadata_heads(line: Seq<char>)
    ensures
        parser::is_metadata(line) ==> line.len() > 0 && (line[0] == '-' || line[0] == '+' || line[0]
            == 'i' || line[0] == 'n' || line[0] == 'd' || line[0] == 'o' || line[0] == 's' || line[0]
            == 'c'),
{
    reveal_strlit("--- ");
    reveal_strlit("+++ ");
    reveal_strlit("index ");
    reveal_strlit("new file mode ");
    reveal_strlit("deleted file mode ");
    reveal_strlit("old mode ");
    reveal_strlit("new mode ");
    reveal_strlit("similarity index ");
    reveal_strlit("dissimilarity index ");
    reveal_strlit("copy from ");
    reveal_strlit("copy to ");
    if "--- "@.is_prefix_of(line) {
        lemma_prefix_at("--- "@, line, 0);
    } else if "+++ "@.is_prefix_of(line) {
        lemma_prefix_at("+++ "@, line, 0);
    } else if "index "@.is_prefix_of(line) {
        lemma_prefix_at("index "@, line, 0);
    } else if "new file mode "@.is_prefix_of(line) {
        lemma_prefix_at("new file mode "@, line, 0);
    } else if "deleted file mode "@.is_prefix_of(line) {
        lemma_prefix_at("deleted file mode "@, line, 0);
    } else if "old mode "@.is_prefix_of(line) {
        lemma_prefix_at("old mode "@, line, 0);
    } else if "new mode "@.is_prefix_of(line) {
        lemma_prefix_at("new mode "@, line, 0);
    } else if "similarity index "@.is_prefix_of(line) {
        lemma_prefix_at("similarity index "@, line, 0);
    } else if "dissimilarity index "@.is_prefix_of(line) {
        lemma_prefix_at("dissimilarity index "@, line, 0);
    } else if "copy from "@.is_prefix_of(line) {
        lemma_prefix_at("copy from "@, line, 0);
    } else if "copy to "@.is_prefix_of(line) {
        lemma_prefix_at("copy to "@, line, 0);
    }
}

// ---------------------------------------------------------------------------
// What each line does
// ---------------------------------------------------------------------------

/// `files` with `file` in place of the last one.
pub open spec fn with_last(files: Seq<FileModel>, file: FileModel) -> Seq<FileModel> {
    files.update(files.len() - 1, file)
}

/// `rename from X` makes `X` the rename source of the file, and changes nothing
/// else.
pub proof fn lemma_rename_from_line(state: ParseState, from: Seq<char>)
    requires
        state.files.len() > 0,
    ensures
        ({
            let next = parser::step(state, "rename from "@ + from);
            &&& next.files == with_last(
                state.files,
                FileModel { rename_from: Some(from), ..state.files.last() },
            )
            &&& next.in_hunk == state.in_hunk
        }),
{
    let line = "rename from "@ + from;
    lemma_concat("rename from "@, from);
    lemma_heads(line);
    assert(parser::step(state, line).files =~= with_last(
        state.files,
        FileModel { rename_from: Some(from), ..state.files.last() },
    ));
}

/// `rename to P` gives the file the path `P`, and changes nothing else.
pub proof fn lemma_rename_to_line(state: ParseState, path: Seq<char>)
    requires
        state.files.len() > 0,
    ensures
        ({
            let next = parser::step(state, "rename to "@ + path);
            &&& next.files == with_last(state.files, FileModel { path, ..state.files.last() })
            &&& next.in_hunk == state.in_hunk
        }),
{
    let line = "rename to "@ + path;
    lemma_concat("rename to "@, path);
    lemma_heads(line);
    assert(parser::step(state, line).files =~= with_last(
        state.files,
        FileModel { path, ..state.files.last() },
    ));
}

/// Outside a hunk `+++ b/P` gives the file the path `P`, and changes nothing else;
/// a rename source stays.
pub proof fn lemma_new_path_line(state: ParseState, path: Seq<char>)
    requires
        state.files.len() > 0,
        !state.in_hunk,
    ensures
        ({
            let next = parser::step(state, "+++ b/"@ + path);
            &&& next.files == with_last(state.files, FileModel { path, ..state.files.last() })
            &&& !next.in_hunk
        }),
{
    let line = "+++ b/"@ + path;
    reveal_strlit("+++ b/");
    lemma_concat("+++ b/"@, path);
    lemma_heads(line);
    assert(parser::step(state, line).files =~= with_last(
        state.files,
        FileModel { path, ..state.files.last() },
    ));
}

/// `Binary files … differ` marks the file as binary and takes its hunks away; path
/// and rename source stay.
pub proof fn lemma_binary_line(state: ParseState, what: Seq<char>)
    requires
        state.files.len() > 0,
    ensures
        ({
            let next = parser::step(state, "Binary files "@ + what + " differ"@);
            &&& next.files == with_last(
                state.files,
                FileModel { binary: true, hunks: Seq::empty(), ..state.files.last() },
            )
            &&& !next.in_hunk
        }),
{
    let line = "Binary files "@ + what + " differ"@;
    lemma_concat("Binary files "@, what + " differ"@);
    assert(line =~= "Binary files "@ + (what + " differ"@));
    reveal_strlit("Binary files ");
    lemma_heads(line);
    assert(line.subrange(line.len() - " differ"@.len(), line.len() as int) =~= " differ"@);
    assert(" differ"@.is_suffix_of(line));
    assert(parser::step(state, line).files =~= with_last(
        state.files,
        FileModel { binary: true, hunks: Seq::empty(), ..state.files.last() },
    ));
}

/// The same of any line that begins and ends like that.
pub proof fn lemma_binary_marker(state: ParseState, line: Seq<char>)
    requires
        state.files.len() > 0,
        "Binary files "@.is_prefix_of(line),
        " differ"@.is_suffix_of(line),
    ensures
        parser::step(state, line).files == with_last(
            state.files,
            FileModel { binary: true, hunks: Seq::empty(), ..state.files.last() },
        ),
        !parser::step(state, line).in_hunk,
{
    lemma_heads(line);
    assert(parser::step(state, line).files =~= with_last(
        state.files,
        FileModel { binary: true, hunks: Seq::empty(), ..state.files.last() },
    ));
}

/// In an open hunk a line with a sign in front is added to the end of that hunk,
/// with everything that follows the sign as its text. All else stays: the hunk's
/// other lines, the other hunks, and what is known of the file.
pub proof fn lemma_signed_line(state: ParseState, line: LineModel)
    requires
        state.in_hunk,
        state.files.len() > 0,
        state.files.last().hunks.len() > 0,
    ensures
        ({
            let written = match line {
                LineModel::Added(s) => seq!['+'] + s,
                LineModel::Removed(s) => seq!['-'] + s,
                LineModel::Context(s) => seq![' '] + s,
            };
            let next = parser::step(state, written);
            let file = state.files.last();
            let open = file.hunks.last();
            &&& next.in_hunk
            &&& next.files == with_last(
                state.files,
                FileModel {
                    hunks: file.hunks.update(
                        file.hunks.len() - 1,
                        HunkModel { lines: open.lines.push(line), ..open },
                    ),
                    ..file
                },
            )
        }),
{
    let written = match line {
        LineModel::Added(s) => seq!['+'] + s,
        LineModel::Removed(s) => seq!['-'] + s,
        LineModel::Context(s) => seq![' '] + s,
    };
    reveal_strlit("+");
    reveal_strlit("-");
    reveal_strlit(" ");
    lemma_heads(written);
    match line {
        LineModel::Added(s) => assert(written.skip(1) =~= s),
        LineModel::Removed(s) => assert(written.skip(1) =~= s),
        LineModel::Context(s) => assert(written.skip(1) =~= s),
    }
    let file = state.files.last();
    let open = file.hunks.last();
    let grown = FileModel {
        hunks: file.hunks.update(
            file.hunks.len() - 1,
            HunkModel { lines: open.lines.push(line), ..open },
        ),
        ..file
    };
    assert(parser::said(written, true) == parser::DiffLine::Body(line));
    assert(parser::with_line(file, line) =~= grown);
    assert(parser::step(state, written).files =~= with_last(state.files, grown));
}

/// `diff --git a/X b/Y` opens a file with the path `Y` of which nothing else is
/// known yet, whatever the state was.
pub proof fn lemma_file_header_line(state: ParseState, old: Seq<char>, new: Seq<char>)
    requires
        forall|i: int| !text::stands_at(old, " b/"@, i),
    ensures
        parser::step(state, "diff --git "@ + ("a/"@ + old + " b/"@ + new)) == (ParseState {
            files: state.files.push(
                FileModel { path: new, hunks: Seq::empty(), binary: false, rename_from: None },
            ),
            in_hunk: false,
        }),
{
    let rest = "a/"@ + old + " b/"@ + new;
    let line = "diff --git "@ + rest;
    lemma_concat("diff --git "@, rest);
    lemma_heads(line);
    reveal_strlit("diff --git ");
    lemma_header_cut(old, new);
}

/// The path begins behind the first ` b/` of a file header, wherever that is.
pub proof fn lemma_any_file_header_line(state: ParseState, before: Seq<char>, path: Seq<char>)
    requires
        forall|i: int|
            0 <= i < before.len() ==> !text::stands_at(before + " b/"@ + path, " b/"@, i),
    ensures
        parser::step(state, "diff --git "@ + (before + " b/"@ + path)) == (ParseState {
            files: state.files.push(
                FileModel { path, hunks: Seq::empty(), binary: false, rename_from: None },
            ),
            in_hunk: false,
        }),
{
    let rest = before + " b/"@ + path;
    let line = "diff --git "@ + rest;
    lemma_concat("diff --git "@, rest);
    lemma_heads(line);
    reveal_strlit("diff --git ");
    let at = before.len() as int;
    assert(rest.subrange(at, at + " b/"@.len()) =~= " b/"@);
    lemma_found_at(rest, " b/"@, 0, at);
    assert(rest.skip(at + " b/"@.len()) =~= path);
}

proof fn lemma_header_cut(old: Seq<char>, new: Seq<char>)
    requires
        forall|i: int| !text::stands_at(old, " b/"@, i),
    ensures
        parser::header_path("a/"@ + old + " b/"@ + new) == new,
{
    let rest = "a/"@ + old + " b/"@ + new;
    reveal_strlit("a/");
    reveal_strlit(" b/");
    let at = 2 + old.len() as int;
    assert(rest.subrange(at, at + 3) =~= " b/"@);
    assert forall|i: int| 0 <= i < at implies !text::stands_at(rest, " b/"@, i) by {
        if text::stands_at(rest, " b/"@, i) {
            let window = rest.subrange(i, i + 3);
            assert(window[0] == rest[i] && window[1] == rest[i + 1] && window[2] == rest[i + 2]);
            if i >= 2 {
                if i + 3 <= at {
                    assert(old.subrange(i - 2, i + 1) =~= window);
                    assert(text::stands_at(old, " b/"@, i - 2));
                } else if i == at - 1 {
                    assert(rest[i + 1] == ' ');
                } else {
                    assert(rest[i + 2] == ' ');
                }
            } else {
                assert(rest[0] == 'a' && rest[1] == '/');
            }
        }
    }
    lemma_found_at(rest, " b/"@, 0, at);
    assert(rest.skip(at + 3) =~= new);
}

proof fn lemma_found_at(s: Seq<char>, pattern: Seq<char>, from: int, at: int)
    requires
        0 <= from <= at,
        text::stands_at(s, pattern, at),
        forall|i: int| from <= i < at ==> !text::stands_at(s, pattern, i),
    ensures
        text::first_from(s, pattern, from) == Some(at),
    decreases at - from,
{
    if from < at {
        lemma_found_at(s, pattern, from + 1, at);
    }
}

/// A header without a `b/` side gives the file all that it says as its path.
pub proof fn lemma_odd_file_header_line(state: ParseState, rest: Seq<char>)
    requires
        forall|i: int| !text::stands_at(rest, " b/"@, i),
    ensures
        parser::step(state, "diff --git "@ + rest) == (ParseState {
            files: state.files.push(
                FileModel { path: rest, hunks: Seq::empty(), binary: false, rename_from: None },
            ),
            in_hunk: false,
        }),
{
    let line = "diff --git "@ + rest;
    lemma_concat("diff --git "@, rest);
    lemma_heads(line);
    reveal_strlit("diff --git ");
    lemma_found_nowhere(rest, " b/"@, 0);
}

proof fn lemma_found_nowhere(s: Seq<char>, pattern: Seq<char>, from: int)
    requires
        forall|i: int| !text::stands_at(s, pattern, i),
    ensures
        text::first_from(s, pattern, from) is None,
    decreases s.len() + 1 - from,
{
    if from + pattern.len() <= s.len() {
        lemma_found_nowhere(s, pattern, from + 1);
    }
}

/// A hunk header opens a hunk at the end of the file's hunks, with the ranges and
/// the heading that it names and no lines; in a binary file it opens none.
pub proof fn lemma_hunk_header_step(state: ParseState, hunk: HunkModel)
    requires
        state.files.len() > 0,
        hunk.lines.len() == 0,
        text::trimmed_start(hunk.heading) == hunk.heading,
    ensures
        ({
            let next = parser::step(
                state,
                "@@ -"@ + text::decimal(hunk.old_range.0 as nat) + ","@ + text::decimal(
                    hunk.old_range.1 as nat,
                ) + " +"@ + text::decimal(hunk.new_range.0 as nat) + ","@ + text::decimal(
                    hunk.new_range.1 as nat,
                ) + " @@ "@ + hunk.heading,
            );
            let file = state.files.last();
            if file.binary {
                next.files == state.files && !next.in_hunk
            } else {
                &&& next.in_hunk
                &&& next.files == with_last(
                    state.files,
                    FileModel { hunks: file.hunks.push(hunk), ..file },
                )
            }
        }),
{
    rows::lemma_hunk_header_reads_back(hunk, state.in_hunk);
    let file = state.files.last();
    assert(HunkModel { lines: Seq::empty(), ..hunk } =~= hunk);
    if !file.binary {
        assert(parser::step(state, rows::hunk_header_text(hunk)).files =~= with_last(
            state.files,
            FileModel { hunks: file.hunks.push(hunk), ..file },
        ));
    }
}

/// A line that begins with two at signs and does not go on with a minus sign opens
/// no hunk, and ends the one that is open.
pub proof fn lemma_broken_hunk_header_line(state: ParseState, rest: Seq<char>)
    requires
        state.files.len() > 0,
        rest.len() == 0 || !text::white_space(rest[0]) && rest[0] != '-',
    ensures
        parser::step(state, "@@"@ + rest).files == state.files,
        !parser::step(state, "@@"@ + rest).in_hunk,
{
    let line = "@@"@ + rest;
    lemma_concat("@@"@, rest);
    lemma_heads(line);
    reveal_strlit("@@");
    lemma_heads(rest);
    assert(text::trimmed_start(rest) == rest);
    assert(parser::hunk_header(rest) is None);
}

/// White space before either sign of a hunk header does not matter.
pub proof fn lemma_space_before_ranges(space: Seq<char>, rest: Seq<char>)
    requires
        forall|i: int| 0 <= i < space.len() ==> text::white_space(#[trigger] space[i]),
        rest.len() > 0 ==> !text::white_space(rest[0]),
    ensures
        parser::hunk_header(space + rest) == parser::hunk_header(rest),
        parser::signed_word(space + rest, "+"@) == parser::signed_word(rest, "+"@),
{
    lemma_trims_to(space, rest);
    assert(text::trimmed_start(rest) == rest);
}

proof fn lemma_trims_to(space: Seq<char>, rest: Seq<char>)
    requires
        forall|i: int| 0 <= i < space.len() ==> text::white_space(#[trigger] space[i]),
        rest.len() > 0 ==> !text::white_space(rest[0]),
    ensures
        text::trimmed_start(space + rest) == rest,
    decreases space.len(),
{
    if space.len() == 0 {
        assert(space + rest =~= rest);
    } else {
        assert((space + rest)[0] == space[0]);
        assert((space + rest).skip(1) =~= space.skip(1) + rest);
        assert forall|i: int| 0 <= i < space.skip(1).len() implies text::white_space(
            #[trigger] space.skip(1)[i],
        ) by {
            assert(space.skip(1)[i] == space[i + 1]);
        }
        lemma_trims_to(space.skip(1), rest);
    }
}

/// A heading is what follows the ranges and the at signs, without the white space
/// between; where there are no at signs it is what follows the ranges.
pub proof fn lemma_headings(space: Seq<char>, gap: Seq<char>, heading: Seq<char>)
    requires
        forall|i: int| 0 <= i < space.len() ==> text::white_space(#[trigger] space[i]),
        forall|i: int| 0 <= i < gap.len() ==> text::white_space(#[trigger] gap[i]),
        heading.len() > 0 ==> !text::white_space(heading[0]),
    ensures
        parser::heading(space + ("@@"@ + (gap + heading))) == heading,
        !"@@"@.is_prefix_of(heading) ==> parser::heading(space + heading) == heading,
{
    let marked = "@@"@ + (gap + heading);
    reveal_strlit("@@");
    lemma_concat("@@"@, gap + heading);
    lemma_trims_to(space, marked);
    lemma_trims_to(gap, heading);
    lemma_trims_to(space, heading);
    assert(text::trimmed_start(heading) == heading);
}

/// A hunk header is read only if both its ranges are there, each behind its sign and
/// before a space, and both are numbers.
pub proof fn lemma_only_hunk_headers_are_read(rest: Seq<char>)
    requires
        parser::hunk_header(rest) is Some,
    ensures
        ({
            let hunk = parser::hunk_header(rest)->0;
            let old = text::cut(text::trimmed_start(rest).skip(1), seq![' '])->0;
            let new = text::cut(text::trimmed_start(old.1).skip(1), seq![' '])->0;
            &&& text::trimmed_start(rest).len() > 0 && text::trimmed_start(rest)[0] == '-'
            &&& text::cut(text::trimmed_start(rest).skip(1), seq![' ']) is Some
            &&& text::trimmed_start(old.1).len() > 0 && text::trimmed_start(old.1)[0] == '+'
            &&& text::cut(text::trimmed_start(old.1).skip(1), seq![' ']) is Some
            &&& reads_as_range(old.0, hunk.old_range)
            &&& reads_as_range(new.0, hunk.new_range)
            &&& hunk.lines.len() == 0
        }),
{
    reveal_strlit(" ");
    reveal_strlit("-");
    reveal_strlit("+");
    assert(" "@ =~= seq![' ']);
    let (old_part, after_old) = parser::signed_word(rest, "-"@)->0;
    let (new_part, after_new) = parser::signed_word(after_old, "+"@)->0;
    lemma_heads(text::trimmed_start(rest));
    lemma_heads(text::trimmed_start(after_old));
    lemma_range_parts(old_part);
    lemma_range_parts(new_part);
}

/// Any two numbers with a comma between them are a range, and so is any number alone,
/// for a count of one.
pub proof fn lemma_ranges(a: Seq<char>, b: Seq<char>)
    requires
        text::number(a) is Some,
        text::number(b) is Some,
    ensures
        parser::range(a) == Some((text::number(a)->0, 1u32)),
        parser::range(a + seq![','] + b) == Some((text::number(a)->0, text::number(b)->0)),
{
    reveal_strlit(",");
    assert(","@ =~= seq![',']);
    text::lemma_only_numbers_are_read(a);
    assert(!a.contains(','));
    text::lemma_cut(a, ',', b);
    text::lemma_cut_is_first(a, ","@);
    if let Some((x, y)) = text::cut(a, ","@) {
        assert(a[x.len() as int] == ',');
    }
}

/// A hunk header with any two ranges is read, with the ranges and the heading that it
/// has.
pub proof fn lemma_hunk_headers_are_read(
    old: Seq<char>,
    new: Seq<char>,
    tail: Seq<char>,
)
    requires
        !old.contains(' '),
        !new.contains(' '),
        parser::range(old) is Some,
        parser::range(new) is Some,
    ensures
        parser::hunk_header(
            seq![' ', '-'] + old + seq![' '] + (seq!['+'] + new + seq![' '] + tail),
        ) == Some(
            HunkModel {
                old_range: parser::range(old)->0,
                new_range: parser::range(new)->0,
                heading: parser::heading(tail),
                lines: Seq::empty(),
            },
        ),
{
    reveal_strlit(" ");
    reveal_strlit("-");
    reveal_strlit("+");
    assert(" "@ =~= seq![' ']);
    assert("-"@ =~= seq!['-']);
    assert("+"@ =~= seq!['+']);
    let second = seq!['+'] + new + seq![' '] + tail;
    let first = seq!['-'] + old + seq![' '] + second;
    let rest = seq![' ', '-'] + old + seq![' '] + second;
    text::lemma_cut(old, ' ', second);
    text::lemma_cut(new, ' ', tail);
    assert(rest[0] == ' ');
    assert(rest.skip(1) =~= first);
    assert(first[0] == '-');
    assert(text::trimmed_start(first) == first);
    assert(text::trimmed_start(rest) == first);
    assert(first.skip(1) =~= old + seq![' '] + second);
    assert(second[0] == '+');
    assert(text::trimmed_start(second) == second);
    assert(second.skip(1) =~= new + seq![' '] + tail);
    lemma_heads(first);
    lemma_heads(second);
}

/// Whether `part` is two numbers with a comma between, or one number that stands for a
/// count of one.
pub open spec fn reads_as_range(part: Seq<char>, range: (u32, u32)) -> bool {
    ||| !part.contains(',') && text::number(part) == Some(range.0) && range.1 == 1
    ||| exists|at: int|
        0 <= at < part.len() && #[trigger] part[at] == ',' && text::number(part.take(at)) == Some(
            range.0,
        ) && text::number(part.skip(at + 1)) == Some(range.1)
}

proof fn lemma_range_parts(part: Seq<char>)
    ensures
        parser::range(part) matches Some(range) ==> reads_as_range(part, range),
{
    reveal_strlit(",");
    assert(","@ =~= seq![',']);
    text::lemma_cut_is_first(part, ","@);
    match text::cut(part, ","@) {
        Some((start, count)) => {
            let at = start.len() as int;
            assert(part[at] == ',');
            assert(part.take(at) =~= start);
            assert(part.skip(at + 1) =~= count);
        },
        None => {
            assert forall|i: int| 0 <= i < part.len() implies part[i] != ',' by {
                assert(part.subrange(i, i + 1) != ","@);
                if part[i] == ',' {
                    assert(part.subrange(i, i + 1) =~= ","@);
                }
            }
        },
    }
}

/// A line that begins in none of the ways that the format knows is dropped: it
/// changes nothing.
pub proof fn lemma_silent_line(state: ParseState, line: Seq<char>)
    requires
        !"diff --git "@.is_prefix_of(line),
        !"rename from "@.is_prefix_of(line),
        !"rename to "@.is_prefix_of(line),
        !("Binary files "@.is_prefix_of(line) && " differ"@.is_suffix_of(line)),
        !"@@"@.is_prefix_of(line),
        state.in_hunk ==> line.len() == 0 || line[0] != '+' && line[0] != '-' && line[0] != ' ',
        !state.in_hunk ==> !"+++ b/"@.is_prefix_of(line),
    ensures
        parser::step(state, line) == state,
{
    lemma_heads(line);
}

/// Before the first file header nothing counts.
pub proof fn lemma_nothing_before_a_header(line: Seq<char>)
    requires
        !"diff --git "@.is_prefix_of(line),
    ensures
        parser::step(parser::start(), line) == parser::start(),
{
    lemma_heads(line);
}

/// No line touches a file that another one has followed.
pub proof fn lemma_closed_files_stay(state: ParseState, line: Seq<char>, i: int)
    requires
        0 <= i < state.files.len() - 1,
    ensures
        parser::step(state, line).files.len() >= state.files.len(),
        parser::step(state, line).files[i] == state.files[i],
{
}

// ---------------------------------------------------------------------------
// What lines keep
// ---------------------------------------------------------------------------

/// The rename source of a file is what `rename from` said, whatever lines follow up
/// to the next file header.
pub proof fn lemma_rename_source_stays(state: ParseState, lines: Seq<Seq<char>>)
    requires
        state.files.len() > 0,
        forall|i: int|
            0 <= i < lines.len() ==> !"diff --git "@.is_prefix_of(#[trigger] lines[i])
                && !"rename from "@.is_prefix_of(lines[i]),
    ensures
        parser::steps_from(state, lines).files.len() == state.files.len(),
        parser::steps_from(state, lines).files.last().rename_from
            == state.files.last().rename_from,
    decreases lines.len(),
{
    if lines.len() > 0 {
        let rest = lines.drop_last();
        assert forall|i: int| 0 <= i < rest.len() implies !"diff --git "@.is_prefix_of(
            #[trigger] rest[i],
        ) && !"rename from "@.is_prefix_of(rest[i]) by {
            assert(rest[i] == lines[i]);
        }
        lemma_rename_source_stays(state, rest);
        assert(lines[lines.len() - 1] == lines.last());
        lemma_heads(lines.last());
    }
}

/// The path of a file changes only by `rename to` and `+++ b/`, up to the next file
/// header.
pub proof fn lemma_path_stays(state: ParseState, lines: Seq<Seq<char>>)
    requires
        state.files.len() > 0,
        forall|i: int|
            0 <= i < lines.len() ==> !"diff --git "@.is_prefix_of(#[trigger] lines[i])
                && !"rename to "@.is_prefix_of(lines[i]) && !"+++ b/"@.is_prefix_of(lines[i]),
    ensures
        parser::steps_from(state, lines).files.len() == state.files.len(),
        parser::steps_from(state, lines).files.last().path == state.files.last().path,
    decreases lines.len(),
{
    if lines.len() > 0 {
        let rest = lines.drop_last();
        assert forall|i: int| 0 <= i < rest.len() implies !"diff --git "@.is_prefix_of(
            #[trigger] rest[i],
        ) && !"rename to "@.is_prefix_of(rest[i]) && !"+++ b/"@.is_prefix_of(rest[i]) by {
            assert(rest[i] == lines[i]);
        }
        lemma_path_stays(state, rest);
        assert(lines[lines.len() - 1] == lines.last());
        lemma_heads(lines.last());
    }
}

/// The hunks of a file that is not binary stay, but for the open one, which only
/// grows at its end; new ones follow them.
pub proof fn lemma_hunks_stay(state: ParseState, line: Seq<char>, i: int)
    requires
        parser::coherent(state),
        state.files.len() > 0,
        !"diff --git "@.is_prefix_of(line),
        !("Binary files "@.is_prefix_of(line) && " differ"@.is_suffix_of(line)),
        0 <= i < state.files.last().hunks.len(),
    ensures
        ({
            let before = state.files.last().hunks;
            let after = parser::step(state, line).files.last().hunks;
            &&& after.len() >= before.len()
            &&& after[i].old_range == before[i].old_range
            &&& after[i].new_range == before[i].new_range
            &&& after[i].heading == before[i].heading
            &&& before[i].lines.is_prefix_of(after[i].lines)
            &&& i < before.len() - 1 || !state.in_hunk ==> after[i] == before[i]
        }),
{
    lemma_heads(line);
}

// ---------------------------------------------------------------------------
// Reading what was written
// ---------------------------------------------------------------------------

/// The lines of the hunks, one under the other.
pub open spec fn written_hunks(hunks: Seq<HunkModel>) -> Seq<Seq<char>>
    decreases hunks.len(),
{
    if hunks.len() == 0 {
        Seq::empty()
    } else {
        written_hunks(hunks.drop_last()) + written_hunk(hunks.last())
    }
}

/// The lines of a hunk as `git` prints them.
pub open spec fn written_hunk(hunk: HunkModel) -> Seq<Seq<char>> {
    seq![
        "@@ -"@ + text::decimal(hunk.old_range.0 as nat) + ","@ + text::decimal(
            hunk.old_range.1 as nat,
        ) + " +"@ + text::decimal(hunk.new_range.0 as nat) + ","@ + text::decimal(
            hunk.new_range.1 as nat,
        ) + " @@ "@ + hunk.heading,
    ] + hunk.lines.map_values(
        |line: LineModel|
            match line {
                LineModel::Added(s) => seq!['+'] + s,
                LineModel::Removed(s) => seq!['-'] + s,
                LineModel::Context(s) => seq![' '] + s,
            },
    )
}

/// The path of `file` before the change.
pub open spec fn old_path(file: FileModel) -> Seq<char> {
    match file.rename_from {
        Some(from) => from,
        None => file.path,
    }
}

/// The lines of a file as `git` prints them.
pub open spec fn written_file(file: FileModel) -> Seq<Seq<char>> {
    let old = "a/"@ + old_path(file);
    let new = "b/"@ + file.path;
    seq!["diff --git "@ + ("a/"@ + old_path(file) + " b/"@ + file.path)] + (
    match file.rename_from {
        Some(from) => seq![
            "similarity index 90%"@,
            "rename from "@ + from,
            "rename to "@ + file.path,
        ],
        None => Seq::empty(),
    }) + seq!["index 1234567..89abcde 100644"@] + (if file.binary {
        seq!["Binary files "@ + (old + " and "@ + new) + " differ"@]
    } else if file.hunks.len() > 0 {
        seq!["--- "@ + old, "+++ b/"@ + file.path] + written_hunks(file.hunks)
    } else {
        Seq::empty()
    })
}

pub open spec fn written(files: Seq<FileModel>) -> Seq<Seq<char>>
    decreases files.len(),
{
    if files.len() == 0 {
        Seq::empty()
    } else {
        written(files.drop_last()) + written_file(files.last())
    }
}

/// A file that `git` can print: its old path can be told from its new one, a binary
/// file has no hunks, and no heading begins with white space.
pub open spec fn printable(file: FileModel) -> bool {
    &&& forall|i: int| !text::stands_at(old_path(file), " b/"@, i)
    &&& file.binary ==> file.hunks.len() == 0
    &&& forall|i: int|
        0 <= i < file.hunks.len() ==> text::trimmed_start((#[trigger] file.hunks[i]).heading)
            == file.hunks[i].heading
}

/// A diff as `git` prints it is read as the files it was printed for: each with its
/// path, its rename source, its mark, and its hunks with all their lines.
pub proof fn lemma_written_diff_reads_back(files: Seq<FileModel>)
    requires
        files.len() > 0,
        forall|i: int| 0 <= i < files.len() ==> printable(#[trigger] files[i]),
        forall|i: int| 0 <= i < written(files).len() ==> !(#[trigger] written(files)[i]).contains(
            '\n',
        ),
    ensures
        parser::parsed(text::joined(written(files), seq!['\n'])) == files,
{
    lemma_written_lines_read_back(files);
    assert(written(files).len() > 0) by {
        assert(written_file(files.last()).len() > 0);
    }
    text::lemma_fields_joined(written(files), '\n');
}

/// The same of the lines.
pub proof fn lemma_written_lines_read_back(files: Seq<FileModel>)
    requires
        forall|i: int| 0 <= i < files.len() ==> printable(#[trigger] files[i]),
    ensures
        parser::steps(written(files)).files == files,
    decreases files.len(),
{
    if files.len() == 0 {
        assert(parser::steps(written(files)).files =~= files);
    } else {
        let init = files.drop_last();
        let file = files.last();
        assert forall|i: int| 0 <= i < init.len() implies printable(#[trigger] init[i]) by {
            assert(init[i] == files[i]);
        }
        lemma_written_lines_read_back(init);
        assert(printable(files[files.len() - 1]));
        lemma_written_file_reads_back(parser::steps(written(init)), file);
        parser::lemma_steps_concat(written(init), written_file(file));
        assert(init.push(file) =~= files);
    }
}

proof fn lemma_steps_from_concat(
    state: ParseState,
    first: Seq<Seq<char>>,
    second: Seq<Seq<char>>,
)
    ensures
        parser::steps_from(state, first + second) == parser::steps_from(
            parser::steps_from(state, first),
            second,
        ),
    decreases second.len(),
{
    if second.len() == 0 {
        assert(first + second =~= first);
    } else {
        lemma_steps_from_concat(state, first, second.drop_last());
        assert((first + second).drop_last() =~= first + second.drop_last());
        assert((first + second).last() == second.last());
    }
}

proof fn lemma_one_step(state: ParseState, line: Seq<char>)
    ensures
        parser::steps_from(state, seq![line]) == parser::step(state, line),
{
    assert(seq![line].drop_last() =~= Seq::<Seq<char>>::empty());
    assert(parser::steps_from(state, seq![line].drop_last()) == state);
}

proof fn lemma_written_hunk_reads_back(state: ParseState, hunk: HunkModel)
    requires
        state.files.len() > 0,
        !state.files.last().binary,
        text::trimmed_start(hunk.heading) == hunk.heading,
    ensures
        ({
            let next = parser::steps_from(state, written_hunk(hunk));
            let file = state.files.last();
            &&& next.in_hunk
            &&& next.files == with_last(
                state.files,
                FileModel { hunks: file.hunks.push(hunk), ..file },
            )
        }),
    decreases hunk.lines.len(),
{
    let file = state.files.last();
    let all = written_hunk(hunk);
    if hunk.lines.len() == 0 {
        assert(all =~= seq![all[0]]);
        lemma_one_step(state, all[0]);
        lemma_hunk_header_step(state, hunk);
    } else {
        let shorter = HunkModel { lines: hunk.lines.drop_last(), ..hunk };
        let line = hunk.lines.last();
        lemma_written_hunk_reads_back(state, shorter);
        assert(all.drop_last() =~= written_hunk(shorter));
        let before = parser::steps_from(state, all.drop_last());
        lemma_signed_line(before, line);
        assert(before.files.last().hunks.last() == shorter);
        assert(shorter.lines.push(line) =~= hunk.lines);
        assert(before.files.last().hunks.update(file.hunks.len() as int, hunk)
            =~= file.hunks.push(hunk));
        assert(parser::steps_from(state, all).files =~= with_last(
            state.files,
            FileModel { hunks: file.hunks.push(hunk), ..file },
        ));
    }
}

proof fn lemma_written_hunks_read_back(state: ParseState, hunks: Seq<HunkModel>)
    requires
        state.files.len() > 0,
        !state.files.last().binary,
        state.files.last().hunks.len() == 0,
        forall|i: int|
            0 <= i < hunks.len() ==> text::trimmed_start((#[trigger] hunks[i]).heading)
                == hunks[i].heading,
    ensures
        parser::steps_from(state, written_hunks(hunks)).files == with_last(
            state.files,
            FileModel { hunks, ..state.files.last() },
        ),
    decreases hunks.len(),
{
    let file = state.files.last();
    if hunks.len() == 0 {
        assert(hunks =~= file.hunks);
        assert(with_last(state.files, FileModel { hunks, ..file }) =~= state.files);
    } else {
        let init = hunks.drop_last();
        assert forall|i: int| 0 <= i < init.len() implies text::trimmed_start(
            (#[trigger] init[i]).heading,
        ) == init[i].heading by {
            assert(init[i] == hunks[i]);
        }
        lemma_written_hunks_read_back(state, init);
        let before = parser::steps_from(state, written_hunks(init));
        assert(hunks[hunks.len() - 1] == hunks.last());
        lemma_written_hunk_reads_back(before, hunks.last());
        lemma_steps_from_concat(state, written_hunks(init), written_hunk(hunks.last()));
        assert(init.push(hunks.last()) =~= hunks);
        assert(parser::steps_from(state, written_hunks(hunks)).files =~= with_last(
            state.files,
            FileModel { hunks, ..file },
        ));
    }
}

proof fn lemma_similarity_silent(state: ParseState)
    ensures
        parser::step(state, "similarity index 90%"@) == state,
        parser::step(state, "index 1234567..89abcde 100644"@) == state,
{
    reveal_strlit("similarity index 90%");
    reveal_strlit("index 1234567..89abcde 100644");
    lemma_heads("similarity index 90%"@);
    lemma_heads("index 1234567..89abcde 100644"@);
    lemma_silent_line(state, "similarity index 90%"@);
    lemma_silent_line(state, "index 1234567..89abcde 100644"@);
}

proof fn lemma_old_side_silent(state: ParseState, old: Seq<char>)
    requires
        !state.in_hunk,
    ensures
        parser::step(state, "--- "@ + old) == state,
{
    let line = "--- "@ + old;
    reveal_strlit("--- ");
    assert(line[0] == '-');
    lemma_heads(line);
    lemma_silent_line(state, line);
}

/// One file's lines add that file, whatever was read before.
pub proof fn lemma_written_file_reads_back(state: ParseState, file: FileModel)
    requires
        printable(file),
    ensures
        parser::steps_from(state, written_file(file)).files == state.files.push(file),
{
    let old = "a/"@ + old_path(file);
    let new = "b/"@ + file.path;
    let head = seq!["diff --git "@ + ("a/"@ + old_path(file) + " b/"@ + file.path)];
    let index = seq!["index 1234567..89abcde 100644"@];
    let renames = match file.rename_from {
        Some(from) => seq![
            "similarity index 90%"@,
            "rename from "@ + from,
            "rename to "@ + file.path,
        ],
        None => Seq::<Seq<char>>::empty(),
    };
    let tail = if file.binary {
        seq!["Binary files "@ + (old + " and "@ + new) + " differ"@]
    } else if file.hunks.len() > 0 {
        seq!["--- "@ + old, "+++ b/"@ + file.path] + written_hunks(file.hunks)
    } else {
        Seq::<Seq<char>>::empty()
    };
    assert(written_file(file) =~= head + renames + index + tail);
    let bare = FileModel {
        path: file.path,
        hunks: Seq::empty(),
        binary: false,
        rename_from: None,
    };
    // The file header.
    lemma_one_step(state, head[0]);
    lemma_file_header_line(state, old_path(file), file.path);
    let s1 = parser::steps_from(state, head);
    assert(s1 == (ParseState { files: state.files.push(bare), in_hunk: false }));
    // The renaming.
    let s2 = parser::steps_from(s1, renames);
    let renamed = FileModel { rename_from: file.rename_from, ..bare };
    assert(s2.files =~= state.files.push(renamed) && !s2.in_hunk) by {
        if let Some(from) = file.rename_from {
            let a = seq!["similarity index 90%"@];
            let b = seq!["rename from "@ + from];
            let c = seq!["rename to "@ + file.path];
            assert(renames =~= a + b + c);
            lemma_steps_from_concat(s1, a + b, c);
            lemma_steps_from_concat(s1, a, b);
            lemma_similarity_silent(s1);
            lemma_one_step(s1, a[0]);
            lemma_one_step(s1, b[0]);
            lemma_rename_from_line(s1, from);
            let named = parser::steps_from(s1, a + b);
            lemma_one_step(named, c[0]);
            lemma_rename_to_line(named, file.path);
        }
    }
    // The index line.
    lemma_one_step(s2, index[0]);
    lemma_similarity_silent(s2);
    assert(parser::steps_from(s2, index) == s2);
    // The content.
    let s3 = parser::steps_from(s2, tail);
    assert(s3.files =~= state.files.push(file)) by {
        if file.binary {
            lemma_one_step(s2, tail[0]);
            lemma_binary_line(s2, old + " and "@ + new);
            assert(file.hunks =~= Seq::<HunkModel>::empty());
        } else if file.hunks.len() > 0 {
            let a = seq!["--- "@ + old];
            let b = seq!["+++ b/"@ + file.path];
            assert(tail =~= a + b + written_hunks(file.hunks));
            lemma_steps_from_concat(s2, a + b, written_hunks(file.hunks));
            lemma_steps_from_concat(s2, a, b);
            lemma_one_step(s2, a[0]);
            lemma_old_side_silent(s2, old);
            lemma_one_step(s2, b[0]);
            lemma_new_path_line(s2, file.path);
            let named = parser::steps_from(s2, a + b);
            assert(named.files =~= state.files.push(renamed));
            lemma_written_hunks_read_back(named, file.hunks);
        } else {
            assert(file.hunks =~= Seq::<HunkModel>::empty());
        }
    }
    lemma_steps_from_concat(state, head + renames + index, tail);
    lemma_steps_from_concat(state, head + renames, index);
    lemma_steps_from_concat(state, head, renames);
}

} // verus!
