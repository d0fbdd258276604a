//! The text under a selection, for copying.
use vstd::prelude::*;

use super::render;
use super::view;
use super::view::{smaller, DiffView, ViewModel};
use crate::pane::input::{Key, Mouse, Selection};
use crate::text;

verus! {

/// The characters of `s` in the columns from `start` to `end`, both included,
/// as far as there are any. A character fills one column.
pub open spec fn columns(s: Seq<char>, start: int, end: int) -> Seq<char> {
    if start >= s.len() || start > end {
        Seq::empty()
    } else {
        s.subrange(start, smaller(end + 1, s.len() as int))
    }
}

/// The selected part of each row that the selection touches. A row below the
/// last one stands for the last one.
pub open spec fn selected_rows(rows: Seq<Seq<char>>, sel: Selection) -> Seq<Seq<char>>
    recommends
        rows.len() > 0,
{
    let sel = sel.in_order();
    let first = smaller(sel.start_row as int, rows.len() - 1);
    let last = smaller(sel.end_row as int, rows.len() - 1);
    if first == last {
        seq![columns(rows[first], sel.start_col as int, sel.end_col as int)]
    } else {
        seq![columns(rows[first], sel.start_col as int, u16::MAX as int)] + rows.subrange(
            first + 1,
            last,
        ) + seq![columns(rows[last], 0, sel.end_col as int)]
    }
}

/// The selected text, if there is any.
pub open spec fn selected(rows: Seq<Seq<char>>, sel: Selection) -> Option<Seq<char>> {
    if rows.len() == 0 {
        None
    } else {
        let text = text::joined(selected_rows(rows, sel), "\n"@);
        if text.len() == 0 {
            None
        } else {
            Some(text)
        }
    }
}

// ---------------------------------------------------------------------------
// Laws
// ---------------------------------------------------------------------------

/// All columns of a text are the text itself, and columns only ever give a
/// stretch of it that is no longer than asked for.
pub proof fn lemma_columns(s: Seq<char>, start: int, end: int)
    requires
        0 <= start,
        0 <= end,
    ensures
        s.len() <= end + 1 ==> columns(s, 0, end) == s,
        columns(s, start, end).len() <= s.len(),
        start <= end < s.len() ==> columns(s, start, end).len() == end - start + 1,
        start < s.len() <= end ==> columns(s, start, end).len() == s.len() - start,
        start > end || start >= s.len() ==> columns(s, start, end).len() == 0,
        start <= end ==> columns(s, start, end).len() <= end - start + 1,
        forall|i: int|
            0 <= i < columns(s, start, end).len() ==> columns(s, start, end)[i] == s[start + i],
{
    if s.len() <= end + 1 {
        assert(columns(s, 0, end) =~= s);
    }
}

/// Selecting whole rows gives exactly what they show, one row a line.
pub proof fn lemma_whole_rows(rows: Seq<Seq<char>>, sel: Selection)
    requires
        sel.start_row <= sel.end_row,
        sel.end_row < rows.len(),
        sel.start_col == 0,
        rows[sel.end_row as int].len() <= sel.end_col + 1,
        sel.start_row < sel.end_row ==> rows[sel.start_row as int].len() <= u16::MAX + 1,
    ensures
        ({
            let whole = text::joined(
                rows.subrange(sel.start_row as int, sel.end_row + 1),
                "\n"@,
            );
            selected(rows, sel) == (if whole.len() > 0 {
                Some(whole)
            } else {
                None
            })
        }),
{
    let first = sel.start_row as int;
    let last = sel.end_row as int;
    lemma_columns(rows[last], 0, sel.end_col as int);
    if first < last {
        lemma_columns(rows[first], 0, u16::MAX as int);
    }
    assert(selected_rows(rows, sel) =~= rows.subrange(first, last + 1));
}

/// A selection that reaches below the last row selects as if it ended in that
/// row.
pub proof fn lemma_rows_below_the_last(rows: Seq<Seq<char>>, sel: Selection, last: Selection)
    requires
        rows.len() > 0,
        sel.ordered(),
        last.ordered(),
        sel.end_row >= rows.len(),
        last.end_row == rows.len() - 1,
        last.start_row == smaller(sel.start_row as int, rows.len() - 1),
        last.start_col == sel.start_col,
        last.end_col == sel.end_col,
    ensures
        selected(rows, sel) == selected(rows, last),
{
}

/// A selection within one row gives exactly the characters of the columns from its
/// first to its last, both included, as far as the row has them; nothing if it begins
/// behind the row's end.
pub proof fn lemma_one_row(rows: Seq<Seq<char>>, sel: Selection)
    requires
        sel.start_row == sel.end_row < rows.len(),
        sel.start_col <= sel.end_col,
    ensures
        ({
            let row = rows[sel.start_row as int];
            &&& sel.end_col < row.len() ==> selected(rows, sel) == Some(
                row.subrange(sel.start_col as int, sel.end_col + 1),
            )
            &&& sel.start_col < row.len() <= sel.end_col ==> selected(rows, sel) == Some(
                row.skip(sel.start_col as int),
            )
            &&& row.len() <= sel.start_col ==> selected(rows, sel) is None
        }),
{
    let row = rows[sel.start_row as int];
    assert(row.subrange(sel.start_col as int, row.len() as int) =~= row.skip(
        sel.start_col as int,
    ));
}

/// A selection over several rows begins with what its first row has from the first
/// column on, up to the last column that cells can have, and goes on, in a new line, with what the selection of the rows below
/// from their first column gives.
pub proof fn lemma_several_rows(rows: Seq<Seq<char>>, sel: Selection, below: Selection)
    requires
        sel.start_row < sel.end_row < rows.len(),
        sel.start_row + 1 < sel.end_row ==> rows[sel.start_row + 1].len() <= u16::MAX + 1,
        below.start_row == sel.start_row + 1,
        below.start_col == 0,
        below.end_row == sel.end_row,
        below.end_col == sel.end_col,
    ensures
        ({
            let row = rows[sel.start_row as int];
            let head = if sel.start_col >= row.len() {
                Seq::empty()
            } else if row.len() <= 65_536 {
                row.skip(sel.start_col as int)
            } else {
                row.subrange(sel.start_col as int, 65_536)
            };
            let rest = match selected(rows, below) {
                Some(text) => text,
                None => Seq::empty(),
            };
            selected(rows, sel) == Some(head + seq!['\n'] + rest)
        }),
{
    let first = sel.start_row as int;
    let last = sel.end_row as int;
    let row = rows[first];
    let head = columns(row, sel.start_col as int, u16::MAX as int);
    assert(sel.start_col < row.len() <= 65_536 ==> head =~= row.skip(sel.start_col as int));
    reveal_strlit("\n");
    assert("\n"@ =~= seq!['\n']);
    let all = selected_rows(rows, sel);
    let rest = selected_rows(rows, below);
    if first + 1 < last {
        lemma_columns(rows[first + 1], 0, u16::MAX as int);
        assert(rest =~= rows.subrange(first + 1, last) + seq![
            columns(rows[last], 0, sel.end_col as int),
        ]);
    }
    assert(all =~= seq![head] + rest);
    lemma_joined_from_front(head, rest, "\n"@);
    let below_text = text::joined(rest, "\n"@);
    if below_text.len() == 0 {
        assert(below_text =~= Seq::<char>::empty());
    }
    assert(text::joined(all, "\n"@) =~= head + seq!['\n'] + below_text);
}

proof fn lemma_joined_from_front(head: Seq<char>, rest: Seq<Seq<char>>, sep: Seq<char>)
    requires
        rest.len() > 0,
    ensures
        text::joined(seq![head] + rest, sep) == head + sep + text::joined(rest, sep),
    decreases rest.len(),
{
    let all = seq![head] + rest;
    assert(all.drop_last() =~= seq![head] + rest.drop_last());
    assert(all.last() == rest.last());
    if rest.len() == 1 {
        assert(all.drop_last() =~= seq![head]);
        assert(text::joined(all.drop_last(), sep) == head);
    } else {
        lemma_joined_from_front(head, rest.drop_last(), sep);
    }
    assert(text::joined(all, sep) =~= head + sep + text::joined(rest, sep));
}

/// Without rows there is nothing to select, and rows beyond the last are the last.
pub proof fn lemma_rows_out_of_reach(rows: Seq<Seq<char>>, sel: Selection, first: Selection)
    requires
        sel.start_row >= rows.len(),
        sel.ordered(),
        sel.start_col <= sel.end_col,
        rows.len() > 0 ==> first.start_row == rows.len() - 1 && first.end_row == rows.len() - 1,
        first.start_col == sel.start_col,
        first.end_col == sel.end_col,
    ensures
        rows.len() == 0 ==> selected(rows, sel) is None,
        rows.len() > 0 ==> selected(rows, sel) == selected(rows, first),
{
}

/// A selection that lies below the last row, and ends there in a column before the one
/// where it begins, covers nothing.
pub proof fn lemma_nothing_between_columns(rows: Seq<Seq<char>>, sel: Selection)
    requires
        sel.start_row >= rows.len() - 1,
        sel.start_row < sel.end_row,
        sel.start_col > sel.end_col,
    ensures
        selected(rows, sel) is None,
{
}

/// It does not matter from which end a range was selected.
pub proof fn lemma_direction_does_not_matter(rows: Seq<Seq<char>>, sel: Selection)
    ensures
        sel.in_order().ordered(),
        sel.reversed().in_order() == sel.in_order(),
        selected(rows, sel.reversed()) == selected(rows, sel),
{
}

/// Scrolling does not change what a selection covers: its rows are rows of the
/// diff, not of the viewport.
pub proof fn lemma_selection_survives_scrolling(
    view: ViewModel,
    key: Key,
    mouse: Mouse,
    sel: Selection,
)
    ensures
        selected(render::row_texts(view::pressed(view, key).0), sel) == selected(
            render::row_texts(view),
            sel,
        ),
        selected(render::row_texts(view::moused(view, mouse).0), sel) == selected(
            render::row_texts(view),
            sel,
        ),
{
}

// ---------------------------------------------------------------------------
// Extraction
// ---------------------------------------------------------------------------

/// The part of `s` in the columns from `start_col` to `end_col`, both included,
/// treating each `char` as one cell. Ends with the text where `end_col` is
/// beyond it.
pub fn slice_columns(s: &str, start_col: u16, end_col: u16) -> (part: &str)
    ensures
        part@ == columns(s@, start_col as int, end_col as int),
{
    let len: usize = s.unicode_len();
    let start: usize = start_col as usize;
    if start >= len || start_col > end_col {
        let part = s.substring_char(0, 0);
        assert(part@ =~= Seq::<char>::empty());
        return part;
    }
    let end: usize = if (end_col as usize) < len {
        end_col as usize + 1
    } else {
        len
    };
    s.substring_char(start, end)
}

impl DiffView {
    /// The text that `sel` covers, for copying; nothing if it covers none.
    pub fn extract_selection(&self, sel: &Selection) -> (out: Option<String>)
        ensures
            out is Some <==> selected(render::row_texts(self@), *sel) is Some,
            out matches Some(text) ==> text@ == selected(render::row_texts(self@), *sel)->0,
    {
        let rows = self.plain_lines();
        if rows.len() == 0 {
            return None;
        }
        let ghost texts = rows.deep_view();
        let ((start_row, start_col), (end_row, end_col)) = sel.ordered_cells();
        let last_index: usize = rows.len() - 1;
        let first: usize = if (start_row as usize) < last_index {
            start_row as usize
        } else {
            last_index
        };
        let last: usize = if (end_row as usize) < last_index {
            end_row as usize
        } else {
            last_index
        };
        let mut parts: Vec<String> = Vec::new();
        if first == last {
            assert(texts[first as int] == rows@[first as int]@);
            parts.push(
                String::from_str(slice_columns(rows[first].as_str(), start_col, end_col)),
            );
        } else {
            assert(texts[first as int] == rows@[first as int]@);
            assert(texts[last as int] == rows@[last as int]@);
            parts.push(
                String::from_str(slice_columns(rows[first].as_str(), start_col, u16::MAX)),
            );
            let ghost head = seq![columns(texts[first as int], start_col as int, 65535)];
            assert(parts.deep_view() =~= head + texts.subrange(first + 1, first + 1));
            for i in first + 1..last
                invariant
                    first < last < rows@.len(),
                    texts == rows.deep_view(),
                    parts.deep_view() == head + texts.subrange(first + 1, i as int),
            {
                let ghost before = parts.deep_view();
                parts.push(rows[i].clone());
                assert(parts.deep_view() =~= before.push(texts[i as int]));
                assert(parts.deep_view() =~= head + texts.subrange(first + 1, i + 1));
            }
            parts.push(String::from_str(slice_columns(rows[last].as_str(), 0, end_col)));
        }
        assert(parts.deep_view() =~= selected_rows(texts, *sel));
        let out = text::join(&parts, "\n");
        if out.unicode_len() == 0 {
            None
        } else {
            Some(out)
        }
    }
}

} // verus!
