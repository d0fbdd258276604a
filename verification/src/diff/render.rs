//! What a diff view looks like: its rows with their colours, and the header
//! line above them.
use vstd::prelude::*;

use super::rows;
use super::rows::{Row, RowKind, RowModel};
use super::scope;
use super::scope::{DiffViewOptions, OptionsModel};
use super::view::{smaller, DiffView, ViewModel, MAX_DIFF_LINES};
use crate::pane::paint::{Area, Color, Palette, Picture, PictureModel, StyledLine, StyledModel};
use crate::text;

verus! {

// ---------------------------------------------------------------------------
// The look
// ---------------------------------------------------------------------------

/// Text in the colour `fg`, on the terminal's own background.
pub open spec fn plain(text: Seq<char>, fg: Color) -> StyledModel {
    StyledModel { text, fg, bg: None, bold: false }
}

pub open spec fn styled_row(row: RowModel, palette: Palette) -> StyledModel {
    match row.kind {
        RowKind::File => StyledModel { bold: true, ..plain(row.text, palette.blue) },
        RowKind::Hunk => plain(row.text, palette.teal),
        RowKind::Added => plain(row.text, palette.green),
        RowKind::Removed => plain(row.text, palette.red),
        RowKind::Context => plain(row.text, Color::Reset),
        RowKind::Binary => plain(row.text, palette.overlay0),
    }
}

/// The rows of the diff, each in its colour.
pub open spec fn styled_rows(view: ViewModel, palette: Palette) -> Seq<StyledModel> {
    rows::rows(view.files).map_values(|row: RowModel| styled_row(row, palette))
}

/// The rows of the diff as plain text.
pub open spec fn row_texts(view: ViewModel) -> Seq<Seq<char>> {
    rows::row_texts(rows::rows(view.files))
}

/// What stands above the rows of the diff: the error of the last run of `git`,
/// and a note on lines that were left out.
pub open spec fn banners(view: ViewModel, palette: Palette) -> Seq<StyledModel> {
    let error = match view.git_error {
        Some(message) => seq![plain("git error: "@ + message, palette.red)],
        None => Seq::empty(),
    };
    let truncation = if view.truncated > 0 {
        seq![
            plain(
                "(truncated: showing first "@ + text::decimal(MAX_DIFF_LINES as nat) + " lines; "@
                    + text::decimal(view.truncated as nat) + " hidden)"@,
                palette.yellow,
            ),
        ]
    } else {
        Seq::empty()
    };
    error + truncation
}

pub open spec fn header_text(options: OptionsModel) -> Seq<char> {
    " ▸ "@ + options.baseline + " · "@ + scope::scope_label(options.scope)
        + "    [s] scope  [r] refresh  [j/k] scroll  [n/N] hunk "@
}

/// `s` in at most `width` characters: whole if it fits, else cut off with an
/// ellipsis as the last character.
pub open spec fn shortened(s: Seq<char>, width: int) -> Seq<char> {
    if width <= 0 {
        Seq::empty()
    } else if s.len() <= width {
        s
    } else {
        s.take(width - 1) + "…"@
    }
}

/// The colour for text on the accent colour.
pub open spec fn contrast(palette: Palette) -> Color {
    if palette.panel_bg == Color::Reset {
        palette.surface_dim
    } else {
        palette.panel_bg
    }
}

/// What to paint of `view` in these two areas.
pub open spec fn picture(
    view: ViewModel,
    palette: Palette,
    header_area: Area,
    body_area: Area,
) -> PictureModel {
    PictureModel {
        header_area,
        header: StyledModel {
            text: shortened(header_text(view.options), header_area.width as int),
            fg: contrast(palette),
            bg: Some(palette.accent),
            bold: true,
        },
        body_area,
        content: banners(view, palette) + styled_rows(view, palette),
        scroll: view.scroll,
    }
}

// ---------------------------------------------------------------------------
// Laws
// ---------------------------------------------------------------------------

/// A shortened text never exceeds the width, keeps what fits, and is an
/// unchanged prefix but for its last character otherwise.
pub proof fn lemma_shortened(s: Seq<char>, width: int)
    requires
        width >= 0,
    ensures
        shortened(s, width).len() <= width,
        s.len() <= width ==> shortened(s, width) == s,
        s.len() > width > 0 ==> shortened(s, width).len() == width && shortened(
            s,
            width,
        ).drop_last().is_prefix_of(s),
{
    reveal_strlit("…");
    if s.len() > width && width > 0 {
        assert(shortened(s, width).drop_last() =~= s.take(width - 1));
    }
    assert(s.len() <= width ==> shortened(s, width) =~= s);
}

/// The header is never written in the terminal's own colour, unless the theme
/// has nothing else to offer.
pub proof fn lemma_header_stands_out(palette: Palette)
    ensures
        contrast(palette) == Color::Reset ==> palette.panel_bg == Color::Reset
            && palette.surface_dim == Color::Reset,
        palette.panel_bg != Color::Reset ==> contrast(palette) == palette.panel_bg,
{
}

/// A text that is cut ends in an ellipsis.
pub proof fn lemma_cut_text_says_so(s: Seq<char>, width: int)
    requires
        0 < width < s.len(),
    ensures
        shortened(s, width) == s.take(width - 1) + seq!['…'],
        shortened(s, 0).len() == 0,
{
    reveal_strlit("…");
    assert("…"@ =~= seq!['…']);
}

/// Every row of the diff is shown with all its text, in the colour of its kind: file
/// headers blue and bold, hunk headers teal, added lines green, removed ones red, the
/// rest in the terminal's own colour, and the note on a binary file grey.
pub proof fn lemma_row_styles(view: ViewModel, palette: Palette, i: int)
    requires
        0 <= i < rows::rows(view.files).len(),
    ensures
        ({
            let row = rows::rows(view.files)[i];
            let shown = styled_rows(view, palette)[i];
            &&& shown.text == row.text
            &&& shown.bg is None
            &&& shown.bold <==> row.kind == RowKind::File
            &&& row.kind == RowKind::File ==> shown.fg == palette.blue
            &&& row.kind == RowKind::Hunk ==> shown.fg == palette.teal
            &&& row.kind == RowKind::Added ==> shown.fg == palette.green
            &&& row.kind == RowKind::Removed ==> shown.fg == palette.red
            &&& row.kind == RowKind::Context ==> shown.fg == Color::Reset
            &&& row.kind == RowKind::Binary ==> shown.fg == palette.overlay0
        }),
        styled_rows(view, palette).len() == rows::rows(view.files).len(),
{
}

/// The content begins with the error of the last run, in red, if there was one, and
/// then with the number of hidden lines, in yellow, if there are any; the rows of the
/// diff follow.
pub proof fn lemma_content(
    view: ViewModel,
    palette: Palette,
    header_area: Area,
    body_area: Area,
)
    ensures
        ({
            let content = picture(view, palette, header_area, body_area).content;
            let errors = if view.git_error is Some {
                1int
            } else {
                0int
            };
            let notes = if view.truncated > 0 {
                1int
            } else {
                0int
            };
            &&& content.len() == errors + notes + rows::rows(view.files).len()
            &&& view.git_error matches Some(message) ==> content[0] == (StyledModel {
                text: "git error: "@ + message,
                fg: palette.red,
                bg: None,
                bold: false,
            })
            &&& view.truncated > 0 ==> content[errors] == (StyledModel {
                text: "(truncated: showing first 50000 lines; "@ + text::decimal(
                    view.truncated as nat,
                ) + " hidden)"@,
                fg: palette.yellow,
                bg: None,
                bold: false,
            })
            &&& content.skip(errors + notes) == styled_rows(view, palette)
        }),
{
    let content = picture(view, palette, header_area, body_area).content;
    let above = banners(view, palette);
    assert(content.skip(above.len() as int) =~= styled_rows(view, palette));
    assert("(truncated: showing first "@ + text::decimal(MAX_DIFF_LINES as nat) + " lines; "@
        =~= "(truncated: showing first 50000 lines; "@) by {
        reveal_strlit("(truncated: showing first ");
        reveal_strlit(" lines; ");
        reveal_strlit("(truncated: showing first 50000 lines; ");
        reveal_with_fuel(text::decimal, 6);
        assert(text::decimal(50_000) =~= seq!['5', '0', '0', '0', '0']);
    }
}

/// The header names the baseline and the scope, each in full, and the keys; it is cut
/// to the width of its area and stands out in bold on the accent colour. The areas and
/// the first row in sight are those given.
pub proof fn lemma_header(view: ViewModel, palette: Palette, header_area: Area, body_area: Area)
    ensures
        ({
            let shown = picture(view, palette, header_area, body_area);
            let label = match view.options.scope {
                scope::DiffScope::All => "all"@,
                scope::DiffScope::Unstaged => "unstaged"@,
                scope::DiffScope::Staged => "staged"@,
                scope::DiffScope::Committed => "committed"@,
            };
            let whole = " ▸ "@ + view.options.baseline + " · "@ + label
                + "    [s] scope  [r] refresh  [j/k] scroll  [n/N] hunk "@;
            &&& whole.len() <= header_area.width ==> shown.header.text == whole
            &&& 0 < header_area.width < whole.len() ==> shown.header.text == whole.take(
                header_area.width - 1,
            ) + seq!['…']
            &&& header_area.width == 0 ==> shown.header.text.len() == 0
            &&& shown.header.bg == Some(palette.accent)
            &&& shown.header.bold
            &&& shown.header.fg == (if palette.panel_bg == Color::Reset {
                palette.surface_dim
            } else {
                palette.panel_bg
            })
            &&& shown.header_area == header_area
            &&& shown.body_area == body_area
            &&& shown.scroll == view.scroll
        }),
{
    reveal_strlit("…");
    assert("…"@ =~= seq!['…']);
    reveal_strlit(" ▸ ");
    assert(header_text(view.options).len() > 0);
}

/// The plain text of the rows is what the styled rows show, row for row; in the
/// painted content it follows the banners.
pub proof fn lemma_plain_text_is_what_is_shown(
    view: ViewModel,
    palette: Palette,
    header_area: Area,
    body_area: Area,
    i: int,
)
    requires
        0 <= i < row_texts(view).len(),
    ensures
        styled_rows(view, palette).len() == row_texts(view).len(),
        styled_rows(view, palette)[i].text == row_texts(view)[i],
        ({
            let content = picture(view, palette, header_area, body_area).content;
            let above = banners(view, palette).len();
            &&& content.len() == above + row_texts(view).len()
            &&& content[above + i].text == row_texts(view)[i]
        }),
{
}

/// A view that took its whole diff in without an error shows no banner.
pub proof fn lemma_no_banner(view: ViewModel, palette: Palette)
    requires
        view.git_error is None,
        view.truncated == 0,
    ensures
        banners(view, palette).len() == 0,
{
}

// ---------------------------------------------------------------------------
// Areas
// ---------------------------------------------------------------------------

/// How many rows of `area` lie within the coordinates that cells can have.
pub open spec fn row_count(area: Area) -> int {
    smaller(area.height as int, u16::MAX - area.y)
}

/// The first `n` rows of `area`, or all of them if there are fewer.
pub open spec fn top_rows(area: Area, n: u16) -> Area {
    Area { height: smaller(n as int, row_count(area)) as u16, ..area }
}

/// The rows of `area` below the first `n`.
pub open spec fn rows_below(area: Area, n: u16) -> Area {
    let above = smaller(n as int, row_count(area));
    Area { y: (area.y + above) as u16, height: (row_count(area) - above) as u16, ..area }
}

/// `Layout::areas` of ratatui on a vertical layout of a block of `length` rows
/// over one of at least `min` rows. Both blocks span the width of the area; where
/// it has the rows for both, or nothing is asked for the second, the first block
/// takes its length as far as there are rows, and the second the rest. How an
/// area that is too small for what is asked is divided is not stated.
#[verifier::external_body]
fn split_rows(area: Area, length: u16, min: u16) -> (parts: (Area, Area))
    ensures
        parts.0.x == area.x && parts.0.width == area.width,
        parts.1.x == area.x && parts.1.width == area.width,
        length + min <= row_count(area) || min == 0 ==> parts.0 == top_rows(area, length),
        length + min <= row_count(area) || min == 0 ==> parts.1 == rows_below(area, length),
{
    let Area { x, y, width, height } = area;
    let [top, rest] = ratatui::layout::Layout::vertical(
        [ratatui::layout::Constraint::Length(length), ratatui::layout::Constraint::Min(min)],
    ).areas(ratatui::layout::Rect { x, y, width, height });
    (
        Area { x: top.x, y: top.y, width: top.width, height: top.height },
        Area { x: rest.x, y: rest.y, width: rest.width, height: rest.height },
    )
}

/// Header and body divide the rows of an area between them: the header is on the
/// first row, and the body has all the rows below it.
pub proof fn lemma_header_over_body(area: Area)
    requires
        row_count(area) > 0,
    ensures
        top_rows(area, 1).y == area.y,
        top_rows(area, 1).height == 1,
        rows_below(area, 1).y == area.y + 1,
        rows_below(area, 1).y + rows_below(area, 1).height == area.y + row_count(area),
{
}

// ---------------------------------------------------------------------------
// Painting
// ---------------------------------------------------------------------------

pub fn header_contrast_fg(palette: &Palette) -> (color: Color)
    ensures
        color == contrast(*palette),
{
    match palette.panel_bg {
        Color::Reset => palette.surface_dim,
        color => color,
    }
}

pub fn truncate_to_width(text: &str, max_width: usize) -> (out: String)
    ensures
        out@ == shortened(text@, max_width as int),
{
    if max_width == 0 {
        return String::new();
    }
    let chars = text::chars_of(text);
    if chars.len() <= max_width {
        return String::from_str(text);
    }
    let mut out = text::string_of(vstd::slice::slice_subrange(chars.as_slice(), 0, max_width - 1));
    out.append("…");
    assert(out@ =~= shortened(text@, max_width as int));
    out
}

fn header_line(options: &DiffViewOptions) -> (out: String)
    ensures
        out@ == header_text(options@),
{
    let mut out = String::new();
    out.append(" ▸ ");
    out.append(options.baseline.as_str());
    out.append(" · ");
    out.append(options.scope.label());
    out.append("    [s] scope  [r] refresh  [j/k] scroll  [n/N] hunk ");
    assert(out@ =~= header_text(options@));
    out
}

fn style_row(row: &Row, palette: &Palette) -> (line: StyledLine)
    ensures
        line.deep_view() == styled_row(row.deep_view(), *palette),
{
    let fg = match row.kind {
        RowKind::File => palette.blue,
        RowKind::Hunk => palette.teal,
        RowKind::Added => palette.green,
        RowKind::Removed => palette.red,
        RowKind::Context => Color::Reset,
        RowKind::Binary => palette.overlay0,
    };
    StyledLine { text: row.text.clone(), fg, bg: None, bold: row.kind == RowKind::File }
}

fn push_line(out: &mut Vec<StyledLine>, line: StyledLine)
    ensures
        final(out).deep_view() == old(out).deep_view().push(line.deep_view()),
{
    let ghost before = out.deep_view();
    out.push(line);
    assert(out.deep_view() =~= before.push(line.deep_view()));
}

impl DiffView {
    /// The rows of the diff, each in its colour.
    pub fn render_lines(&self, palette: &Palette) -> (lines: Vec<StyledLine>)
        ensures
            lines.deep_view() == styled_rows(self@, *palette),
    {
        let mut lines: Vec<StyledLine> = Vec::new();
        self.push_rows(&mut lines, palette);
        assert(lines.deep_view() =~= styled_rows(self@, *palette));
        lines
    }

    /// Appends the rows of the diff to `out`.
    fn push_rows(&self, out: &mut Vec<StyledLine>, palette: &Palette)
        ensures
            final(out).deep_view() == old(out).deep_view() + styled_rows(self@, *palette),
    {
        let all = rows::list_rows(self.files());
        let ghost before = out.deep_view();
        let ghost styled = styled_rows(self@, *palette);
        assert(before + styled.take(0) =~= before);
        for i in 0..all.len()
            invariant
                all.deep_view() == rows::rows(self@.files),
                styled == styled_rows(self@, *palette),
                out.deep_view() == before + styled.take(i as int),
        {
            assert(all.deep_view()[i as int] == all@[i as int].deep_view());
            push_line(out, style_row(&all[i], palette));
            assert(out.deep_view() =~= before + styled.take(i + 1));
        }
        assert(styled.take(all@.len() as int) =~= styled);
    }

    /// The rows of the diff as plain text, with the sign of each line included,
    /// so that selection extraction reads exactly what the user sees.
    pub fn plain_lines(&self) -> (lines: Vec<String>)
        ensures
            lines.deep_view() == row_texts(self@),
    {
        let all = rows::list_rows(self.files());
        let mut lines: Vec<String> = Vec::new();
        assert(lines.deep_view() =~= row_texts(self@).take(0));
        for i in 0..all.len()
            invariant
                all.deep_view() == rows::rows(self@.files),
                lines.deep_view() == row_texts(self@).take(i as int),
        {
            let ghost before = lines.deep_view();
            let line = all[i].text.clone();
            assert(all.deep_view()[i as int].text == line@);
            lines.push(line);
            assert(lines.deep_view() =~= before.push(line@));
            assert(lines.deep_view() =~= row_texts(self@).take(i + 1));
        }
        assert(row_texts(self@).take(all@.len() as int) =~= row_texts(self@));
        lines
    }

    /// What to paint in `area`: nothing if it has no cells, else a header line
    /// over the content.
    pub fn render(&self, area: Area, _focused: bool, palette: &Palette) -> (out: Option<Picture>)
        ensures
            out is None <==> area.width == 0 || area.height == 0,
            out matches Some(p) ==> p.deep_view() == picture(
                self@,
                *palette,
                top_rows(area, 1),
                rows_below(area, 1),
            ),
    {
        if area.width == 0 || area.height == 0 {
            return None;
        }
        let (header_area, body_area) = split_rows(area, 1, 0);
        Some(self.compose(header_area, body_area, palette))
    }

    /// What to paint in these two areas.
    pub fn compose(&self, header_area: Area, body_area: Area, palette: &Palette) -> (out: Picture)
        ensures
            out.deep_view() == picture(self@, *palette, header_area, body_area),
    {
        let title = header_line(self.options());
        let header = StyledLine {
            text: truncate_to_width(title.as_str(), header_area.width as usize),
            fg: header_contrast_fg(palette),
            bg: Some(palette.accent),
            bold: true,
        };
        let mut content: Vec<StyledLine> = Vec::new();
        assert(content.deep_view() =~= Seq::<StyledModel>::empty());
        if let Some(message) = self.git_error() {
            let text = String::from_str("git error: ").concat(message.as_str());
            push_line(&mut content, StyledLine { text, fg: palette.red, bg: None, bold: false });
        }
        let hidden: usize = self.truncated_lines();
        if hidden > 0 {
            let mut text = String::from_str("(truncated: showing first ");
            text::push_decimal(&mut text, MAX_DIFF_LINES as u64);
            text.append(" lines; ");
            text::push_decimal(&mut text, hidden as u64);
            text.append(" hidden)");
            push_line(&mut content, StyledLine { text, fg: palette.yellow, bg: None, bold: false });
        }
        assert(content.deep_view() =~= banners(self@, *palette));
        self.push_rows(&mut content, palette);
        Picture { header_area, header, body_area, content, scroll: self.scroll_offset() }
    }
}

} // verus!
