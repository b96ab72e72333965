//! Styled text, and fitting text into columns.

use vstd::prelude::*;
use crate::text::views;

verus! {

/// The colours in use. `Unset` is whatever the terminal shows.
#[derive(Debug, Clone, Copy, PartialEq, Eq, Structural)]
pub enum Color {
    Unset,
    Black,
    Cyan,
    DarkGray,
    Green,
    Red,
    Yellow,
}

/// How a piece of text is drawn.
#[derive(Debug, Clone, Copy, PartialEq, Eq, Structural)]
pub struct Style {
    pub fg: Color,
    pub bg: Color,
    pub bold: bool,
}

/// Text in a colour.
pub open spec fn tint(fg: Color) -> Style {
    Style { fg, bg: Color::Unset, bold: false }
}

/// How the row under the cursor is drawn.
pub open spec fn highlight() -> Style {
    Style { fg: Color::Black, bg: Color::Cyan, bold: true }
}

impl Style {
    /// Text in a colour.
    pub fn of(fg: Color) -> (r: Style)
        ensures
            r == tint(fg),
    {
        Style { fg, bg: Color::Unset, bold: false }
    }

    /// How the row under the cursor is drawn.
    pub fn highlighted() -> (r: Style)
        ensures
            r == highlight(),
    {
        Style { fg: Color::Black, bg: Color::Cyan, bold: true }
    }
}

/// A piece of text in one style.
#[derive(Debug, Clone)]
pub struct Span {
    pub text: String,
    pub style: Style,
}

/// What a [`Span`] says.
#[verifier::ext_equal]
pub struct SpanView {
    pub text: Seq<char>,
    pub style: Style,
}

impl View for Span {
    type V = SpanView;

    open spec fn view(&self) -> SpanView {
        SpanView { text: self.text@, style: self.style }
    }
}

impl Span {
    pub fn new(text: String, style: Style) -> (r: Span)
        ensures
            r@ == (SpanView { text: text@, style }),
    {
        Span { text, style }
    }
}

/// A line of text in several styles.
#[derive(Debug, Clone)]
pub struct Row {
    pub spans: Vec<Span>,
}

impl View for Row {
    type V = Seq<SpanView>;

    open spec fn view(&self) -> Seq<SpanView> {
        views(self.spans@)
    }
}

/// A line in one colour.
pub open spec fn line_in(text: Seq<char>, fg: Color) -> Seq<SpanView> {
    seq![SpanView { text, style: tint(fg) }]
}

impl Row {
    /// A line in one colour.
    pub fn tinted(text: String, fg: Color) -> (r: Row)
        ensures
            r@ == line_in(text@, fg),
    {
        let mut spans: Vec<Span> = Vec::new();
        spans.push(Span::new(text, Style::of(fg)));
        let r: Row = Row { spans };
        assert(r@ =~= line_in(text@, fg));
        r
    }

    /// A line in two styles.
    pub fn two(a: Span, b: Span) -> (r: Row)
        ensures
            r@ == seq![a@, b@],
    {
        let mut spans: Vec<Span> = Vec::new();
        spans.push(a);
        spans.push(b);
        let r: Row = Row { spans };
        assert(r@ =~= seq![a@, b@]);
        r
    }

    /// A line in three styles.
    pub fn three(a: Span, b: Span, c: Span) -> (r: Row)
        ensures
            r@ == seq![a@, b@, c@],
    {
        let mut spans: Vec<Span> = Vec::new();
        spans.push(a);
        spans.push(b);
        spans.push(c);
        let r: Row = Row { spans };
        assert(r@ =~= seq![a@, b@, c@]);
        r
    }
}

/// A row of a list, drawn in one style.
#[derive(Debug, Clone)]
pub struct ListRow {
    pub text: String,
    pub style: Style,
    /// The cursor is on it.
    pub selected: bool,
}

/// What a [`ListRow`] says.
#[verifier::ext_equal]
pub struct ListRowView {
    pub text: Seq<char>,
    pub style: Style,
    pub selected: bool,
}

impl View for ListRow {
    type V = ListRowView;

    open spec fn view(&self) -> ListRowView {
        ListRowView { text: self.text@, style: self.style, selected: self.selected }
    }
}

/// `n` spaces.
pub open spec fn spaces(n: int) -> Seq<char> {
    Seq::new(
        if n > 0 {
            n as nat
        } else {
            0
        },
        |i: int| ' ',
    )
}

/// `s` filled up with spaces to `width` characters.
pub open spec fn padded(s: Seq<char>, width: int) -> Seq<char> {
    s + spaces(width - s.len())
}

/// `s` cut down to `width` characters, the last of which then says so.
pub open spec fn cut(s: Seq<char>, width: int) -> Seq<char> {
    if s.len() <= width {
        s
    } else {
        s.take(if width > 0 {
            width - 1
        } else {
            0
        }) + "…"@
    }
}

/// `s` filled up with spaces to `width` characters.
pub fn pad(s: &str, width: usize) -> (r: String)
    ensures
        r@ == padded(s@, width as int),
{
    let mut out: String = s.to_owned();
    let n: usize = s.unicode_len();
    let mut i: usize = n;
    assert(out@ =~= s@ + spaces(0));
    while i < width
        invariant
            n == s@.len(),
            n <= i,
            i <= width || i == n,
            out@ == s@ + spaces(i - n),
        decreases width - i,
    {
        out.push(' ');
        i += 1;
        assert(out@ =~= s@ + spaces(i - n));
    }
    assert(spaces(i - n) =~= spaces(width - n));
    out
}

/// `text` cut down to `width` characters.
pub fn truncate(text: &str, width: usize) -> (r: String)
    ensures
        r@ == cut(text@, width as int),
{
    let n: usize = text.unicode_len();
    if n <= width {
        return text.to_owned();
    }
    let keep: usize = if width > 0 {
        width - 1
    } else {
        0
    };
    let mut out: String = text.substring_char(0, keep).to_owned();
    assert(out@ =~= text@.take(keep as int));
    out.append("…");
    out
}

/// What is left of `width` beside `taken` characters.
pub open spec fn room(width: int, taken: int) -> int {
    if width > taken {
        width - taken
    } else {
        0
    }
}

/// `marker + alias ... note` with the note flush against the right edge. A
/// narrow pane eats into the alias rather than the note.
pub open spec fn row_of_host(
    marker: Seq<char>,
    alias: Seq<char>,
    note: Seq<char>,
    width: int,
) -> Seq<char> {
    let shown = cut(alias, room(width, (marker.len() + note.len() + 1) as int));
    marker + shown + spaces(room(width, (marker.len() + shown.len() + note.len()) as int)) + note
}

fn left_of(width: usize, taken: usize) -> (r: usize)
    ensures
        r == room(width as int, taken as int),
{
    if width > taken {
        width - taken
    } else {
        0
    }
}

/// Lay out `marker + alias ... note` with the note flush against the right edge.
/// The note is what the pane exists to surface (`dead: line 60`, `via bastion`),
/// so a narrow terminal eats into the alias rather than truncating the note.
/// All is counted in characters, the marker too: counted in bytes, a marker beyond
/// ASCII would keep the note off the edge.
pub fn row_text(marker: &str, alias: &str, note: &str, width: usize) -> (r: String)
    ensures
        r@ == row_of_host(marker@, alias@, note@, width as int),
{
    let m: usize = marker.unicode_len();
    let n: usize = note.unicode_len();
    let shown: String = truncate(alias, left_of(left_of(left_of(width, m), n), 1));
    let k: usize = shown.as_str().unicode_len();
    let gap: usize = left_of(left_of(left_of(width, m), k), n);
    let mut out: String = marker.to_owned();
    out.append(shown.as_str());
    out.append(pad("", gap).as_str());
    proof {
        reveal_strlit("");
        assert(padded(""@, gap as int) =~= spaces(gap as int));
    }
    out.append(note);
    out
}

/// The column that states of rules are aligned in, where there is room for it.
pub const STATUS_COLUMN: usize = 44;

/// The column that a state of `len` characters starts in: further to the left
/// in a narrow pane, so that it is not cut off.
pub open spec fn status_column(len: int, width: int) -> int {
    if room(width, len) < STATUS_COLUMN {
        room(width, len)
    } else {
        STATUS_COLUMN as int
    }
}

/// `left`, and `right` in the column of states.
pub open spec fn aligned(left: Seq<char>, right: Seq<char>, width: int) -> Seq<char> {
    let column = status_column(right.len() as int, width);
    padded(cut(left, room(column, 1)), column) + right
}

/// `left`, and `right` in the column of states.
pub fn align(left: &str, right: &str, width: usize) -> (r: String)
    ensures
        r@ == aligned(left@, right@, width as int),
{
    let n: usize = right.unicode_len();
    let free: usize = left_of(width, n);
    let column: usize = if free < STATUS_COLUMN {
        free
    } else {
        STATUS_COLUMN
    };
    let mut out: String = pad(truncate(left, left_of(column, 1)).as_str(), column);
    out.append(right);
    out
}

/// The note of a row is never cut: it stands whole at the end of the row, and
/// where there is room for marker, note and one character the row fills the width.
pub proof fn law_note_survives(
    marker: Seq<char>,
    alias: Seq<char>,
    note: Seq<char>,
    width: int,
)
    requires
        0 <= width,
    ensures
        ({
            let row = row_of_host(marker, alias, note, width);
            &&& row.len() >= note.len()
            &&& row.skip(row.len() - note.len()) == note
            &&& marker.len() + note.len() + 1 <= width ==> row.len() == width
        }),
{
    let row = row_of_host(marker, alias, note, width);
    reveal_strlit("…");
    assert(row.skip(row.len() - note.len()) =~= note);
}

/// A text that is cut is no longer than the width it was cut to, if there is
/// any width at all.
pub proof fn law_cut_fits(s: Seq<char>, width: int)
    requires
        1 <= width,
    ensures
        cut(s, width).len() <= width,
        s.len() <= width ==> cut(s, width) == s,
{
    reveal_strlit("…");
}

} // verus!
