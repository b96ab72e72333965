//! The editor of one form field: a text box, or a list to pick from.

use vstd::prelude::*;
use tui_textarea::{Input, Key};
use crate::key::{KeyCode, KeyEvent};
use crate::find::{find_char, lemma_first_of};
use crate::text::{chars, lemma_views_push, same, views, white};

verus! {

/// A text area of `tui_textarea`.
#[verifier::external_body]
pub struct Area {
    area: tui_textarea::TextArea<'static>,
}

/// A text, and where the caret stands in it: the row, and the number of
/// characters before it.
#[verifier::ext_equal]
pub struct Page {
    pub lines: Seq<Seq<char>>,
    pub cursor: (int, int),
}

/// A change that can be undone and made again.
#[verifier::ext_equal]
pub struct Step {
    pub before: Page,
    pub after: Page,
}

/// What a text area holds.
#[verifier::ext_equal]
pub struct AreaView {
    pub lines: Seq<Seq<char>>,
    /// Where the caret stands: the row, and the number of characters before it.
    pub cursor: (int, int),
    /// Where a selection was begun.
    pub selection: Option<(int, int)>,
    /// What a paste puts in: one piece, or several lines.
    pub yank: Seq<Seq<char>>,
    /// The changes that are remembered, the oldest first.
    pub steps: Seq<Step>,
    /// How many of them are in the text now; the others were undone.
    pub at: int,
    /// Whether the area was made on a text that holds a line break.
    pub broken: bool,
}

/// What `area` holds.
pub uninterp spec fn area_view(area: Area) -> AreaView;

/// What a text area that held `was` holds after a key.
pub uninterp spec fn area_after(was: AreaView, key: KeyEvent) -> AreaView;

impl AreaView {
    /// The caret stands inside one of the lines.
    pub open spec fn inside(self) -> bool {
        &&& 0 <= self.cursor.0 < self.lines.len()
        &&& 0 <= self.cursor.1 <= self.lines[self.cursor.0].len()
    }

    /// No selection, and the caret inside one of the lines.
    pub open spec fn settled(self) -> bool {
        self.selection is None && self.inside()
    }

    /// With the caret moved. With `shift` held a selection is begun, or goes on;
    /// without it there is none any more.
    pub open spec fn moved(self, to: (int, int), shift: bool) -> AreaView {
        AreaView {
            cursor: to,
            selection: if !shift {
                None
            } else if self.selection is Some {
                self.selection
            } else {
                Some(self.cursor)
            },
            ..self
        }
    }

    /// The place in a row that is as far to the right as the caret, or the end
    /// of the row.
    pub open spec fn level(self, row: int) -> (int, int) {
        let len = self.lines[row].len() as int;
        (
            row,
            if self.cursor.1 < len {
                self.cursor.1
            } else {
                len
            },
        )
    }

    /// With the caret elsewhere in its row.
    pub open spec fn with_caret(self, col: int) -> AreaView {
        AreaView { cursor: (self.cursor.0, col), ..self }
    }

    /// The text, with the caret in column `col` of its row.
    pub open spec fn page(self, col: int) -> Page {
        Page { lines: self.lines, cursor: (self.cursor.0, col) }
    }

    /// The text with `line` in the row of the caret, and the caret in its column
    /// `col`.
    pub open spec fn rewritten(self, line: Seq<char>, col: int) -> Page {
        Page { lines: self.lines.update(self.cursor.0, line), cursor: (self.cursor.0, col) }
    }

    /// The text with `c` typed at the caret.
    pub open spec fn typed(self, c: char) -> Page {
        let (row, col) = self.cursor;
        self.rewritten(self.lines[row].insert(col, c), col + 1)
    }

    /// The text with the character before the caret deleted.
    pub open spec fn erased(self) -> Page {
        let (row, col) = self.cursor;
        self.rewritten(self.lines[row].remove(col - 1), col - 1)
    }

    /// At the page `p`, with `at` of the remembered changes in the text.
    pub open spec fn turned_to(self, p: Page, at: int) -> AreaView {
        AreaView { lines: p.lines, cursor: p.cursor, selection: None, at, ..self }
    }
}

/// A text area that holds one line, with the caret at its end.
pub open spec fn line_box(value: Seq<char>) -> AreaView {
    AreaView {
        lines: seq![value],
        cursor: (0, value.len() as int),
        selection: None,
        yank: seq![Seq::empty()],
        steps: Seq::empty(),
        at: 0,
        broken: value.contains('\n'),
    }
}

/// The kinds of characters that words are told apart by.
pub enum Glyph {
    Space,
    Punct,
    Other,
}

/// The kind of `c`.
pub open spec fn glyph(c: char) -> Glyph {
    let n = c as u32;
    if white(c) {
        Glyph::Space
    } else if 0x21 <= n <= 0x2f || 0x3a <= n <= 0x40 || 0x5b <= n <= 0x60 || 0x7b <= n <= 0x7e {
        Glyph::Punct
    } else {
        Glyph::Other
    }
}

/// Where the last word of `s` begins: at the last character that is no space and
/// of another kind than the one before it, or at the start.
pub open spec fn word_start(s: Seq<char>) -> int
    decreases s.len(),
{
    if s.len() <= 1 {
        0
    } else if glyph(s.last()) != Glyph::Space && glyph(s[s.len() - 2]) != glyph(s.last()) {
        s.len() - 1
    } else {
        word_start(s.drop_last())
    }
}

/// What a key means in a text area.
pub enum Stroke {
    Type(char),
    Erase,
    Delete,
    CutTail,
    CutHead,
    CutWord,
    Left,
    Right,
    Up,
    Down,
    Head,
    End,
    Top,
    Bottom,
    Undo,
    Redo,
    Paste,
    /// Any other key.
    Other,
}

/// What `key` means in a text area.
pub open spec fn stroke(key: KeyEvent) -> Stroke {
    let plain = !key.ctrl && !key.alt;
    let ctrl = key.ctrl && !key.alt;
    let alt = !key.ctrl && key.alt;
    let both = key.ctrl && key.alt;
    match key.code {
        KeyCode::Char(c) => if plain && c != '\n' && c != '\r' {
            Stroke::Type(c)
        } else if ctrl && c == 'h' {
            Stroke::Erase
        } else if ctrl && c == 'd' {
            Stroke::Delete
        } else if ctrl && c == 'k' {
            Stroke::CutTail
        } else if ctrl && c == 'j' {
            Stroke::CutHead
        } else if ctrl && c == 'w' || alt && c == 'h' {
            Stroke::CutWord
        } else if ctrl && c == 'b' {
            Stroke::Left
        } else if ctrl && c == 'f' {
            Stroke::Right
        } else if ctrl && c == 'p' {
            Stroke::Up
        } else if ctrl && c == 'n' {
            Stroke::Down
        } else if alt && c == '<' || both && c == 'p' {
            Stroke::Top
        } else if alt && c == '>' || both && c == 'n' {
            Stroke::Bottom
        } else if ctrl && c == 'a' || both && c == 'b' {
            Stroke::Head
        } else if ctrl && c == 'e' || both && c == 'f' {
            Stroke::End
        } else if ctrl && c == 'u' {
            Stroke::Undo
        } else if ctrl && c == 'r' {
            Stroke::Redo
        } else if ctrl && c == 'y' {
            Stroke::Paste
        } else {
            Stroke::Other
        },
        KeyCode::Backspace => if plain {
            Stroke::Erase
        } else if alt {
            Stroke::CutWord
        } else {
            Stroke::Other
        },
        KeyCode::Delete => if plain {
            Stroke::Delete
        } else {
            Stroke::Other
        },
        KeyCode::Left => if plain {
            Stroke::Left
        } else if both {
            Stroke::Head
        } else {
            Stroke::Other
        },
        KeyCode::Right => if plain {
            Stroke::Right
        } else if both {
            Stroke::End
        } else {
            Stroke::Other
        },
        KeyCode::Up => if plain {
            Stroke::Up
        } else if both {
            Stroke::Top
        } else {
            Stroke::Other
        },
        KeyCode::Down => if plain {
            Stroke::Down
        } else if both {
            Stroke::Bottom
        } else {
            Stroke::Other
        },
        KeyCode::Home => Stroke::Head,
        KeyCode::End => Stroke::End,
        _ => Stroke::Other,
    }
}

/// How many changes a text area remembers.
pub const MEMORY: usize = 50;

/// The text turned from one page into another, which can be undone. While the
/// memory is not full, every earlier change that is in the text stays in it.
pub open spec fn changed(
    was: AreaView,
    before: Page,
    after: Page,
    yank: Seq<Seq<char>>,
    now: AreaView,
) -> bool {
    let step = Step { before, after };
    &&& now.lines == after.lines
    &&& now.cursor == after.cursor
    &&& now.selection is None
    &&& now.yank == yank
    &&& now.broken == was.broken
    &&& now.at == now.steps.len() > 0
    &&& now.steps.last() == step
    &&& was.steps.len() < MEMORY ==> now.steps == was.steps.take(was.at).push(step)
}

/// A text area held `was`, the key was pressed, and it holds `now`. This says
/// what typing and correcting do while nothing is selected, and what moving and
/// undoing do at any time.
pub open spec fn area_fed(was: AreaView, key: KeyEvent, now: AreaView) -> bool {
    let (row, col) = was.cursor;
    let line = was.lines[row];
    let len = line.len() as int;
    let first = row == 0 && col == 0;
    let last = row == was.lines.len() - 1 && col == len;
    match stroke(key) {
        Stroke::Type(c) => was.settled() ==> changed(
            was,
            was.page(col),
            was.typed(c),
            was.yank,
            now,
        ),
        Stroke::Erase => was.settled() ==> {
            &&& col > 0 ==> changed(was, was.page(col), was.erased(), was.yank, now)
            &&& first ==> now == was
        },
        Stroke::Delete => was.settled() ==> {
            &&& col < len ==> changed(
                was,
                was.page(col + 1),
                was.rewritten(line.remove(col), col),
                was.yank,
                now,
            )
            &&& last ==> now == was
        },
        Stroke::CutTail => was.settled() ==> {
            &&& col < len ==> changed(
                was,
                was.page(len),
                was.rewritten(line.take(col), col),
                seq![line.skip(col)],
                now,
            )
            &&& last ==> now == was
        },
        Stroke::CutHead => was.settled() ==> {
            &&& col > 0 ==> changed(
                was,
                was.page(col),
                was.rewritten(line.skip(col), 0),
                seq![line.take(col)],
                now,
            )
            &&& first ==> now == was
        },
        Stroke::CutWord => was.settled() ==> {
            let from = word_start(line.take(col));
            &&& col > 0 ==> changed(
                was,
                was.page(col),
                was.rewritten(line.take(from) + line.skip(col), from),
                seq![line.subrange(from, col)],
                now,
            )
            &&& first ==> now == was
        },
        Stroke::Left => was.inside() ==> now == (if col > 0 {
            was.moved((row, col - 1), key.shift)
        } else if row > 0 {
            was.moved((row - 1, was.lines[row - 1].len() as int), key.shift)
        } else {
            was
        }),
        Stroke::Right => was.inside() ==> now == (if col < len {
            was.moved((row, col + 1), key.shift)
        } else if row + 1 < was.lines.len() {
            was.moved((row + 1, 0), key.shift)
        } else {
            was
        }),
        Stroke::Up => was.inside() ==> now == (if row > 0 {
            was.moved(was.level(row - 1), key.shift)
        } else {
            was
        }),
        Stroke::Down => was.inside() ==> now == (if row + 1 < was.lines.len() {
            was.moved(was.level(row + 1), key.shift)
        } else {
            was
        }),
        Stroke::Head => was.inside() ==> now == was.moved((row, 0), key.shift),
        Stroke::End => was.inside() ==> now == was.moved((row, len), key.shift),
        Stroke::Top => was.inside() ==> now == was.moved(was.level(0), key.shift),
        Stroke::Bottom => was.inside() ==> now == was.moved(
            was.level(was.lines.len() - 1),
            key.shift,
        ),
        Stroke::Undo => {
            &&& 0 < was.at <= was.steps.len() ==> now == was.turned_to(
                was.steps[was.at - 1].before,
                was.at - 1,
            )
            &&& was.at == 0 ==> now == was
        },
        Stroke::Redo => {
            &&& 0 <= was.at < was.steps.len() ==> now == was.turned_to(
                was.steps[was.at].after,
                was.at + 1,
            )
            &&& was.at == was.steps.len() ==> now == was
        },
        Stroke::Paste => was.settled() && was.yank.len() == 1 ==> {
            let piece = was.yank[0];
            &&& piece.len() > 0 ==> changed(
                was,
                was.page(col),
                was.rewritten(line.take(col) + piece + line.skip(col), col + piece.len()),
                was.yank,
                now,
            )
            &&& piece.len() == 0 ==> now == was
        },
        Stroke::Other => true,
    }
}

/// Two places, the one that comes first in the text before the other.
pub open spec fn span(a: (int, int), b: (int, int)) -> ((int, int), (int, int)) {
    if a.0 > b.0 || (a.0 == b.0 && a.1 > b.1) {
        (b, a)
    } else {
        (a, b)
    }
}

/// Calls `tui_textarea::TextArea::new`. An area made from one line holds that
/// line, with the caret at its start, nothing selected, nothing to paste and
/// nothing to undo.
#[verifier::external_body]
fn new_area(line: String) -> (r: Area)
    ensures
        area_view(r) == line_box(line@).with_caret(0),
{
    Area { area: tui_textarea::TextArea::new(vec![line]) }
}

/// Calls `tui_textarea::TextArea::move_cursor` with `CursorMove::End`. The caret
/// goes behind the last character of its row; everything else stays.
#[verifier::external_body]
fn move_to_end(area: &mut Area)
    requires
        0 <= area_view(*old(area)).cursor.0 < area_view(*old(area)).lines.len(),
    ensures
        area_view(*final(area)) == area_view(*old(area)).with_caret(
            area_view(*old(area)).lines[area_view(*old(area)).cursor.0].len() as int,
        ),
{
    area.area.move_cursor(tui_textarea::CursorMove::End);
}

/// Calls `tui_textarea::TextArea::lines`, which hands out the lines that the
/// area holds. There is always at least one.
#[verifier::external_body]
fn lines_in(area: &Area) -> (r: Vec<String>)
    ensures
        views(r@) == area_view(*area).lines,
        r@.len() > 0,
{
    area.area.lines().to_vec()
}

/// Calls `tui_textarea::TextArea::cursor`, which tells where the caret stands.
#[verifier::external_body]
fn caret_in(area: &Area) -> (r: (usize, usize))
    ensures
        (r.0 as int, r.1 as int) == area_view(*area).cursor,
{
    area.area.cursor()
}

/// Calls `tui_textarea::TextArea::selection_range`, which tells what is selected:
/// from the place that comes first, the one where the selection was begun or the
/// caret, to the other.
#[verifier::external_body]
fn selection_in(area: &Area) -> (r: Option<((usize, usize), (usize, usize))>)
    ensures
        match area_view(*area).selection {
            None => r is None,
            Some(begun) => r is Some && ({
                let (from, to) = span(begun, area_view(*area).cursor);
                &&& ((r->0).0.0 as int, (r->0).0.1 as int) == from
                &&& ((r->0).1.0 as int, (r->0).1.1 as int) == to
            }),
        },
{
    area.area.selection_range()
}

/// Calls `tui_textarea::TextArea::input`. What the area holds afterwards depends
/// on what it held and on the key alone: an [`Area`] is never drawn, so it has no
/// viewport that a page key could go by. `area_fed` says what the keys do that
/// type, correct, undo and move by a character, a line or to an end; of the other
/// shortcuts nothing more is said. An area that was made on a text with a line break may have cut one
/// out, and takes it for a fault to paste that as a piece of a line: on such an
/// area the key that pastes is left out. On what is left the call does not panic.
#[verifier::external_body]
fn input(area: &mut Area, key: &KeyEvent)
    requires
        area_view(*old(area)).broken ==> stroke(*key) != Stroke::Paste,
    ensures
        area_view(*final(area)) == area_after(area_view(*old(area)), *key),
        area_fed(area_view(*old(area)), *key, area_view(*final(area))),
        area_view(*final(area)).broken == area_view(*old(area)).broken,
    no_unwind
{
    let key_pressed = match key.code {
        KeyCode::Char(c) => Key::Char(c),
        KeyCode::Backspace => Key::Backspace,
        KeyCode::Enter => Key::Enter,
        KeyCode::Tab => Key::Tab,
        KeyCode::Delete => Key::Delete,
        KeyCode::Left => Key::Left, KeyCode::Right => Key::Right,
        KeyCode::Up => Key::Up, KeyCode::Down => Key::Down,
        KeyCode::Home => Key::Home, KeyCode::End => Key::End,
        KeyCode::PageUp => Key::PageUp, KeyCode::PageDown => Key::PageDown,
        _ => Key::Null,
    };
    area.area.input(Input { key: key_pressed, ctrl: key.ctrl, alt: key.alt, shift: key.shift });
}

/// The characters that can stand for a line break in a text area. All are white
/// space, as a line break is, and the first cannot be typed into one.
pub open spec fn stand_in(i: int) -> char {
    if i == 0 {
        '\r'
    } else if i == 1 {
        '\u{85}'
    } else if i == 2 {
        '\u{2028}'
    } else if i == 3 {
        '\u{2029}'
    } else if i == 4 {
        '\u{b}'
    } else {
        '\u{c}'
    }
}

/// How many characters can stand for a line break.
pub const STAND_INS: usize = 6;

fn nth_stand_in(i: usize) -> (r: char)
    ensures
        r == stand_in(i as int),
{
    if i == 0 {
        '\r'
    } else if i == 1 {
        '\u{85}'
    } else if i == 2 {
        '\u{2028}'
    } else if i == 3 {
        '\u{2029}'
    } else if i == 4 {
        '\u{b}'
    } else {
        '\u{c}'
    }
}

/// The first of these characters, from the `i`-th on, that is not in `s`; the
/// line break itself if there is none.
pub open spec fn free_from(s: Seq<char>, i: int) -> char
    decreases STAND_INS - i,
{
    if i >= STAND_INS {
        '\n'
    } else if !s.contains(stand_in(i)) {
        stand_in(i)
    } else {
        free_from(s, i + 1)
    }
}

/// What stands for a line break in a text area on `s`: the line break itself
/// where there is none in `s`.
pub open spec fn mark_for(s: Seq<char>) -> char {
    if s.contains('\n') {
        free_from(s, 0)
    } else {
        '\n'
    }
}

/// `s` with every `from` turned into `to`.
pub open spec fn turned(s: Seq<char>, from: char, to: char) -> Seq<char> {
    Seq::new(
        s.len(),
        |i: int|
            if s[i] == from {
                to
            } else {
                s[i]
            },
    )
}

/// What a text box holds. A text area takes a line break inside a line for a
/// fault once it is to paste it, so another character stands for it there.
#[verifier::ext_equal]
pub struct BoxView {
    pub area: AreaView,
    /// What stands for a line break.
    pub mark: char,
}

impl BoxView {
    /// The lines that are shown.
    pub open spec fn lines(self) -> Seq<Seq<char>> {
        Seq::new(self.area.lines.len(), |i: int| turned(self.area.lines[i], self.mark, '\n'))
    }
}

/// A text box on `value`, with the caret at its end.
pub open spec fn field_box(value: Seq<char>) -> BoxView {
    let mark = mark_for(value);
    BoxView { area: line_box(turned(value, '\n', mark)), mark }
}

fn holds_char(s: &str, c: char) -> (r: bool)
    ensures
        r == s@.contains(c),
{
    let cs: Vec<char> = chars(s);
    let r: bool = find_char(cs.as_slice(), c).is_some();
    proof {
        lemma_first_of(s@, c, 0);
        if !r && s@.contains(c) {
            let i = choose|i: int| 0 <= i < s@.len() && s@[i] == c;
            assert(s@[i] != c);
        }
    }
    r
}

fn find_mark(s: &str) -> (r: char)
    ensures
        r == mark_for(s@),
{
    if !holds_char(s, '\n') {
        return '\n';
    }
    let mut i: usize = 0;
    while i < STAND_INS
        invariant
            i <= STAND_INS,
            s@.contains('\n'),
            free_from(s@, 0) == free_from(s@, i as int),
        decreases STAND_INS - i,
    {
        let c: char = nth_stand_in(i);
        if !holds_char(s, c) {
            return c;
        }
        i += 1;
    }
    '\n'
}

fn turn(s: &str, from: char, to: char) -> (r: String)
    ensures
        r@ == turned(s@, from, to),
{
    let cs: Vec<char> = chars(s);
    let mut out: String = String::new();
    let mut i: usize = 0;
    while i < cs.len()
        invariant
            cs@ == s@,
            i <= cs@.len(),
            out@ == turned(s@.take(i as int), from, to),
        decreases cs@.len() - i,
    {
        out.push(
            if cs[i] == from {
                to
            } else {
                cs[i]
            },
        );
        i += 1;
        assert(out@ =~= turned(s@.take(i as int), from, to));
    }
    assert(s@.take(i as int) =~= s@);
    out
}

/// The text box of a field.
pub struct TextBox {
    area: Area,
    mark: char,
    /// Whether a line break is left in the text that the area was made on.
    broken: bool,
}

impl View for TextBox {
    type V = BoxView;

    closed spec fn view(&self) -> BoxView {
        BoxView { area: area_view(self.area), mark: self.mark }
    }
}

/// A key that goes a page down. A text box is one row high, so a page is a row.
pub open spec fn pages_down(key: KeyEvent) -> bool {
    ||| key.code == KeyCode::PageDown
    ||| key.code == KeyCode::Char('v') && key.ctrl && !key.alt
}

/// A key that goes a page up.
pub open spec fn pages_up(key: KeyEvent) -> bool {
    ||| key.code == KeyCode::PageUp
    ||| key.code == KeyCode::Char('v') && !key.ctrl && key.alt
}

/// The key that the text area of a box is given. Paging goes a row up or down, and
/// at the first or last row it leaves the caret where it is.
pub open spec fn given(key: KeyEvent, area: AreaView) -> KeyEvent {
    if pages_down(key) {
        if area.cursor.0 + 1 < area.lines.len() {
            KeyEvent { code: KeyCode::Down, ctrl: false, alt: false, shift: key.shift }
        } else {
            KeyEvent { code: KeyCode::Char('>'), ctrl: false, alt: true, shift: key.shift }
        }
    } else if pages_up(key) {
        if area.cursor.0 > 0 {
            KeyEvent { code: KeyCode::Up, ctrl: false, alt: false, shift: key.shift }
        } else {
            KeyEvent { code: KeyCode::Char('<'), ctrl: false, alt: true, shift: key.shift }
        }
    } else {
        key
    }
}

/// The key pastes, and a line break is left in the text that the area was made on:
/// every character that could stand for it was in the text too.
pub open spec fn paste_refused(area: AreaView, key: KeyEvent) -> bool {
    area.broken && stroke(key) == Stroke::Paste
}

/// What a text box that held `was` holds after a key.
pub open spec fn box_after(was: BoxView, key: KeyEvent) -> BoxView {
    if paste_refused(was.area, key) {
        was
    } else {
        BoxView { area: area_after(was.area, given(key, was.area)), mark: was.mark }
    }
}

/// A text box held `was`, the key was pressed, and it holds `now`.
pub open spec fn box_fed(was: BoxView, key: KeyEvent, now: BoxView) -> bool {
    &&& now == box_after(was, key)
    &&& now.area.broken == was.area.broken
    &&& !paste_refused(was.area, key) ==> area_fed(was.area, given(key, was.area), now.area)
}

impl TextBox {
    #[verifier::type_invariant]
    closed spec fn knows_its_text(self) -> bool {
        self.broken == area_view(self.area).broken
    }

    /// A text box on `value`, with the caret at its end.
    pub fn on(value: &str) -> (r: TextBox)
        ensures
            r@ == field_box(value@),
    {
        let mark: char = find_mark(value);
        let line: String = turn(value, '\n', mark);
        let broken: bool = holds_char(line.as_str(), '\n');
        let mut area: Area = new_area(line);
        move_to_end(&mut area);
        TextBox { area, mark, broken }
    }

    /// The lines that the box shows.
    pub fn text(&self) -> (r: Vec<String>)
        ensures
            views(r@) == self@.lines(),
            r@.len() > 0,
    {
        let held: Vec<String> = lines_in(&self.area);
        let ghost all = self@.lines();
        let mut out: Vec<String> = Vec::new();
        let mut i: usize = 0;
        assert(views(out@) =~= all.take(0));
        while i < held.len()
            invariant
                views(held@) == area_view(self.area).lines,
                all == self@.lines(),
                i <= held@.len(),
                out@.len() == i,
                views(out@) == all.take(i as int),
            decreases held@.len() - i,
        {
            let line: String = turn(held[i].as_str(), self.mark, '\n');
            proof {
                assert(views(held@)[i as int] == held@[i as int]@);
                lemma_views_push(out@, line);
            }
            out.push(line);
            i += 1;
            assert(views(out@) =~= all.take(i as int));
        }
        assert(all.take(i as int) =~= all);
        out
    }

    /// Where the caret stands: the row, and the number of characters before it.
    pub fn caret(&self) -> (r: (usize, usize))
        ensures
            (r.0 as int, r.1 as int) == self@.area.cursor,
    {
        caret_in(&self.area)
    }

    /// What is selected, from the place that comes first to the other.
    pub fn selection(&self) -> (r: Option<((usize, usize), (usize, usize))>)
        ensures
            match self@.area.selection {
                None => r is None,
                Some(begun) => r is Some && ({
                    let (from, to) = span(begun, self@.area.cursor);
                    &&& ((r->0).0.0 as int, (r->0).0.1 as int) == from
                    &&& ((r->0).1.0 as int, (r->0).1.1 as int) == to
                }),
            },
    {
        selection_in(&self.area)
    }

    /// React to a key.
    pub fn feed(&mut self, key: &KeyEvent)
        ensures
            box_fed(old(self)@, *key, final(self)@),
    {
        proof {
            use_type_invariant(&*self);
        }
        if self.broken && pastes(key) {
            return ;
        }
        let row: usize = caret_in(&self.area).0;
        let rows: usize = lines_in(&self.area).len();
        assert(rows == self@.area.lines.len());
        let sent: KeyEvent = give(key, row, rows);
        input(&mut self.area, &sent);
    }
}

/// The key that the text area is given, with the caret in this of its rows.
fn give(key: &KeyEvent, row: usize, rows: usize) -> (r: KeyEvent)
    requires
        rows > 0,
    ensures
        forall|area: AreaView|
            area.cursor.0 == row && area.lines.len() == rows ==> r == #[trigger] given(*key, area),
        stroke(r) == Stroke::Paste ==> stroke(*key) == Stroke::Paste,
{
    let (down, up): (bool, bool) = match key.code {
        KeyCode::PageDown => (true, false),
        KeyCode::PageUp => (false, true),
        KeyCode::Char(c) => (
            c == 'v' && key.ctrl && !key.alt,
            c == 'v' && !key.ctrl && key.alt,
        ),
        _ => (false, false),
    };
    if down && row < rows - 1 {
        KeyEvent { code: KeyCode::Down, ctrl: false, alt: false, shift: key.shift }
    } else if down {
        KeyEvent { code: KeyCode::Char('>'), ctrl: false, alt: true, shift: key.shift }
    } else if up && row > 0 {
        KeyEvent { code: KeyCode::Up, ctrl: false, alt: false, shift: key.shift }
    } else if up {
        KeyEvent { code: KeyCode::Char('<'), ctrl: false, alt: true, shift: key.shift }
    } else {
        *key
    }
}

/// Whether `key` pastes.
fn pastes(key: &KeyEvent) -> (r: bool)
    ensures
        r == (stroke(*key) == Stroke::Paste),
{
    match key.code {
        KeyCode::Char(c) => c == 'y' && key.ctrl && !key.alt,
        _ => false,
    }
}

/// The editor of one field.
pub enum Editing {
    Text(Box<TextBox>),
    Pick { options: Vec<String>, index: usize },
}

/// What an [`Editing`] shows.
#[verifier::ext_equal]
pub enum EditingView {
    Text(BoxView),
    Pick { options: Seq<Seq<char>>, index: int },
}

impl View for Editing {
    type V = EditingView;

    open spec fn view(&self) -> EditingView {
        match self {
            Editing::Text(shown) => EditingView::Text(shown@),
            Editing::Pick { options, index } => EditingView::Pick {
                options: views(options@),
                index: *index as int,
            },
        }
    }
}

/// The value that an editor holds now: the first line of a text box, or the
/// option that is highlighted.
pub open spec fn held(e: EditingView) -> Seq<char> {
    let (from, at) = match e {
        EditingView::Text(shown) => (shown.lines(), 0),
        EditingView::Pick { options, index } => (options, index),
    };
    if 0 <= at < from.len() {
        from[at]
    } else {
        Seq::empty()
    }
}

/// A copy of the text at `i`, or the empty text past the end.
pub(crate) fn nth_or_empty(list: &[String], i: usize) -> (r: String)
    ensures
        r@ == (if i < list@.len() {
            views(list@)[i as int]
        } else {
            Seq::empty()
        }),
{
    if i < list.len() {
        list[i].clone()
    } else {
        String::new()
    }
}

/// The first position of `x` in `list`, or 0.
pub open spec fn place(list: Seq<Seq<char>>, x: Seq<char>, from: int) -> int
    decreases list.len() - from,
{
    if from >= list.len() {
        0
    } else if list[from] == x {
        from
    } else {
        place(list, x, from + 1)
    }
}

impl Editing {
    /// A text box on `value`, with the caret at its end.
    pub fn text(value: &str) -> (r: Editing)
        ensures
            r@ == EditingView::Text(field_box(value@)),
    {
        Editing::Text(Box::new(TextBox::on(value)))
    }

    /// A list of options with the one that equals `current` highlighted, or the
    /// first.
    pub fn pick(options: Vec<String>, current: &str) -> (r: Editing)
        ensures
            r@ == (EditingView::Pick {
                options: views(options@),
                index: place(views(options@), current@, 0),
            }),
    {
        let mut i: usize = 0;
        while i < options.len()
            invariant
                i <= options@.len(),
                place(views(options@), current@, 0) == place(views(options@), current@, i as int),
            decreases options@.len() - i,
        {
            assert(views(options@)[i as int] == options@[i as int]@);
            if same(options[i].as_str(), current) {
                return Editing::Pick { options, index: i };
            }
            i += 1;
        }
        Editing::Pick { options, index: 0 }
    }

    /// The value that the editor holds now.
    pub fn value(&self) -> (r: String)
        ensures
            r@ == held(self@),
    {
        match self {
            Editing::Text(shown) => nth_or_empty(shown.text().as_slice(), 0),
            Editing::Pick { options, index } => nth_or_empty(options.as_slice(), *index),
        }
    }
}

/// What is left to do after a key was pressed in an editor.
#[derive(Debug, Clone, Copy, PartialEq, Eq, Structural)]
pub enum Then {
    Nothing,
    Commit,
    Cancel,
    AsText,
}

/// The option above.
pub open spec fn option_above(index: int) -> int {
    if index > 0 {
        index - 1
    } else {
        0
    }
}

/// The option below, if there is one.
pub open spec fn option_below(index: int, len: int) -> int {
    if index + 1 < len {
        index + 1
    } else if len > 0 {
        len - 1
    } else {
        0
    }
}

/// The editor showed `was`, the key was pressed, it shows `now`, and `then` is
/// left to do.
pub open spec fn key_pressed(was: EditingView, key: KeyEvent, now: EditingView, then: Then) -> bool {
    match was {
        EditingView::Pick { options, index } => match key.code {
            KeyCode::Esc => then == Then::Cancel && now == was,
            KeyCode::Enter => then == Then::Commit && now == was,
            KeyCode::Tab | KeyCode::Char('i') => then == Then::AsText && now == was,
            KeyCode::Up | KeyCode::Char('k') => then == Then::Nothing && now
                == (EditingView::Pick { options, index: option_above(index) }),
            KeyCode::Down | KeyCode::Char('j') => then == Then::Nothing && now
                == (EditingView::Pick { options, index: option_below(index, options.len() as int) }),
            _ => then == Then::Nothing && now == was,
        },
        EditingView::Text(shown) => match key.code {
            KeyCode::Esc => then == Then::Cancel && now == was,
            KeyCode::Enter => then == Then::Commit && now == was,
            _ => then == Then::Nothing && (now matches EditingView::Text(after) && box_fed(
                shown,
                key,
                after,
            )),
        },
    }
}

impl Editing {
    /// React to a key.
    pub fn press(&mut self, key: KeyEvent) -> (then: Then)
        ensures
            key_pressed(old(self)@, key, final(self)@, then),
    {
        match self {
            Editing::Pick { options, index } => match key.code {
                KeyCode::Esc => Then::Cancel,
                KeyCode::Enter => Then::Commit,
                KeyCode::Tab | KeyCode::Char('i') => Then::AsText,
                KeyCode::Up | KeyCode::Char('k') => {
                    if *index > 0 {
                        *index = *index - 1;
                    }
                    Then::Nothing
                },
                KeyCode::Down | KeyCode::Char('j') => {
                    let n: usize = options.len();
                    *index = if n > 0 && *index < n - 1 {
                        *index + 1
                    } else if n > 0 {
                        n - 1
                    } else {
                        0
                    };
                    Then::Nothing
                },
                _ => Then::Nothing,
            },
            Editing::Text(shown) => match key.code {
                KeyCode::Esc => Then::Cancel,
                KeyCode::Enter => Then::Commit,
                _ => {
                    shown.feed(&key);
                    Then::Nothing
                },
            },
        }
    }
}

/// Typing a character into a fresh text box appends it, and erasing takes the
/// last one away: the page is then that of a fresh box on the longer or shorter
/// value.
pub proof fn law_typing_appends(value: Seq<char>, c: char)
    ensures
        line_box(value).settled(),
        line_box(value).typed(c) == line_box(value.push(c)).page((value.len() + 1) as int),
        value.len() > 0 ==> line_box(value).erased() == line_box(value.drop_last()).page(
            value.len() - 1,
        ),
{
    let n = value.len() as int;
    assert(value.insert(n, c) =~= value.push(c));
    assert(line_box(value).typed(c).lines =~= line_box(value.push(c)).lines);
    if n > 0 {
        assert(value.remove(n - 1) =~= value.drop_last());
        assert(line_box(value).erased().lines =~= line_box(value.drop_last()).lines);
    }
}

/// A text box holds the text it was made on, with its line breaks.
pub proof fn law_box_holds_its_text(value: Seq<char>)
    ensures
        held(EditingView::Text(field_box(value))) == value,
        field_box(value).area.settled(),
{
    let mark = mark_for(value);
    lemma_free(value, 0);
    let line = turned(value, '\n', mark);
    assert(turned(line, mark, '\n') =~= value) by {
        assert forall|i: int| 0 <= i < value.len() implies turned(line, mark, '\n')[i]
            == value[i] by {
            if value[i] == mark {
                assert(value.contains(value[i]));
            }
        }
    }
}

/// The character found is not in the text, or is the line break.
proof fn lemma_free(s: Seq<char>, i: int)
    requires
        0 <= i,
    ensures
        free_from(s, i) == '\n' || !s.contains(free_from(s, i)),
        free_from(s, i) == '\n' ==> forall|k: int|
            i <= k < STAND_INS ==> s.contains(#[trigger] stand_in(k)),
    decreases STAND_INS - i,
{
    if i < STAND_INS && s.contains(stand_in(i)) {
        lemma_free(s, i + 1);
    }
}

/// A text box pastes, unless every character that could stand for a line break is
/// in the text it was made on, and a line break too.
pub proof fn law_box_pastes(value: Seq<char>)
    ensures
        field_box(value).area.broken ==> value.contains('\n') && forall|k: int|
            0 <= k < STAND_INS ==> value.contains(#[trigger] stand_in(k)),
{
    let mark = mark_for(value);
    let line = turned(value, '\n', mark);
    lemma_free(value, 0);
    if line.contains('\n') {
        let i = choose|i: int| 0 <= i < line.len() && line[i] == '\n';
        assert(value[i] == '\n');
        assert(value.contains(value[i]));
    }
}

/// Paging leaves the caret of a box with one line where it is.
pub proof fn law_paging_stays(was: BoxView, key: KeyEvent, now: BoxView)
    requires
        pages_up(key) || pages_down(key),
        was.area.inside(),
        was.area.lines.len() == 1,
        box_fed(was, key, now),
    ensures
        now.area.lines == was.area.lines,
        now.area.cursor == was.area.cursor,
        was.area.settled() && !key.shift ==> now == was,
{
    assert(was.area.level(0) == was.area.cursor);
    if was.area.settled() && !key.shift {
        assert(now.area =~= was.area);
    }
}

/// Undoing takes the last change back, and doing it again makes it anew: after a
/// change from one page to another, an undo shows the first page, and a redo
/// after that the second.
pub proof fn law_undo_takes_back(
    was: AreaView,
    before: Page,
    after: Page,
    yank: Seq<Seq<char>>,
    now: AreaView,
    undo: KeyEvent,
    undone: AreaView,
    redo: KeyEvent,
    redone: AreaView,
)
    requires
        changed(was, before, after, yank, now),
        stroke(undo) == Stroke::Undo,
        stroke(redo) == Stroke::Redo,
        area_fed(now, undo, undone),
        area_fed(undone, redo, redone),
    ensures
        (Page { lines: undone.lines, cursor: undone.cursor }) == before,
        undone.selection is None,
        redone == now,
{
    let n = now.steps.len() as int;
    assert(undone == now.turned_to(now.steps[n - 1].before, n - 1));
    assert(redone == undone.turned_to(now.steps[n - 1].after, n));
    assert(redone =~= now);
}

/// Cutting the word before the caret takes out at least one character: the last
/// word of a text that is not empty begins inside the text.
pub proof fn law_word_is_before_the_caret(s: Seq<char>)
    requires
        s.len() > 0,
    ensures
        0 <= word_start(s) < s.len(),
    decreases s.len(),
{
    if s.len() > 1 {
        law_word_is_before_the_caret(s.drop_last());
    }
}

} // verus!
