//! What reading a text comes to: words, lines, pieces, numbers, and the case of
//! letters.

use vstd::prelude::*;
use crate::argv_laws::lemma_behind_last;
use crate::find::{after_last, begins, finishes, first_of, holds, last_of, lemma_first_of};
use crate::number::{
    decimal, digit, digit_value, digits_value, law_decimal_reads_back, lemma_decimal_digits,
    read_u16,
};
use crate::order::{before, lemma_before_total, lemma_before_transitive};
use crate::readback::lemma_trimmed_is;
use crate::saved::{lemma_one_word, lemma_split_append, lemma_split_free, lemma_words_concat, one_word};
use crate::split::{joined, lines_of, split_on, strip_return, word_spans, words};
use crate::text::{folded, lemma_trimmed, same_word, shortened, trimmed, white};

verus! {

/// A character that stands between words: a blank, a tab, an end of line or of page,
/// or one of the other blanks that are written in texts.
pub open spec fn space(c: char) -> bool {
    ||| c == ' '
    ||| c == '\t'
    ||| c == '\n'
    ||| c == '\r'
    ||| c == '\u{b}'
    ||| c == '\u{c}'
    ||| c == '\u{85}'
    ||| c == '\u{a0}'
    ||| c == '\u{1680}'
    ||| c == '\u{2000}'
    ||| c == '\u{2001}'
    ||| c == '\u{2002}'
    ||| c == '\u{2003}'
    ||| c == '\u{2004}'
    ||| c == '\u{2005}'
    ||| c == '\u{2006}'
    ||| c == '\u{2007}'
    ||| c == '\u{2008}'
    ||| c == '\u{2009}'
    ||| c == '\u{200a}'
    ||| c == '\u{2028}'
    ||| c == '\u{2029}'
    ||| c == '\u{202f}'
    ||| c == '\u{205f}'
    ||| c == '\u{3000}'
}

/// A character that words are made of.
pub open spec fn letter(c: char) -> bool {
    let n = c as u32;
    ||| n <= 0x8
    ||| 0xe <= n <= 0x1f
    ||| 0x21 <= n <= 0x84
    ||| 0x86 <= n <= 0x9f
    ||| 0xa1 <= n <= 0x167f
    ||| 0x1681 <= n <= 0x1fff
    ||| 0x200b <= n <= 0x2027
    ||| 0x202a <= n <= 0x202e
    ||| 0x2030 <= n <= 0x205e
    ||| 0x2060 <= n <= 0x2fff
    ||| 0x3001 <= n
}

/// Nothing but spaces.
pub open spec fn gap(s: Seq<char>) -> bool {
    forall|i: int| 0 <= i < s.len() ==> space(#[trigger] s[i])
}

/// One word.
pub open spec fn solid(s: Seq<char>) -> bool {
    s.len() > 0 && forall|i: int| 0 <= i < s.len() ==> letter(#[trigger] s[i])
}

/// Words are what stands between spaces, in order: a gap between two texts keeps
/// their words apart, a run of letters is one word, and a gap has none.
pub proof fn law_words_stand_between_spaces(
    a: Seq<char>,
    between: Seq<char>,
    b: Seq<char>,
    word: Seq<char>,
)
    requires
        between.len() > 0,
        gap(between),
        solid(word),
    ensures
        words(a + between + b) == words(a) + words(b),
        words(word) == seq![word],
        words(between).len() == 0,
{
    assert(white(between[0]) && white(between.last())) by {
        assert(space(between[0]) && space(between[between.len() - 1]));
    }
    lemma_gap_has_no_words(between);
    lemma_words_concat(a, between);
    if a.len() > 0 {
        assert(white((a + between).last()));
    }
    lemma_words_concat(a + between, b);
    assert(words(a) + words(between) =~= words(a));
    assert forall|i: int| 0 <= i < word.len() implies !white(#[trigger] word[i]) by {
        assert(letter(word[i]));
    }
    lemma_one_word(word);
}

proof fn lemma_gap_has_no_words(s: Seq<char>)
    requires
        gap(s),
    ensures
        words(s).len() == 0,
        word_spans(s).len() == 0,
    decreases s.len(),
{
    if s.len() > 0 {
        assert forall|i: int| 0 <= i < s.drop_last().len() implies space(
            #[trigger] s.drop_last()[i],
        ) by {
            assert(space(s[i]));
        }
        lemma_gap_has_no_words(s.drop_last());
        assert(space(s[s.len() - 1]));
    }
}

/// Trimming takes the spaces off both ends and nothing else.
pub proof fn law_trimming_takes_the_spaces_off(a: Seq<char>, s: Seq<char>, b: Seq<char>)
    requires
        gap(a),
        gap(b),
        s.len() > 0,
        letter(s[0]),
        letter(s.last()),
    ensures
        trimmed(a + s + b) == s,
        trimmed(a).len() == 0,
{
    let t = a + s + b;
    let n = a.len() as int;
    let m = (a.len() + s.len()) as int;
    assert forall|i: int| 0 <= i < n implies white(#[trigger] t[i]) by {
        assert(space(a[i]));
    }
    assert forall|i: int| m <= i < t.len() implies white(#[trigger] t[i]) by {
        assert(space(b[i - m]));
    }
    assert(t[n] == s[0] && t[m - 1] == s.last());
    lemma_trimmed_is(t, n, m);
    assert(t.subrange(n, m) =~= s);
    lemma_gap_is_trimmed_away(a, 0);
}

proof fn lemma_gap_is_trimmed_away(a: Seq<char>, from: int)
    requires
        gap(a),
        0 <= from <= a.len(),
    ensures
        crate::text::lead(a, from) == a.len(),
        from == 0 ==> trimmed(a).len() == 0,
    decreases a.len() - from,
{
    if from < a.len() {
        assert(space(a[from]));
        lemma_gap_is_trimmed_away(a, from + 1);
    }
    if from == 0 {
        let t = a.skip(a.len() as int);
        assert(t.len() == 0);
        assert(t.take(0).len() == 0);
    }
}

/// Splitting at a character cuts there and nowhere else.
pub proof fn law_pieces_lie_between_separators(a: Seq<char>, piece: Seq<char>, c: char)
    requires
        !piece.contains(c),
    ensures
        split_on(a + seq![c] + piece, c) == split_on(a, c).push(piece),
        split_on(piece, c) == seq![piece],
{
    lemma_split_append(a, piece, c);
    lemma_split_free(piece, c);
}

/// Joining puts the separator between each two and nowhere else.
pub proof fn law_joined_has_separators_between(
    parts: Seq<Seq<char>>,
    last: Seq<char>,
    sep: Seq<char>,
)
    ensures
        joined(seq![last], sep) == last,
        joined(Seq::<Seq<char>>::empty(), sep).len() == 0,
        parts.len() > 0 ==> joined(parts.push(last), sep) == joined(parts, sep) + sep + last,
{
    assert(parts.push(last).drop_last() =~= parts);
}

/// A line ends in a line feed, which may have a carriage return before it; neither
/// belongs to the line, and a text that ends in one has no line behind it.
pub proof fn law_lines_end_in_line_feeds(a: Seq<char>, line: Seq<char>)
    requires
        !line.contains('\n'),
        line.len() > 0,
        line.last() != '\r',
    ensures
        lines_of(line) == seq![line],
        lines_of(line.push('\n')) == seq![line],
        lines_of(line.push('\r').push('\n')) == seq![line],
        lines_of(a.push('\n') + line) == lines_of(a.push('\n')).push(line),
        lines_of(a.push('\n') + line.push('\n')) == lines_of(a.push('\n')).push(line),
        lines_of(a.push('\n') + line.push('\r').push('\n')) == lines_of(a.push('\n')).push(line),
        lines_of(Seq::empty()).len() == 0,
        lines_of(a.push('\n').push('\n')) == lines_of(a.push('\n')).push(Seq::empty()),
        lines_of(line.push('\r')) == seq![line.push('\r')],
{
    let none = Seq::<char>::empty();
    let nl = '\n';
    assert(!none.contains(nl));
    let returned = line.push('\r');
    assert(!returned.contains(nl)) by {
        if returned.contains(nl) {
            let k = choose|k: int| 0 <= k < returned.len() && returned[k] == nl;
            assert(line[k] == nl);
        }
    }
    assert(strip_return(returned) =~= line);
    lemma_split_free(line, nl);
    lemma_split_free(returned, nl);
    lemma_split_append(line, none, nl);
    assert(line + seq![nl] + none =~= line.push(nl));
    lemma_split_append(returned, none, nl);
    assert(returned + seq![nl] + none =~= returned.push(nl));
    assert(lines_of(line) =~= seq![line]);
    assert(lines_of(line.push(nl)) =~= seq![line]);
    assert(lines_of(returned.push(nl)) =~= seq![line]);
    assert(split_on(none, nl) =~= seq![none]);
    assert(lines_of(none).len() == 0);
    // Behind another line.
    lemma_split_append(a, none, nl);
    assert(a + seq![nl] + none =~= a.push(nl));
    lemma_split_append(a, line, nl);
    assert(a + seq![nl] + line =~= a.push(nl) + line);
    lemma_split_append(a, returned, nl);
    assert(a + seq![nl] + returned =~= a.push(nl) + returned);
    lemma_split_append(a.push(nl) + line, none, nl);
    assert((a.push(nl) + line) + seq![nl] + none =~= a.push(nl) + line.push(nl));
    lemma_split_append(a.push(nl) + returned, none, nl);
    assert((a.push(nl) + returned) + seq![nl] + none =~= a.push(nl) + returned.push(nl));
    let above = lines_of(a.push(nl));
    lemma_split_append(a.push(nl), none, nl);
    assert(a.push(nl) + seq![nl] + none =~= a.push(nl).push(nl));
    assert(strip_return(none) =~= none);
    assert(lines_of(a.push(nl).push(nl)) =~= above.push(none));
    assert(lines_of(returned) =~= seq![returned]);
    assert(lines_of(a.push(nl) + line) =~= above.push(line));
    assert(lines_of(a.push(nl) + line.push(nl)) =~= above.push(line));
    assert(lines_of(a.push(nl) + returned.push(nl)) =~= above.push(line));
}

/// A number is written with its digits, the highest first and no zero before them.
pub proof fn law_decimal_is_written_digit_by_digit(n: nat, d: nat)
    requires
        d < 10,
    ensures
        decimal(d) == seq!["0123456789"@[d as int]],
        n > 0 ==> decimal(10 * n + d) == decimal(n).push("0123456789"@[d as int]),
{
    reveal_strlit("0123456789");
    assert(digit(d) == "0123456789"@[d as int]);
    assert((10 * n + d) / 10 == n && (10 * n + d) % 10 == d);
}

/// A port is read from its decimal digits, which may have a plus sign before them;
/// a text with any other character in it, or of a higher number, is no port.
pub proof fn law_port_is_read_from_digits(port: u16, high: nat, a: Seq<char>, c: char, b: Seq<char>)
    requires
        high > 65535,
        !('0' <= c <= '9'),
        a.len() > 0 || c != '+',
    ensures
        read_u16(decimal(port as nat), 10) == Some(port),
        read_u16(seq!['+'] + decimal(port as nat), 10) == Some(port),
        read_u16(decimal(high), 10) is None,
        read_u16(a.push(c) + b, 10) is None,
        read_u16(Seq::empty(), 10) is None,
        read_u16(seq!['+'], 10) is None,
{
    law_decimal_reads_back(port);
    lemma_decimal_digits(port as nat);
    lemma_decimal_digits(high);
    let plus = seq!['+'] + decimal(port as nat);
    assert(plus.skip(1) =~= decimal(port as nat));
    assert(decimal(high)[0] != '+');
    let s = a.push(c) + b;
    if s.len() > 1 && s[0] == '+' {
        let body = s.skip(1);
        assert(a.len() > 0);
        assert(body[a.len() - 1] == c);
        lemma_no_digits(body, 10, a.len() - 1);
    } else {
        assert(s[a.len() as int] == c);
        lemma_no_digits(s, 10, a.len() as int);
    }
    let p = seq!['+'];
    assert(p[0] == '+');
    lemma_no_digits(p, 10, 0);
}

/// A character that is no digit spoils a number.
pub proof fn lemma_no_digits(s: Seq<char>, radix: nat, i: int)
    requires
        0 <= i < s.len(),
        digit_value(s[i], radix) is None,
    ensures
        digits_value(s, radix) is None,
    decreases s.len(),
{
    if i < s.len() - 1 {
        lemma_no_digits(s.drop_last(), radix, i);
    }
}

/// The four hexadecimal digits of a port.
pub open spec fn hex(port: u16) -> Seq<char> {
    let n = port as int;
    let digits = "0123456789ABCDEF"@;
    seq![digits[n / 4096], digits[n / 256 % 16], digits[n / 16 % 16], digits[n % 16]]
}

/// A port is read from its four hexadecimal digits, in capitals or in small letters.
pub proof fn law_port_is_read_from_hex(port: u16)
    ensures
        read_u16(hex(port), 16) == Some(port),
        read_u16(folded(hex(port)), 16) == Some(port),
        !hex(port).contains(':'),
{
    reveal_strlit("0123456789ABCDEF");
    let n = port as int;
    let s = hex(port);
    lemma_hex_digit(n / 4096);
    lemma_hex_digit(n / 256 % 16);
    lemma_hex_digit(n / 16 % 16);
    lemma_hex_digit(n % 16);
    let s1 = s.drop_last();
    let s2 = s1.drop_last();
    let s3 = s2.drop_last();
    let s4 = s3.drop_last();
    assert(s4.len() == 0);
    assert(s3.last() == s[0] && s2.last() == s[1] && s1.last() == s[2]);
    assert(digits_value(s4, 16) == Some(0nat));
    assert(digits_value(s3, 16) == Some((n / 4096) as nat));
    assert(digits_value(s2, 16) == Some((n / 4096 * 16 + n / 256 % 16) as nat));
    assert(n / 4096 * 16 + n / 256 % 16 == n / 256);
    assert(digits_value(s1, 16) == Some((n / 256 * 16 + n / 16 % 16) as nat));
    assert(n / 256 * 16 + n / 16 % 16 == n / 16);
    assert(digits_value(s, 16) == Some(n as nat));
    assert(s[0] != '+');
    // In small letters.
    let t = folded(s);
    let t1 = t.drop_last();
    let t2 = t1.drop_last();
    let t3 = t2.drop_last();
    let t4 = t3.drop_last();
    assert(t4.len() == 0);
    assert(t3.last() == t[0] && t2.last() == t[1] && t1.last() == t[2]);
    assert(t[0] == crate::text::lower(s[0]) && t[1] == crate::text::lower(s[1]) && t[2]
        == crate::text::lower(s[2]) && t[3] == crate::text::lower(s[3]));
    assert(digits_value(t4, 16) == Some(0nat));
    assert(digits_value(t3, 16) == Some((n / 4096) as nat));
    assert(digits_value(t2, 16) == Some((n / 4096 * 16 + n / 256 % 16) as nat));
    assert(digits_value(t1, 16) == Some((n / 256 * 16 + n / 16 % 16) as nat));
    assert(digits_value(t, 16) == Some(n as nat));
    assert forall|k: int| 0 <= k < s.len() implies s[k] != ':' by {
        assert(k == 0 || k == 1 || k == 2 || k == 3);
    }
}

proof fn lemma_hex_digit(d: int)
    requires
        0 <= d < 16,
    ensures
        digit_value("0123456789ABCDEF"@[d], 16) == Some(d as nat),
        "0123456789ABCDEF"@[d] != ':',
        "0123456789ABCDEF"@[d] != '+',
        digit_value(crate::text::lower("0123456789ABCDEF"@[d]), 16) == Some(d as nat),
        crate::text::lower("0123456789ABCDEF"@[d]) != '+',
{
    reveal_strlit("0123456789ABCDEF");
    assert(d == 0 || d == 1 || d == 2 || d == 3 || d == 4 || d == 5 || d == 6 || d == 7 || d == 8
        || d == 9 || d == 10 || d == 11 || d == 12 || d == 13 || d == 14 || d == 15);
}

/// Two characters are one letter, its case aside.
pub open spec fn one_letter(a: char, b: char) -> bool {
    let n = a as int;
    let m = b as int;
    ||| a == b
    ||| 0x41 <= n <= 0x5a && m == n + 32
    ||| 0x41 <= m <= 0x5a && n == m + 32
}

/// Two keywords are the same if they have the same letters in the same order, with
/// the case of ASCII letters left out.
pub proof fn law_keywords_compare_without_case(a: Seq<char>, b: Seq<char>)
    ensures
        same_word(a, b) <==> a.len() == b.len() && forall|i: int|
            0 <= i < a.len() ==> one_letter(#[trigger] a[i], b[i]),
        folded(a).len() == a.len(),
        same_word(a, folded(a)),
        forall|i: int| 0 <= i < a.len() ==> !('A' <= #[trigger] folded(a)[i] <= 'Z'),
{
    if same_word(a, b) {
        assert(folded(a).len() == folded(b).len());
        assert forall|i: int| 0 <= i < a.len() implies one_letter(#[trigger] a[i], b[i]) by {
            assert(folded(a)[i] == folded(b)[i]);
        }
    }
    if a.len() == b.len() && forall|i: int| 0 <= i < a.len() ==> one_letter(#[trigger] a[i], b[i]) {
        assert forall|i: int| 0 <= i < a.len() implies folded(a)[i] == folded(b)[i] by {
            assert(one_letter(a[i], b[i]));
        }
        assert(folded(a) =~= folded(b));
    }
    assert(folded(folded(a)) =~= folded(a));
}

/// A text holds a part, begins or ends with it, exactly if it is that part with
/// something around it, behind it or before it.
pub proof fn law_parts_of_a_text(a: Seq<char>, part: Seq<char>, b: Seq<char>, s: Seq<char>)
    ensures
        holds(a + part + b, part),
        begins(part + b, part),
        finishes(a + part, part),
        holds(s, part) ==> exists|i: int|
            0 <= i <= s.len() - part.len() && #[trigger] s.take(i) + part + s.skip(
                i + part.len(),
            ) == s,
        begins(s, part) ==> s == part + s.skip(part.len() as int),
        finishes(s, part) ==> s == s.take(s.len() - part.len()) + part,
{
    let t = a + part + b;
    let i = a.len() as int;
    assert(t.subrange(i, i + part.len()) =~= part);
    assert((part + b).take(part.len() as int) =~= part);
    let e = a + part;
    assert(e.subrange(e.len() - part.len(), e.len() as int) =~= part);
    if holds(s, part) {
        let k = choose|k: int|
            0 <= k <= s.len() - part.len() && #[trigger] s.subrange(k, k + part.len()) == part;
        assert(s.take(k) + part + s.skip(k + part.len()) =~= s);
    }
    if begins(s, part) {
        assert(s =~= part + s.skip(part.len() as int));
    }
    if finishes(s, part) {
        assert(s =~= s.take(s.len() - part.len()) + part);
    }
}

/// The first and the last place of a character.
pub proof fn law_places_of_a_character(a: Seq<char>, c: char, b: Seq<char>)
    ensures
        !a.contains(c) ==> first_of(a.push(c) + b, c, 0) == a.len(),
        !a.contains(c) ==> first_of(a, c, 0) == a.len(),
        !b.contains(c) ==> last_of(a.push(c) + b, c) == a.len(),
        !b.contains(c) ==> after_last(a.push(c) + b, c) == b,
        !b.contains(c) ==> after_last(b, c) == b,
{
    if !b.contains(c) {
        lemma_behind_last(a, b, c);
    }
    if !a.contains(c) {
        let s = a.push(c) + b;
        lemma_first_of(s, c, 0);
        let i = first_of(s, c, 0);
        assert(s[a.len() as int] == c);
        if i < a.len() {
            assert(a.contains(a[i]));
        }
        lemma_first_of(a, c, 0);
        let j = first_of(a, c, 0);
        if j < a.len() {
            assert(a.contains(a[j]));
        }
    }
}

/// Texts are ordered by their first difference, and a text comes before one that
/// goes on where it ends. Of any two different texts one comes first, and this
/// carries over.
pub proof fn law_order_of_texts(
    a: Seq<char>,
    x: char,
    y: char,
    b: Seq<char>,
    c: Seq<char>,
    s: Seq<char>,
    t: Seq<char>,
    u: Seq<char>,
)
    ensures
        x < y ==> before(a.push(x) + b, a.push(y) + c) && !before(a.push(y) + c, a.push(x) + b),
        b.len() > 0 ==> before(a, a + b),
        !before(a + b, a),
        before(s, t) || before(t, s) || s == t,
        !(before(s, t) && before(t, s)),
        before(s, t) && before(t, u) ==> before(s, u),
{
    if x < y {
        assert((a.push(x) + b).take(a.len() as int) =~= a);
        assert((a.push(y) + c).take(a.len() as int) =~= a);
        lemma_first_difference(a, a.push(x) + b, a.push(y) + c);
    }
    lemma_goes_on(a, b);
    lemma_before_total(s, t);
    if before(s, t) && before(t, s) {
        lemma_before_transitive(s, t, s);
        crate::order::lemma_before_irreflexive(s);
    }
    if before(s, t) && before(t, u) {
        lemma_before_transitive(s, t, u);
    }
}

proof fn lemma_first_difference(a: Seq<char>, s: Seq<char>, t: Seq<char>)
    requires
        s.len() > a.len(),
        t.len() > a.len(),
        s.take(a.len() as int) == a,
        t.take(a.len() as int) == a,
        s[a.len() as int] < t[a.len() as int],
    ensures
        before(s, t),
        !before(t, s),
    decreases a.len(),
{
    if a.len() > 0 {
        let r = a.skip(1);
        assert(s.take(a.len() as int)[0] == s[0] && t.take(a.len() as int)[0] == t[0]);
        assert(s.skip(1).take(r.len() as int) =~= s.take(a.len() as int).skip(1));
        assert(t.skip(1).take(r.len() as int) =~= t.take(a.len() as int).skip(1));
        lemma_first_difference(r, s.skip(1), t.skip(1));
    }
}

proof fn lemma_goes_on(a: Seq<char>, b: Seq<char>)
    ensures
        b.len() > 0 ==> before(a, a + b),
        !before(a + b, a),
    decreases a.len(),
{
    if a.len() > 0 {
        lemma_goes_on(a.skip(1), b);
        assert((a + b).skip(1) =~= a.skip(1) + b);
        assert((a + b)[0] == a[0]);
    }
}

/// Taking the last character off undoes typing one.
pub proof fn law_shortening_undoes_typing(s: Seq<char>, c: char)
    ensures
        shortened(s.push(c)) == s,
        shortened(Seq::empty()).len() == 0,
{
    assert(s.push(c).drop_last() =~= s);
}

} // verus!
