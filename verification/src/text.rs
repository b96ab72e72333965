//! Text primitives: what a string means as a sequence of characters, and the
//! comparing, trimming and folding that the rest of the crate is built on.

use vstd::prelude::*;

verus! {

/// `String::push` appends the character.
pub assume_specification[ String::push ](s: &mut String, c: char)
    ensures
        final(s)@ == old(s)@.push(c),
;

/// The views of a sequence of values.
pub open spec fn views<T: View>(s: Seq<T>) -> Seq<T::V> {
    Seq::new(s.len(), |i: int| s[i]@)
}

/// The view of an optional value.
pub open spec fn view_of<T: View>(o: Option<T>) -> Option<T::V> {
    match o {
        Some(v) => Some(v@),
        None => None,
    }
}

pub proof fn lemma_views_push<T: View>(s: Seq<T>, x: T)
    ensures
        views(s.push(x)) == views(s).push(x@),
{
    assert(views(s.push(x)) =~= views(s).push(x@));
}

/// The characters with the Unicode `White_Space` property.
pub open spec fn white(c: char) -> bool {
    let n = c as u32;
    ||| 0x9 <= n <= 0xd
    ||| n == 0x20
    ||| n == 0x85
    ||| n == 0xa0
    ||| n == 0x1680
    ||| 0x2000 <= n <= 0x200a
    ||| n == 0x2028
    ||| n == 0x2029
    ||| n == 0x202f
    ||| n == 0x205f
    ||| n == 0x3000
}

pub fn is_white(c: char) -> (r: bool)
    ensures
        r == white(c),
{
    let n = c as u32;
    (0x9 <= n && n <= 0xd) || n == 0x20 || n == 0x85 || n == 0xa0 || n == 0x1680 || (0x2000 <= n
        && n <= 0x200a) || n == 0x2028 || n == 0x2029 || n == 0x202f || n == 0x205f || n == 0x3000
}

/// The characters of `s`, for indexed access.
pub fn chars(s: &str) -> (r: Vec<char>)
    ensures
        r@ == s@,
{
    let mut out: Vec<char> = Vec::new();
    for c in it: s.chars()
        invariant
            out@ == s@.take(it.index() as int),
            it.seq() == s@,
    {
        out.push(c);
    }
    out
}

/// The first position at or after `from` that is not white space.
pub open spec fn lead(s: Seq<char>, from: int) -> int
    decreases s.len() - from,
{
    if from >= s.len() {
        s.len() as int
    } else if white(s[from]) {
        lead(s, from + 1)
    } else {
        from
    }
}

/// One past the last position before `to` that is not white space.
pub open spec fn tail(s: Seq<char>, to: int) -> int
    decreases to,
{
    if to <= 0 {
        0
    } else if white(s[to - 1]) {
        tail(s, to - 1)
    } else {
        to
    }
}

/// `s` without its leading white space.
pub open spec fn trimmed_start(s: Seq<char>) -> Seq<char> {
    s.skip(lead(s, 0))
}

/// `s` without its trailing white space.
pub open spec fn trimmed_end(s: Seq<char>) -> Seq<char> {
    s.take(tail(s, s.len() as int))
}

/// `s` without white space at either end.
pub open spec fn trimmed(s: Seq<char>) -> Seq<char> {
    trimmed_end(trimmed_start(s))
}

pub proof fn lemma_lead(s: Seq<char>, from: int)
    requires
        0 <= from <= s.len(),
    ensures
        from <= lead(s, from) <= s.len(),
        forall|i: int| from <= i < lead(s, from) ==> white(#[trigger] s[i]),
        lead(s, from) < s.len() ==> !white(s[lead(s, from)]),
    decreases s.len() - from,
{
    if from < s.len() && white(s[from]) {
        lemma_lead(s, from + 1);
    }
}

pub proof fn lemma_tail(s: Seq<char>, to: int)
    requires
        0 <= to <= s.len(),
    ensures
        0 <= tail(s, to) <= to,
        forall|i: int| tail(s, to) <= i < to ==> white(#[trigger] s[i]),
        tail(s, to) > 0 ==> !white(s[tail(s, to) - 1]),
    decreases to,
{
    if to > 0 && white(s[to - 1]) {
        lemma_tail(s, to - 1);
    }
}

/// What trimming leaves neither starts nor ends in white space, and text of
/// that kind is left alone.
pub proof fn lemma_trimmed(s: Seq<char>)
    ensures
        trimmed(s).len() > 0 ==> !white(trimmed(s)[0]) && !white(trimmed(s).last()),
        s.len() == 0 ==> trimmed(s) == s,
        s.len() > 0 && !white(s[0]) && !white(s.last()) ==> trimmed(s) == s,
        trimmed(trimmed(s)) == trimmed(s),
{
    lemma_lead(s, 0);
    let a = trimmed_start(s);
    lemma_tail(a, a.len() as int);
    let t = trimmed(s);
    if t.len() > 0 {
        assert(t[0] == a[0]);
        assert(t.last() == a[tail(a, a.len() as int) - 1]);
        assert(lead(t, 0) == 0);
        assert(t.skip(0) =~= t);
        assert(t.take(t.len() as int) =~= t);
    } else {
        assert(t.skip(0) =~= t);
        assert(t.take(0) =~= t);
    }
    if s.len() > 0 && !white(s[0]) && !white(s.last()) {
        assert(s.skip(0) =~= s);
        assert(s.take(s.len() as int) =~= s);
    }
    if s.len() == 0 {
        assert(trimmed(s) =~= s);
    }
}

/// The position of the first character that is not white space.
pub fn indent_len(s: &[char]) -> (r: usize)
    ensures
        r == lead(s@, 0),
        r <= s@.len(),
{
    let mut lo: usize = 0;
    while lo < s.len() && is_white(s[lo])
        invariant
            lo <= s@.len(),
            lead(s@, 0) == lead(s@, lo as int),
        decreases s@.len() - lo,
    {
        lo += 1;
    }
    lo
}

/// `s` without white space at either end.
pub fn trim<'a>(s: &'a str) -> (r: &'a str)
    ensures
        r@ == trimmed(s@),
{
    let cs: Vec<char> = chars(s);
    let lo: usize = indent_len(cs.as_slice());
    let mut hi: usize = cs.len();
    let ghost sub = s@.skip(lo as int);
    while hi > lo && is_white(cs[hi - 1])
        invariant
            cs@ == s@,
            lo <= hi <= cs@.len(),
            sub == s@.skip(lo as int),
            tail(sub, sub.len() as int) == tail(sub, hi - lo),
        decreases hi,
    {
        assert(sub[hi - lo - 1] == s@[hi - 1]);
        hi -= 1;
    }
    proof {
        if hi > lo {
            assert(sub[hi - lo - 1] == s@[hi - 1]);
        }
        assert(s@.subrange(lo as int, hi as int) =~= sub.take(hi - lo));
    }
    s.substring_char(lo, hi)
}

/// Whether the two texts hold the same characters.
pub fn same(a: &str, b: &str) -> (r: bool)
    ensures
        r == (a@ == b@),
{
    let x: Vec<char> = chars(a);
    let y: Vec<char> = chars(b);
    if x.len() != y.len() {
        return false;
    }
    let mut i: usize = 0;
    while i < x.len()
        invariant
            x@ == a@,
            y@ == b@,
            x@.len() == y@.len(),
            i <= x@.len(),
            forall|j: int| 0 <= j < i ==> x@[j] == y@[j],
        decreases x@.len() - i,
    {
        if x[i] != y[i] {
            return false;
        }
        i += 1;
    }
    assert(a@ =~= b@);
    true
}

/// An ASCII capital as its small letter; anything else as it is.
pub open spec fn lower(c: char) -> char {
    if 'A' <= c <= 'Z' {
        (c as u32 + 32) as char
    } else {
        c
    }
}

pub fn lower_char(c: char) -> (r: char)
    ensures
        r == lower(c),
{
    if 'A' <= c && c <= 'Z' {
        ((c as u8) + 32) as char
    } else {
        c
    }
}

/// `s` with its ASCII capitals made small.
pub open spec fn folded(s: Seq<char>) -> Seq<char> {
    Seq::new(s.len(), |i: int| lower(s[i]))
}

/// The same word, ASCII case aside.
pub open spec fn same_word(a: Seq<char>, b: Seq<char>) -> bool {
    folded(a) == folded(b)
}

/// Whether the two texts are the same word, ASCII case aside.
pub fn same_ignoring_case(a: &str, b: &str) -> (r: bool)
    ensures
        r == same_word(a@, b@),
{
    let x: Vec<char> = chars(a);
    let y: Vec<char> = chars(b);
    if x.len() != y.len() {
        assert(folded(a@).len() != folded(b@).len());
        return false;
    }
    let mut i: usize = 0;
    while i < x.len()
        invariant
            x@ == a@,
            y@ == b@,
            x@.len() == y@.len(),
            i <= x@.len(),
            forall|j: int| 0 <= j < i ==> lower(x@[j]) == lower(y@[j]),
        decreases x@.len() - i,
    {
        if lower_char(x[i]) != lower_char(y[i]) {
            assert(folded(a@)[i as int] != folded(b@)[i as int]);
            return false;
        }
        i += 1;
    }
    assert(folded(a@) =~= folded(b@));
    true
}

/// `s` with its ASCII capitals made small.
pub fn lowered(s: &str) -> (r: String)
    ensures
        r@ == folded(s@),
{
    let cs: Vec<char> = chars(s);
    let mut out: String = String::new();
    let mut i: usize = 0;
    while i < cs.len()
        invariant
            cs@ == s@,
            i <= cs@.len(),
            out@ == folded(s@.take(i as int)),
        decreases cs@.len() - i,
    {
        out.push(lower_char(cs[i]));
        i += 1;
        assert(folded(s@.take(i as int)) =~= folded(s@.take(i - 1)).push(lower(s@[i - 1])));
    }
    assert(s@.take(i as int) =~= s@);
    out
}

/// `s` without its last character.
pub open spec fn shortened(s: Seq<char>) -> Seq<char> {
    if s.len() == 0 {
        s
    } else {
        s.drop_last()
    }
}

/// `s` without its last character.
pub fn without_last(s: &str) -> (r: String)
    ensures
        r@ == shortened(s@),
{
    let n: usize = s.unicode_len();
    if n == 0 {
        s.to_owned()
    } else {
        assert(s@.subrange(0, n - 1) =~= s@.drop_last());
        s.substring_char(0, n - 1).to_owned()
    }
}

} // verus!
