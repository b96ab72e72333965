//! Looking for characters and texts inside a text.

use vstd::prelude::*;
use crate::text::chars;

verus! {

/// `part` occurs in `s`.
pub open spec fn holds(s: Seq<char>, part: Seq<char>) -> bool {
    exists|i: int|
        0 <= i <= s.len() - part.len() && #[trigger] s.subrange(i, i + part.len()) == part
}

/// `s` begins with `part`.
pub open spec fn begins(s: Seq<char>, part: Seq<char>) -> bool {
    part.len() <= s.len() && s.take(part.len() as int) == part
}

/// The last position of `c` in `s`, or -1.
pub open spec fn last_of(s: Seq<char>, c: char) -> int
    decreases s.len(),
{
    if s.len() == 0 {
        -1
    } else if s.last() == c {
        s.len() - 1
    } else {
        last_of(s.drop_last(), c)
    }
}

/// The first position of `c` in `s` at or after `from`, or the length of `s`.
pub open spec fn first_of(s: Seq<char>, c: char, from: int) -> int
    decreases s.len() - from,
{
    if from >= s.len() {
        s.len() as int
    } else if s[from] == c {
        from
    } else {
        first_of(s, c, from + 1)
    }
}

pub proof fn lemma_last_of(s: Seq<char>, c: char)
    ensures
        -1 <= last_of(s, c) < s.len(),
        last_of(s, c) >= 0 ==> s[last_of(s, c)] == c,
        forall|i: int| last_of(s, c) < i < s.len() ==> #[trigger] s[i] != c,
    decreases s.len(),
{
    if s.len() > 0 && s.last() != c {
        lemma_last_of(s.drop_last(), c);
        assert forall|i: int| last_of(s, c) < i < s.len() implies #[trigger] s[i] != c by {
            if i < s.len() - 1 {
                assert(s[i] == s.drop_last()[i]);
            }
        }
    }
}

/// The part of `s` behind the last `c`, or all of `s`.
pub open spec fn after_last(s: Seq<char>, c: char) -> Seq<char> {
    s.skip(last_of(s, c) + 1)
}

/// The last position of `c`, if there is one.
pub fn rfind(s: &[char], c: char) -> (r: Option<usize>)
    ensures
        r is Some <==> last_of(s@, c) >= 0,
        r matches Some(i) ==> i == last_of(s@, c) && i < s@.len(),
{
    let mut i: usize = s.len();
    assert(s@.take(i as int) =~= s@);
    while i > 0
        invariant
            i <= s@.len(),
            last_of(s@, c) == last_of(s@.take(i as int), c),
        decreases i,
    {
        assert(s@.take(i as int).last() == s@[i - 1]);
        if s[i - 1] == c {
            return Some(i - 1);
        }
        assert(s@.take(i as int).drop_last() =~= s@.take(i - 1));
        i -= 1;
    }
    None
}

/// The first position of `c`, if there is one.
pub fn find_char(s: &[char], c: char) -> (r: Option<usize>)
    ensures
        r is Some <==> first_of(s@, c, 0) < s@.len(),
        r matches Some(i) ==> i == first_of(s@, c, 0),
{
    let mut i: usize = 0;
    while i < s.len()
        invariant
            i <= s@.len(),
            first_of(s@, c, 0) == first_of(s@, c, i as int),
        decreases s@.len() - i,
    {
        if s[i] == c {
            return Some(i);
        }
        i += 1;
    }
    None
}

pub proof fn lemma_first_of(s: Seq<char>, c: char, from: int)
    requires
        0 <= from <= s.len(),
    ensures
        from <= first_of(s, c, from) <= s.len(),
        first_of(s, c, from) < s.len() ==> s[first_of(s, c, from)] == c,
        forall|i: int| from <= i < first_of(s, c, from) ==> #[trigger] s[i] != c,
    decreases s.len() - from,
{
    if from < s.len() && s[from] != c {
        lemma_first_of(s, c, from + 1);
    }
}

/// The part of `s` behind the last `c`, or all of `s`.
pub fn last_piece<'a>(s: &'a str, c: char) -> (r: &'a str)
    ensures
        r@ == after_last(s@, c),
{
    let cs: Vec<char> = chars(s);
    let n: usize = cs.len();
    match rfind(cs.as_slice(), c) {
        Some(i) => {
            assert(s@.subrange(i + 1, n as int) =~= s@.skip(i + 1));
            s.substring_char(i + 1, n)
        },
        None => {
            proof {
                lemma_last_of(s@, c);
            }
            assert(s@.skip(0) =~= s@);
            s
        },
    }
}

/// Whether `s` begins with `part`.
pub fn starts_with(s: &str, part: &str) -> (r: bool)
    ensures
        r == begins(s@, part@),
{
    let x: Vec<char> = chars(s);
    let y: Vec<char> = chars(part);
    x.len() >= y.len() && matches_at(x.as_slice(), y.as_slice(), 0)
}

fn matches_at(s: &[char], part: &[char], at: usize) -> (r: bool)
    requires
        at + part@.len() <= s@.len(),
    ensures
        r == (s@.subrange(at as int, at + part@.len()) == part@),
        at == 0 ==> r == (s@.take(part@.len() as int) == part@),
{
    let n: usize = s.len();
    let mut i: usize = 0;
    assert(s@.subrange(0, part@.len() as int) =~= s@.take(part@.len() as int));
    while i < part.len()
        invariant
            n == s@.len(),
            at + part@.len() <= n,
            i <= part@.len(),
            forall|k: int| 0 <= k < i ==> s@[at + k] == #[trigger] part@[k],
            s@.subrange(0, part@.len() as int) == s@.take(part@.len() as int),
        decreases part@.len() - i,
    {
        if s[at + i] != part[i] {
            assert(s@.subrange(at as int, at + part@.len())[i as int] != part@[i as int]);
            return false;
        }
        i += 1;
    }
    assert(s@.subrange(at as int, at + part@.len()) =~= part@);
    true
}

/// Whether `part` occurs in `s`.
pub fn contains(s: &str, part: &str) -> (r: bool)
    ensures
        r == holds(s@, part@),
{
    let x: Vec<char> = chars(s);
    let y: Vec<char> = chars(part);
    if y.len() > x.len() {
        return false;
    }
    let mut i: usize = 0;
    let last: usize = x.len() - y.len();
    while i <= last
        invariant
            x@ == s@,
            y@ == part@,
            last == x@.len() - y@.len(),
            i <= last + 1,
            forall|k: int|
                0 <= k < i ==> #[trigger] s@.subrange(k, k + part@.len()) != part@,
        decreases last + 1 - i,
    {
        if matches_at(x.as_slice(), y.as_slice(), i) {
            return true;
        }
        if i == last {
            return false;
        }
        i += 1;
    }
    false
}

/// `s` ends with `part`.
pub open spec fn finishes(s: Seq<char>, part: Seq<char>) -> bool {
    part.len() <= s.len() && s.subrange(s.len() - part.len(), s.len() as int) == part
}

/// Whether `s` ends with `part`.
pub fn ends_with(s: &str, part: &str) -> (r: bool)
    ensures
        r == finishes(s@, part@),
{
    let x: Vec<char> = chars(s);
    let y: Vec<char> = chars(part);
    x.len() >= y.len() && matches_at(x.as_slice(), y.as_slice(), x.len() - y.len())
}

} // verus!
