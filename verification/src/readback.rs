//! What is read back of a line that was written.

use vstd::prelude::*;
use crate::form::{fresh_line, replaced};
use crate::sshconfig::{blank, directive, ends_key, key_end, past_blanks, past_separator, value_in};
use crate::text::{lead, lemma_lead, lemma_tail, lemma_trimmed, tail, trimmed, white};

verus! {

/// A value that a line can hold: it is not empty and has no white space at
/// either end.
pub open spec fn writable(v: Seq<char>) -> bool {
    v.len() > 0 && !white(v[0]) && !white(v.last())
}

/// At most one `=` stands in it.
pub open spec fn one_equals(sep: Seq<char>) -> bool {
    forall|i: int, j: int| 0 <= i < j < sep.len() ==> !(#[trigger] sep[i] == '=' && #[trigger] sep[j]
        == '=')
}

proof fn lemma_lead_is(s: Seq<char>, from: int, k: int)
    requires
        0 <= from <= k <= s.len(),
        forall|i: int| from <= i < k ==> white(#[trigger] s[i]),
        k == s.len() || !white(s[k]),
    ensures
        lead(s, from) == k,
    decreases k - from,
{
    if from < k {
        assert(white(s[from]));
        lemma_lead_is(s, from + 1, k);
    }
}

proof fn lemma_tail_is(s: Seq<char>, to: int, k: int)
    requires
        0 <= k <= to <= s.len(),
        forall|i: int| k <= i < to ==> white(#[trigger] s[i]),
        k == 0 || !white(s[k - 1]),
    ensures
        tail(s, to) == k,
    decreases to - k,
{
    if k < to {
        assert(white(s[to - 1]));
        lemma_tail_is(s, to - 1, k);
    }
}

/// Trimming cuts a text down to what stands between the white space at its
/// ends.
pub proof fn lemma_trimmed_is(s: Seq<char>, a: int, b: int)
    requires
        0 <= a < b <= s.len(),
        forall|i: int| 0 <= i < a ==> white(#[trigger] s[i]),
        forall|i: int| b <= i < s.len() ==> white(#[trigger] s[i]),
        !white(s[a]),
        !white(s[b - 1]),
    ensures
        trimmed(s) == s.subrange(a, b),
{
    lemma_lead_is(s, 0, a);
    let t = s.skip(a);
    assert(t[b - a - 1] == s[b - 1]);
    assert forall|i: int| b - a <= i < t.len() implies white(#[trigger] t[i]) by {
        assert(t[i] == s[a + i]);
    }
    lemma_tail_is(t, t.len() as int, b - a);
    assert(trimmed(s) =~= s.subrange(a, b));
}

/// Where the text between the white space at the ends lies.
pub proof fn lemma_trimmed_span(s: Seq<char>) -> (span: (int, int))
    requires
        trimmed(s).len() > 0,
    ensures
        0 <= span.0 < span.1 <= s.len(),
        span.0 == lead(s, 0),
        trimmed(s) == s.subrange(span.0, span.1),
        !white(s[span.0]),
        !white(s[span.1 - 1]),
        forall|i: int| 0 <= i < span.0 ==> white(#[trigger] s[i]),
        forall|i: int| span.1 <= i < s.len() ==> white(#[trigger] s[i]),
{
    lemma_lead(s, 0);
    let a = lead(s, 0);
    let t = s.skip(a);
    lemma_tail(t, t.len() as int);
    let n = tail(t, t.len() as int);
    assert(trimmed(s) =~= s.subrange(a, a + n));
    assert(t[n - 1] == s[a + n - 1]);
    assert forall|i: int| a + n <= i < s.len() implies white(#[trigger] s[i]) by {
        assert(t[i - a] == s[i]);
    }
    (a, a + n)
}

pub proof fn lemma_key_end_is(s: Seq<char>, from: int, k: int)
    requires
        0 <= from <= k <= s.len(),
        forall|i: int| from <= i < k ==> !ends_key(#[trigger] s[i]),
        k == s.len() || ends_key(s[k]),
    ensures
        key_end(s, from) == k,
    decreases k - from,
{
    if from < k {
        assert(!ends_key(s[from]));
        lemma_key_end_is(s, from + 1, k);
    }
}

pub proof fn lemma_key_end_at(s: Seq<char>, from: int)
    requires
        0 <= from <= s.len(),
    ensures
        from <= key_end(s, from) <= s.len(),
        forall|i: int| from <= i < key_end(s, from) ==> !ends_key(#[trigger] s[i]),
        key_end(s, from) < s.len() ==> ends_key(s[key_end(s, from)]),
    decreases s.len() - from,
{
    if from < s.len() && !ends_key(s[from]) {
        lemma_key_end_at(s, from + 1);
    }
}

pub proof fn lemma_separator_at(s: Seq<char>, from: int)
    requires
        0 <= from <= s.len(),
    ensures
        from <= past_separator(s, from) <= s.len(),
        forall|i: int| from <= i < past_separator(s, from) ==> ends_key(#[trigger] s[i]),
        from < s.len() && ends_key(s[from]) ==> past_separator(s, from) > from,
    decreases s.len() - from,
{
    if from < s.len() && ends_key(s[from]) {
        lemma_separator_at(s, from + 1);
    }
}

pub proof fn lemma_past_blanks_is(s: Seq<char>, from: int, k: int)
    requires
        0 <= from <= k <= s.len(),
        forall|i: int| from <= i < k ==> blank(#[trigger] s[i]),
        k == s.len() || !blank(s[k]),
    ensures
        past_blanks(s, from) == k,
    decreases k - from,
{
    if from < k {
        assert(blank(s[from]));
        lemma_past_blanks_is(s, from + 1, k);
    }
}

/// Behind a separator with at most one `=` a value reads back as it is. Where
/// the separator has none, the value must not begin with one.
pub proof fn lemma_value_behind(sep: Seq<char>, v: Seq<char>)
    requires
        forall|i: int| 0 <= i < sep.len() ==> ends_key(#[trigger] sep[i]),
        one_equals(sep),
        writable(v),
        sep.contains('=') || v[0] != '=',
    ensures
        value_in(sep + v) == v,
{
    let r = sep + v;
    assert(r[sep.len() as int] == v[0]);
    assert(r.last() == v.last());
    if sep.contains('=') {
        let z = choose|z: int| 0 <= z < sep.len() && sep[z] == '=';
        assert forall|i: int| 0 <= i < z implies blank(#[trigger] r[i]) by {
            assert(r[i] == sep[i]);
            assert(ends_key(sep[i]));
            assert(!(sep[i] == '=' && sep[z] == '='));
        }
        assert(r[z] == '=');
        lemma_past_blanks_is(r, 0, z);
        let w = r.skip(z);
        assert(w[0] == '=');
        let u = w.skip(1);
        let g = sep.len() - z - 1;
        assert forall|i: int| 0 <= i < g implies white(#[trigger] u[i]) by {
            assert(u[i] == sep[z + 1 + i]);
            assert(ends_key(sep[z + 1 + i]));
            assert(!(sep[z] == '=' && sep[z + 1 + i] == '='));
        }
        assert(u[g] == v[0]);
        assert(u[u.len() - 1] == v.last());
        lemma_trimmed_is(u, g, u.len() as int);
        assert(u.subrange(g, u.len() as int) =~= v);
    } else {
        assert forall|i: int| 0 <= i < sep.len() implies blank(#[trigger] r[i]) by {
            assert(r[i] == sep[i]);
            assert(ends_key(sep[i]));
            assert(sep.contains(sep[i]));
        }
        lemma_past_blanks_is(r, 0, sep.len() as int);
        assert(r.skip(sep.len() as int) =~= v);
        lemma_trimmed_is(v, 0, v.len() as int);
        assert(v.subrange(0, v.len() as int) =~= v);
    }
}

/// The keyword of the line ends before the white space at the line's end.
pub open spec fn keeps_keyword(line: Seq<char>) -> bool {
    &&& directive(line) is Some
    &&& key_end(line, lead(line, 0)) <= lead(line, 0) + trimmed(line).len()
}

/// What stands between the keyword of a line and a value that is put there.
pub open spec fn separator(line: Seq<char>) -> Seq<char> {
    let k = key_end(line, lead(line, 0));
    let e = past_separator(line, k);
    if e == k {
        " "@
    } else {
        line.subrange(k, e)
    }
}

/// A line whose value can be replaced so that it reads back: it is a directive,
/// its keyword ends before the white space at its end, and the separator behind
/// the keyword is a plain one for the value.
pub open spec fn takes(line: Seq<char>, v: Seq<char>) -> bool {
    let k = key_end(line, lead(line, 0));
    let sep = line.subrange(k, past_separator(line, k));
    &&& keeps_keyword(line)
    &&& one_equals(sep)
    &&& sep.contains('=') || v[0] != '='
}

/// A line that was given another value keeps its keyword, whatever the value.
pub proof fn law_replaced_line_keeps_keyword(line: Seq<char>, v: Seq<char>)
    requires
        keeps_keyword(line),
        writable(v),
    ensures
        directive(replaced(line, v)) == Some(
            ((directive(line)->0).0, value_in(separator(line) + v)),
        ),
        forall|i: int| 0 <= i < separator(line).len() ==> ends_key(#[trigger] separator(line)[i]),
{
    let (a, b) = lemma_trimmed_span(line);
    let t0 = trimmed(line);
    lemma_key_end_at(line, a);
    let k = key_end(line, a);
    lemma_separator_at(line, k);
    let e = past_separator(line, k);
    // The keyword of the line as it was.
    assert forall|i: int| 0 <= i < k - a implies !ends_key(#[trigger] t0[i]) by {
        assert(t0[i] == line[a + i]);
    }
    if k < b {
        assert(t0[k - a] == line[k]);
    }
    lemma_key_end_is(t0, 0, k - a);
    assert(t0.take(k - a) =~= line.subrange(a, k));
    // The line as it is written.
    reveal_strlit(" ");
    let head = if e == k {
        line.take(k) + " "@
    } else {
        line.take(e)
    };
    let now = replaced(line, v);
    assert(now =~= head + v);
    let p = head.len() as int;
    assert(p > k && p > a) by {
        if k == a {
            assert(ends_key(line[k]));
        }
    }
    assert(now[a] == line[a]);
    assert forall|i: int| 0 <= i < a implies white(#[trigger] now[i]) by {
        assert(now[i] == line[i]);
    }
    assert(now[now.len() - 1] == v.last());
    lemma_trimmed_is(now, a, now.len() as int);
    let t = trimmed(now);
    assert(t[0] == line[a]);
    assert(t0[0] == line[a]);
    assert forall|i: int| 0 <= i < k - a implies !ends_key(#[trigger] t[i]) by {
        assert(t[i] == line[a + i]);
    }
    assert(t[k - a] == head[k]);
    assert(ends_key(head[k]));
    lemma_key_end_is(t, 0, k - a);
    assert(t.take(k - a) =~= line.subrange(a, k));
    let sep = separator(line);
    assert(head.subrange(k, p) =~= sep);
    assert(t.skip(k - a) =~= sep + v);
    assert forall|i: int| 0 <= i < sep.len() implies ends_key(#[trigger] sep[i]) by {
        if e != k {
            assert(sep[i] == line[k + i]);
        }
    }
}

/// A line that was given a new value reads back as the keyword it had and the
/// new value.
pub proof fn law_replaced_line_reads_back(line: Seq<char>, v: Seq<char>)
    requires
        takes(line, v),
        writable(v),
    ensures
        directive(replaced(line, v)) == Some(((directive(line)->0).0, v)),
{
    law_replaced_line_keeps_keyword(line, v);
    lemma_lead(line, 0);
    let k = key_end(line, lead(line, 0));
    lemma_key_end_at(line, lead(line, 0));
    lemma_separator_at(line, k);
    let e = past_separator(line, k);
    if e == k {
        reveal_strlit(" ");
        assert(!line.subrange(k, e).contains('='));
    }
    lemma_value_behind(separator(line), v);
}

/// The white space of the line is made of spaces and tabs.
pub open spec fn plain_spaced(line: Seq<char>) -> bool {
    forall|i: int| 0 <= i < line.len() && white(#[trigger] line[i]) ==> blank(line[i])
}

/// Where the value of a line starts.
pub open spec fn value_start(line: Seq<char>) -> int {
    past_separator(line, key_end(line, lead(line, 0)))
}

proof fn lemma_past_separator_is(s: Seq<char>, from: int, k: int)
    requires
        0 <= from <= k <= s.len(),
        forall|i: int| from <= i < k ==> ends_key(#[trigger] s[i]),
        k == s.len() || !ends_key(s[k]),
    ensures
        past_separator(s, from) == k,
    decreases k - from,
{
    if from < k {
        assert(ends_key(s[from]));
        lemma_past_separator_is(s, from + 1, k);
    }
}

pub proof fn lemma_past_blanks_at(s: Seq<char>, from: int)
    requires
        0 <= from <= s.len(),
    ensures
        from <= past_blanks(s, from) <= s.len(),
        forall|i: int| from <= i < past_blanks(s, from) ==> blank(#[trigger] s[i]),
        past_blanks(s, from) < s.len() ==> !blank(s[past_blanks(s, from)]),
    decreases s.len() - from,
{
    if from < s.len() && blank(s[from]) {
        lemma_past_blanks_at(s, from + 1);
    }
}

/// Where the value lies in what stands behind a keyword: behind a separator with
/// at most one `=`, and up to the end.
proof fn lemma_value_in_lies(rest: Seq<char>)
    requires
        plain_spaced(rest),
        value_in(rest).len() > 0,
        value_in(rest)[0] != '=',
        !white(rest.last()),
    ensures
        ({
            let s = past_separator(rest, 0);
            &&& 0 <= s < rest.len()
            &&& value_in(rest) == rest.skip(s)
            &&& one_equals(rest.take(s))
        }),
{
    lemma_past_blanks_at(rest, 0);
    let p = past_blanks(rest, 0);
    let v = rest.skip(p);
    let equals = v.len() > 0 && v[0] == '=';
    let u = if equals {
        v.skip(1)
    } else {
        v
    };
    let (q, z) = lemma_trimmed_span(u);
    let s = rest.len() - u.len() + q;
    assert(u[q] == rest[s]);
    assert(u[u.len() - 1] == rest.last());
    assert(z == u.len()) by {
        if z < u.len() {
            assert(white(u[u.len() - 1]));
        }
    }
    assert(value_in(rest) =~= rest.skip(s));
    assert(value_in(rest)[0] == rest[s]);
    assert forall|i: int| 0 <= i < s && !(equals && i == p) implies blank(#[trigger] rest[i]) by {
        if i >= rest.len() - u.len() {
            assert(u[i - (rest.len() - u.len())] == rest[i]);
        }
    }
    if equals {
        assert(rest[p] == v[0]);
    }
    lemma_past_separator_is(rest, 0, s);
    let sep = rest.take(s);
    assert forall|i: int, j: int| 0 <= i < j < sep.len() implies !(#[trigger] sep[i] == '='
        && #[trigger] sep[j] == '=') by {
        assert(sep[i] == rest[i] && sep[j] == rest[j]);
        if i != p {
            assert(blank(rest[i]));
        } else {
            assert(blank(rest[j]));
        }
    }
}

/// The keyword of a plain line ends before the white space at its end.
pub proof fn lemma_keyword_lies(line: Seq<char>)
    requires
        plain_spaced(line),
        directive(line) is Some,
    ensures
        ({
            let a = lead(line, 0);
            let k = key_end(line, a);
            let b = a + trimmed(line).len();
            &&& 0 <= a <= k <= b <= line.len()
            &&& a < b
            &&& keeps_keyword(line)
            &&& directive(line) == Some((line.subrange(a, k), value_in(line.subrange(k, b))))
        }),
{
    let (a, b) = lemma_trimmed_span(line);
    let t = trimmed(line);
    lemma_key_end_at(line, a);
    let k = key_end(line, a);
    assert(k <= b) by {
        if b < k {
            assert(white(line[b]));
            assert(blank(line[b]));
            assert(!ends_key(line[b]));
        }
    }
    assert forall|i: int| 0 <= i < k - a implies !ends_key(#[trigger] t[i]) by {
        assert(t[i] == line[a + i]);
    }
    if k < b {
        assert(t[k - a] == line[k]);
    }
    lemma_key_end_is(t, 0, k - a);
    assert(t.take(k - a) =~= line.subrange(a, k));
    assert(t.skip(k - a) =~= line.subrange(k, b));
}

/// Where the value of a plain line lies: behind its keyword and a separator with
/// at most one `=`, and up to the white space at its end.
proof fn lemma_value_lies(line: Seq<char>)
    requires
        plain_spaced(line),
        directive(line) is Some,
        (directive(line)->0).1.len() > 0,
        (directive(line)->0).1[0] != '=',
    ensures
        ({
            let a = lead(line, 0);
            let k = key_end(line, a);
            let s = value_start(line);
            let b = a + trimmed(line).len();
            &&& a <= k < s < b <= line.len()
            &&& keeps_keyword(line)
            &&& directive(line) == Some((line.subrange(a, k), line.subrange(s, b)))
            &&& one_equals(line.subrange(k, s))
        }),
{
    lemma_keyword_lies(line);
    let (a, b) = lemma_trimmed_span(line);
    lemma_key_end_at(line, a);
    let k = key_end(line, a);
    let rest = line.subrange(k, b);
    assert(k < b) by {
        if k == b {
            assert(rest =~= Seq::<char>::empty());
            assert(past_blanks(rest, 0) == 0);
            lemma_trimmed(rest);
        }
    }
    assert(rest.last() == line[b - 1]);
    assert forall|i: int| 0 <= i < rest.len() && white(#[trigger] rest[i]) implies blank(
        rest[i],
    ) by {
        assert(rest[i] == line[k + i]);
    }
    lemma_value_in_lies(rest);
    lemma_separator_at(rest, 0);
    let n = past_separator(rest, 0);
    assert(ends_key(rest[0])) by {
        assert(rest[0] == line[k]);
    }
    assert forall|i: int| k <= i < k + n implies ends_key(#[trigger] line[i]) by {
        assert(rest[i - k] == line[i]);
    }
    assert(!ends_key(line[k + n])) by {
        assert(rest[n] == line[k + n]);
        assert(rest.skip(n)[0] == rest[n]);
        assert(!white(rest[n])) by {
            lemma_value_not_white(rest);
        }
        assert(!blank(rest[n]));
    }
    lemma_past_separator_is(line, k, k + n);
    assert(rest.skip(n) =~= line.subrange(k + n, b));
    assert(rest.take(n) =~= line.subrange(k, k + n));
}

/// A value does not begin with white space.
proof fn lemma_value_not_white(rest: Seq<char>)
    requires
        value_in(rest).len() > 0,
    ensures
        !white(value_in(rest)[0]),
{
    let v = rest.skip(past_blanks(rest, 0));
    lemma_trimmed(v);
    lemma_trimmed(v.skip(1));
}

/// A plain line takes any value that does not begin with `=`, if its own does
/// not.
pub proof fn law_plain_line_takes(line: Seq<char>, v: Seq<char>)
    requires
        plain_spaced(line),
        directive(line) is Some,
        (directive(line)->0).1.len() > 0 ==> (directive(line)->0).1[0] != '=',
        v.len() > 0,
        v[0] != '=',
    ensures
        takes(line, v),
{
    lemma_keyword_lies(line);
    if (directive(line)->0).1.len() > 0 {
        lemma_value_lies(line);
    } else {
        let (a, b) = lemma_trimmed_span(line);
        lemma_key_end_at(line, a);
        let k = key_end(line, a);
        lemma_separator_at(line, k);
        let e = past_separator(line, k);
        let sep = line.subrange(k, e);
        let rest = line.subrange(k, b);
        lemma_past_blanks_at(rest, 0);
        let p = past_blanks(rest, 0);
        assert(rest.len() > 0 ==> rest.last() == line[b - 1]);
        lemma_no_value(rest);
        assert forall|i: int, j: int| 0 <= i < j < sep.len() implies !(#[trigger] sep[i] == '='
            && #[trigger] sep[j] == '=') by {
            assert(sep[i] == line[k + i] && sep[j] == line[k + j]);
            if k + j >= b {
                assert(white(line[k + j]));
            } else {
                assert(rest[i] == line[k + i]);
                assert(i < p);
            }
        }
    }
}

/// What stands behind a keyword without a value is blank up to its last
/// character.
proof fn lemma_no_value(rest: Seq<char>)
    requires
        value_in(rest).len() == 0,
        rest.len() > 0 ==> !white(rest.last()),
    ensures
        rest.len() > 0 ==> past_blanks(rest, 0) == rest.len() - 1,
{
    lemma_past_blanks_at(rest, 0);
    let p = past_blanks(rest, 0);
    if rest.len() > 0 {
        let v = rest.skip(p);
        assert(p < rest.len()) by {
            if p == rest.len() {
                assert(blank(rest[rest.len() - 1]));
            }
        }
        assert(v.last() == rest.last());
        let u = if v[0] == '=' {
            v.skip(1)
        } else {
            v
        };
        if u.len() > 0 {
            assert(u.last() == rest.last());
            lemma_lead(u, 0);
            let t = u.skip(lead(u, 0));
            assert(lead(u, 0) < u.len()) by {
                if lead(u, 0) == u.len() {
                    assert(white(u[u.len() - 1]));
                }
            }
            assert(t[t.len() - 1] == u.last());
            assert(tail(t, t.len() as int) == t.len());
            assert(trimmed(u).len() > 0);
        }
    }
}

/// A line that is cut off where its value starts reads back as its keyword
/// without a value.
proof fn lemma_cut_line_reads_back(line: Seq<char>)
    requires
        plain_spaced(line),
        directive(line) is Some,
        (directive(line)->0).1.len() > 0,
        (directive(line)->0).1[0] != '=',
    ensures
        directive(line.take(value_start(line))) == Some(
            ((directive(line)->0).0, Seq::<char>::empty()),
        ),
{
    lemma_value_lies(line);
    let (a, b) = lemma_trimmed_span(line);
    lemma_key_end_at(line, a);
    let k = key_end(line, a);
    lemma_separator_at(line, k);
    let s = value_start(line);
    let now = line.take(s);
    let sep = line.subrange(k, s);
    // The last character that is not white.
    let equals = sep.contains('=');
    let z = if equals {
        k + choose|i: int| 0 <= i < sep.len() && sep[i] == '='
    } else {
        k - 1
    };
    assert forall|i: int| k <= i < s && i != z implies blank(#[trigger] now[i]) by {
        assert(now[i] == sep[i - k]);
        assert(ends_key(line[i]));
        if now[i] == '=' {
            assert(sep.contains(sep[i - k]));
            if i < z {
                assert(!(sep[i - k] == '=' && sep[z - k] == '='));
            } else {
                assert(!(sep[z - k] == '=' && sep[i - k] == '='));
            }
        }
    }
    assert(trimmed(line)[0] == line[a]);
    if !equals {
        assert(k > a) by {
            if k == a {
                assert(ends_key(line[a]));
                assert(blank(now[a]));
                assert(white(line[a]));
            }
        }
        assert(!white(now[z])) by {
            assert(!ends_key(line[k - 1]));
        }
    } else {
        assert(now[z] == sep[z - k]);
    }
    assert(now[a] == line[a]);
    assert forall|i: int| 0 <= i < a implies white(#[trigger] now[i]) by {
        assert(now[i] == line[i]);
    }
    assert forall|i: int| z + 1 <= i < now.len() implies white(#[trigger] now[i]) by {
        assert(blank(now[i]));
    }
    lemma_trimmed_is(now, a, z + 1);
    let t = trimmed(now);
    assert(t[0] == line[a]);
    assert forall|i: int| 0 <= i < k - a implies !ends_key(#[trigger] t[i]) by {
        assert(t[i] == line[a + i]);
    }
    if equals {
        assert(t[k - a] == line[k]);
    }
    lemma_key_end_is(t, 0, k - a);
    assert(t.take(k - a) =~= line.subrange(a, k));
    let rest = t.skip(k - a);
    let none = Seq::<char>::empty();
    lemma_trimmed(none);
    assert(trimmed(none) =~= none);
    if equals {
        assert(rest.len() == z - k + 1);
        assert forall|i: int| 0 <= i < z - k implies blank(#[trigger] rest[i]) by {
            assert(rest[i] == now[k + i]);
        }
        assert(rest[z - k] == now[z]);
        lemma_past_blanks_is(rest, 0, z - k);
        assert(rest.skip(z - k).skip(1) =~= none);
    } else {
        assert(rest =~= none);
        assert(past_blanks(rest, 0) == 0);
        assert(rest.skip(0) =~= none);
    }
}

/// A new value goes exactly where the old one stood: the indentation, the
/// spelling of the keyword and the separator stay, and the line reads back as
/// its keyword and the new value.
pub proof fn law_value_is_replaced_in_place(line: Seq<char>, v: Seq<char>)
    requires
        plain_spaced(line),
        directive(line) is Some,
        (directive(line)->0).1.len() > 0,
        (directive(line)->0).1[0] != '=',
        trimmed(v) == v,
        v.len() > 0 ==> v[0] != '=',
    ensures
        ({
            let (key, old) = directive(line)->0;
            let s = value_start(line);
            &&& 0 <= s <= s + old.len() <= line.len()
            &&& line.subrange(s, s + old.len()) == old
            &&& forall|i: int| s + old.len() <= i < line.len() ==> white(#[trigger] line[i])
            &&& replaced(line, v) == line.take(s) + v
            &&& directive(replaced(line, v)) == Some((key, v))
        }),
{
    lemma_value_lies(line);
    let (a, b) = lemma_trimmed_span(line);
    let s = value_start(line);
    lemma_trimmed(v);
    if v.len() > 0 {
        law_replaced_line_reads_back(line, v);
    } else {
        assert(replaced(line, v) =~= line.take(s));
        lemma_cut_line_reads_back(line);
        assert(v =~= Seq::<char>::empty());
    }
}

/// A keyword as a line holds it.
pub open spec fn plain_keyword(keyword: Seq<char>) -> bool {
    &&& keyword.len() > 0
    &&& keyword[0] != '#'
    &&& forall|i: int|
        0 <= i < keyword.len() ==> !ends_key(#[trigger] keyword[i]) && !white(keyword[i])
}

/// A line that was put in has its keyword, whatever the value.
pub proof fn law_fresh_line_has_keyword(indent: Seq<char>, keyword: Seq<char>, v: Seq<char>)
    requires
        forall|i: int| 0 <= i < indent.len() ==> white(#[trigger] indent[i]),
        plain_keyword(keyword),
        writable(v),
    ensures
        directive(fresh_line(indent, keyword, v)) == Some((keyword, value_in(" "@ + v))),
{
    reveal_strlit(" ");
    let now = fresh_line(indent, keyword, v);
    let a = indent.len() as int;
    assert(now[a] == keyword[0]);
    assert forall|i: int| 0 <= i < a implies white(#[trigger] now[i]) by {
        assert(now[i] == indent[i]);
    }
    assert(now[now.len() - 1] == v.last());
    lemma_trimmed_is(now, a, now.len() as int);
    let t = trimmed(now);
    let n = keyword.len() as int;
    assert(t[0] == keyword[0]);
    assert forall|i: int| 0 <= i < n implies !ends_key(#[trigger] t[i]) by {
        assert(t[i] == keyword[i]);
    }
    assert(t[n] == ' ');
    lemma_key_end_is(t, 0, n);
    assert(t.take(n) =~= keyword);
    assert(t.skip(n) =~= " "@ + v);
}

/// A line that was put in reads back as its keyword and its value.
pub proof fn law_fresh_line_reads_back(indent: Seq<char>, keyword: Seq<char>, v: Seq<char>)
    requires
        forall|i: int| 0 <= i < indent.len() ==> white(#[trigger] indent[i]),
        plain_keyword(keyword),
        writable(v),
        v[0] != '=',
    ensures
        directive(fresh_line(indent, keyword, v)) == Some((keyword, v)),
{
    reveal_strlit(" ");
    law_fresh_line_has_keyword(indent, keyword, v);
    lemma_value_behind(" "@, v);
}

} // verus!
