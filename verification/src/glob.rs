//! Host name patterns: `*` spans any run of characters, `?` stands for one.

use vstd::prelude::*;
use crate::text::chars;

verus! {

/// `n` is a name that the pattern `p` describes.
pub open spec fn glob(p: Seq<char>, n: Seq<char>) -> bool
    decreases p.len() + n.len(),
{
    if p.len() == 0 {
        n.len() == 0
    } else if p[0] == '*' {
        glob(p.skip(1), n) || (n.len() > 0 && glob(p, n.skip(1)))
    } else {
        n.len() > 0 && (p[0] == '?' || p[0] == n[0]) && glob(p.skip(1), n.skip(1))
    }
}

/// The pattern behind the star at `s` describes the rest of `n` from some
/// position past `from`.
spec fn later(p: Seq<char>, n: Seq<char>, s: int, from: int) -> bool {
    exists|k: int| from < k <= n.len() && #[trigger] glob(p.skip(s + 1), n.skip(k))
}

/// A star takes up any run of characters, and nothing more.
pub proof fn lemma_star(p: Seq<char>, n: Seq<char>)
    requires
        p.len() > 0,
        p[0] == '*',
    ensures
        glob(p, n) <==> exists|k: int| 0 <= k <= n.len() && #[trigger] glob(p.skip(1), n.skip(k)),
    decreases n.len(),
{
    assert(n.skip(0) =~= n);
    if glob(p.skip(1), n) {
        assert(glob(p.skip(1), n.skip(0)));
    }
    if n.len() > 0 {
        let m = n.skip(1);
        lemma_star(p, m);
        if glob(p, m) {
            let k = choose|k: int| 0 <= k <= m.len() && #[trigger] glob(p.skip(1), m.skip(k));
            assert(m.skip(k) =~= n.skip(k + 1));
            assert(glob(p.skip(1), n.skip(k + 1)));
        }
        if exists|k: int| 0 <= k <= n.len() && #[trigger] glob(p.skip(1), n.skip(k)) {
            let k = choose|k: int| 0 <= k <= n.len() && #[trigger] glob(p.skip(1), n.skip(k));
            if k > 0 {
                assert(m.skip(k - 1) =~= n.skip(k));
                assert(glob(p.skip(1), m.skip(k - 1)));
            }
        }
    } else if exists|k: int| 0 <= k <= n.len() && #[trigger] glob(p.skip(1), n.skip(k)) {
        assert(glob(p.skip(1), n));
    }
}

/// The first `m` characters of a pattern, if none of them is a star, take up
/// the first `m` characters of the name.
proof fn lemma_literal(p: Seq<char>, n: Seq<char>, m: int)
    requires
        0 <= m <= p.len(),
        forall|i: int| 0 <= i < m ==> #[trigger] p[i] != '*',
        glob(p, n),
    ensures
        m <= n.len(),
        glob(p.skip(m), n.skip(m)),
    decreases m,
{
    if m == 0 {
        assert(p.skip(0) =~= p);
        assert(n.skip(0) =~= n);
    } else {
        assert(p[0] != '*');
        assert forall|i: int| 0 <= i < m - 1 implies #[trigger] p.skip(1)[i] != '*' by {
            assert(p.skip(1)[i] == p[i + 1]);
        }
        lemma_literal(p.skip(1), n.skip(1), m - 1);
        assert(p.skip(1).skip(m - 1) =~= p.skip(m));
        assert(n.skip(1).skip(m - 1) =~= n.skip(m));
    }
}

/// A pattern describes the empty name only if it is all stars.
proof fn lemma_empty_name(p: Seq<char>, n: Seq<char>)
    requires
        n.len() == 0,
    ensures
        glob(p, n) <==> forall|i: int| 0 <= i < p.len() ==> #[trigger] p[i] == '*',
    decreases p.len(),
{
    if p.len() > 0 {
        let q = p.skip(1);
        lemma_empty_name(q, n);
        if p[0] == '*' {
            if glob(p, n) {
                assert forall|i: int| 0 <= i < p.len() implies #[trigger] p[i] == '*' by {
                    if i > 0 {
                        assert(q[i - 1] == p[i]);
                    }
                }
            } else {
                let j = choose|j: int| 0 <= j < q.len() && #[trigger] q[j] != '*';
                assert(p[j + 1] != '*');
            }
        }
    }
}

/// Whether `pattern` describes `name`.
pub fn glob_match(pattern: &str, name: &str) -> (r: bool)
    ensures
        r == glob(pattern@, name@),
{
    let p: Vec<char> = chars(pattern);
    let n: Vec<char> = chars(name);
    let mut pi: usize = 0;
    let mut ni: usize = 0;
    let mut star: Option<usize> = None;
    let mut backtrack: usize = 0;
    proof {
        assert(p@.skip(0) =~= p@);
        assert(n@.skip(0) =~= n@);
    }
    while ni < n.len()
        invariant
            p@ == pattern@,
            n@ == name@,
            pi <= p@.len(),
            ni <= n@.len(),
            star matches Some(s) ==> s < pi && p@[s as int] == '*' && backtrack <= ni && ni
                - backtrack == pi - (s + 1) && forall|i: int|
                s < i < pi ==> #[trigger] p@[i] != '*',
            glob(p@, n@) == (glob(p@.skip(pi as int), n@.skip(ni as int)) || (star matches Some(s)
                && later(p@, n@, s as int, backtrack as int))),
        decreases
                (match star {
                    Some(s) => n@.len() - backtrack,
                    None => n@.len() as int + 1,
                }),
                p@.len() - pi,
    {
        let ghost rest = p@.skip(pi as int);
        let ghost left = n@.skip(ni as int);
        proof {
            if pi < p@.len() {
                assert(rest.skip(1) =~= p@.skip(pi + 1));
            }
            assert(left.skip(1) =~= n@.skip(ni + 1));
        }
        if pi < p.len() && p[pi] == '*' {
            proof {
                lemma_star(rest, left);
                if star is Some && later(p@, n@, star->0 as int, backtrack as int) {
                    let s = star->0 as int;
                    let k = choose|k: int|
                        backtrack < k <= n@.len() && #[trigger] glob(p@.skip(s + 1), n@.skip(k));
                    let m = pi - (s + 1);
                    let q = p@.skip(s + 1);
                    let t = n@.skip(k);
                    assert forall|i: int| 0 <= i < m implies #[trigger] q[i] != '*' by {
                        assert(q[i] == p@[s + 1 + i]);
                    }
                    lemma_literal(q, t, m);
                    assert(q.skip(m) =~= rest);
                    assert(t.skip(m) =~= n@.skip(k + m));
                    lemma_star(rest, n@.skip(k + m));
                    let j = choose|j: int|
                        0 <= j <= n@.skip(k + m).len() && #[trigger] glob(
                            rest.skip(1),
                            n@.skip(k + m).skip(j),
                        );
                    assert(n@.skip(k + m).skip(j) =~= left.skip(k + m + j - ni));
                    assert(glob(rest.skip(1), left.skip(k + m + j - ni)));
                }
                assert(glob(p@, n@) == glob(rest, left));
                if glob(rest, left) {
                    let k = choose|k: int|
                        0 <= k <= left.len() && #[trigger] glob(rest.skip(1), left.skip(k));
                    assert(left.skip(k) =~= n@.skip(ni + k));
                    if k > 0 {
                        assert(glob(p@.skip(pi + 1), n@.skip(ni + k)));
                        assert(later(p@, n@, pi as int, ni as int));
                    } else {
                        assert(glob(p@.skip(pi + 1), n@.skip(ni as int)));
                    }
                }
                if glob(p@.skip(pi + 1), left) {
                    assert(left.skip(0) =~= left);
                    assert(glob(rest.skip(1), left.skip(0)));
                }
                if later(p@, n@, pi as int, ni as int) {
                    let k = choose|k: int|
                        ni < k <= n@.len() && #[trigger] glob(p@.skip(pi + 1), n@.skip(k));
                    assert(left.skip(k - ni) =~= n@.skip(k));
                    assert(glob(rest.skip(1), left.skip(k - ni)));
                }
            }
            star = Some(pi);
            backtrack = ni;
            pi += 1;
        } else if pi < p.len() && (p[pi] == '?' || p[pi] == n[ni]) {
            pi += 1;
            ni += 1;
        } else {
            assert(!glob(rest, left));
            match star {
                Some(s) => {
                    proof {
                        assert(later(p@, n@, s as int, backtrack as int) == (glob(
                            p@.skip(s + 1),
                            n@.skip(backtrack + 1),
                        ) || later(p@, n@, s as int, backtrack + 1)));
                    }
                    pi = s + 1;
                    backtrack = backtrack + 1;
                    ni = backtrack;
                },
                None => {
                    return false;
                },
            }
        }
    }
    let ghost rest = p@.skip(pi as int);
    proof {
        lemma_empty_name(rest, n@.skip(ni as int));
        if star is Some && later(p@, n@, star->0 as int, backtrack as int) {
            let s = star->0 as int;
            let k = choose|k: int|
                backtrack < k <= n@.len() && #[trigger] glob(p@.skip(s + 1), n@.skip(k));
            let q = p@.skip(s + 1);
            assert forall|i: int| 0 <= i < pi - (s + 1) implies #[trigger] q[i] != '*' by {
                assert(q[i] == p@[s + 1 + i]);
            }
            lemma_literal(q, n@.skip(k), pi - (s + 1));
        }
    }
    while pi < p.len()
        invariant
            pi <= p@.len(),
            rest.len() <= p@.len(),
            rest == p@.skip(p@.len() - rest.len()),
            pi >= p@.len() - rest.len(),
            forall|i: int| p@.len() - rest.len() <= i < pi ==> #[trigger] p@[i] == '*',
            glob(pattern@, name@) <==> forall|i: int|
                0 <= i < rest.len() ==> #[trigger] rest[i] == '*',
        decreases p@.len() - pi,
    {
        if p[pi] != '*' {
            assert(rest[pi - (p@.len() - rest.len())] == p@[pi as int]);
            return false;
        }
        pi += 1;
    }
    assert forall|i: int| 0 <= i < rest.len() implies #[trigger] rest[i] == '*' by {
        assert(rest[i] == p@[p@.len() - rest.len() + i]);
    }
    true
}

/// The pattern `*` describes every name.
pub proof fn law_star_describes_all(n: Seq<char>)
    ensures
        glob(seq!['*'], n),
    decreases n.len(),
{
    let p = seq!['*'];
    assert(p.skip(1).len() == 0);
    if n.len() > 0 {
        law_star_describes_all(n.skip(1));
    } else {
        assert(glob(p.skip(1), n));
    }
}

/// A pattern without `*` and `?` describes one name: itself.
pub proof fn law_literal_describes_itself(p: Seq<char>, n: Seq<char>)
    requires
        forall|i: int| 0 <= i < p.len() ==> #[trigger] p[i] != '*' && p[i] != '?',
    ensures
        glob(p, n) <==> p == n,
    decreases p.len(),
{
    if p.len() == 0 {
        if n.len() == 0 {
            assert(p =~= n);
        }
    } else if n.len() > 0 {
        let q = p.skip(1);
        let m = n.skip(1);
        assert forall|i: int| 0 <= i < q.len() implies #[trigger] q[i] != '*' && q[i] != '?' by {
            assert(q[i] == p[i + 1]);
        }
        law_literal_describes_itself(q, m);
        assert(p[0] != '*' && p[0] != '?');
        if p[0] == n[0] && q == m {
            assert(p =~= seq![p[0]] + q);
            assert(n =~= seq![n[0]] + m);
        }
    }
}

/// A `?` describes exactly one character.
pub proof fn law_question_describes_one(n: Seq<char>)
    ensures
        glob(seq!['?'], n) <==> n.len() == 1,
{
    let p = seq!['?'];
    assert(p.skip(1).len() == 0);
    assert(p[0] == '?');
    if n.len() > 0 {
        assert(glob(p.skip(1), n.skip(1)) <==> n.skip(1).len() == 0);
    }
}

} // verus!
