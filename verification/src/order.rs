//! The order of texts, and lists kept in that order.

use vstd::prelude::*;
use crate::text::{chars, views};

verus! {

/// `a` comes before `b`: by the first character in which they differ, or as
/// its proper beginning.
pub open spec fn before(a: Seq<char>, b: Seq<char>) -> bool
    decreases a.len(),
{
    if b.len() == 0 {
        false
    } else if a.len() == 0 {
        true
    } else if a[0] != b[0] {
        a[0] < b[0]
    } else {
        before(a.skip(1), b.skip(1))
    }
}

pub proof fn lemma_before_irreflexive(a: Seq<char>)
    ensures
        !before(a, a),
    decreases a.len(),
{
    if a.len() > 0 {
        lemma_before_irreflexive(a.skip(1));
    }
}

pub proof fn lemma_before_transitive(a: Seq<char>, b: Seq<char>, c: Seq<char>)
    requires
        before(a, b),
        before(b, c),
    ensures
        before(a, c),
    decreases a.len(),
{
    if a.len() > 0 && b.len() > 0 && c.len() > 0 && a[0] == b[0] && b[0] == c[0] {
        lemma_before_transitive(a.skip(1), b.skip(1), c.skip(1));
    }
}

pub proof fn lemma_before_total(a: Seq<char>, b: Seq<char>)
    ensures
        before(a, b) || before(b, a) || a == b,
    decreases a.len(),
{
    if a.len() > 0 && b.len() > 0 && a[0] == b[0] {
        lemma_before_total(a.skip(1), b.skip(1));
        if a.skip(1) == b.skip(1) {
            assert(a =~= seq![a[0]] + a.skip(1));
            assert(b =~= seq![b[0]] + b.skip(1));
        }
    } else if a.len() == 0 && b.len() == 0 {
        assert(a =~= b);
    }
}

/// Whether `a` comes before `b`.
pub fn comes_before(a: &str, b: &str) -> (r: bool)
    ensures
        r == before(a@, b@),
{
    let x: Vec<char> = chars(a);
    let y: Vec<char> = chars(b);
    let mut i: usize = 0;
    proof {
        assert(a@.skip(0) =~= a@);
        assert(b@.skip(0) =~= b@);
    }
    while i < x.len() && i < y.len() && x[i] == y[i]
        invariant
            x@ == a@,
            y@ == b@,
            i <= x@.len(),
            i <= y@.len(),
            before(a@, b@) == before(a@.skip(i as int), b@.skip(i as int)),
        decreases x@.len() - i,
    {
        proof {
            assert(a@.skip(i as int).skip(1) =~= a@.skip(i + 1));
            assert(b@.skip(i as int).skip(1) =~= b@.skip(i + 1));
        }
        i += 1;
    }
    if i >= y.len() {
        false
    } else if i >= x.len() {
        true
    } else {
        x[i] < y[i]
    }
}

/// In order, and nothing twice.
pub open spec fn ascending(s: Seq<Seq<char>>) -> bool {
    forall|i: int, j: int| 0 <= i < j < s.len() ==> before(#[trigger] s[i], #[trigger] s[j])
}

/// `list` holds exactly the texts of `from`, each once, in order.
pub open spec fn sorted_distinct(list: Seq<Seq<char>>, from: Seq<Seq<char>>) -> bool {
    &&& ascending(list)
    &&& forall|x: Seq<char>| #[trigger] list.contains(x) <==> from.contains(x)
}

/// A set of texts has one list in order.
pub proof fn lemma_sorted_unique(a: Seq<Seq<char>>, b: Seq<Seq<char>>)
    requires
        ascending(a),
        ascending(b),
        forall|x: Seq<char>| #[trigger] a.contains(x) ==> b.contains(x),
        forall|x: Seq<char>| #[trigger] b.contains(x) ==> a.contains(x),
    ensures
        a == b,
    decreases a.len(),
{
    if a.len() == 0 {
        if b.len() > 0 {
            assert(b.contains(b[0]));
        }
        assert(a =~= b);
    } else {
        assert(a.contains(a.last()));
        let j = choose|j: int| 0 <= j < b.len() && b[j] == a.last();
        assert(b.contains(b.last()));
        let i = choose|i: int| 0 <= i < a.len() && a[i] == b.last();
        lemma_before_irreflexive(a.last());
        if j < b.len() - 1 {
            assert(before(b[j], b[b.len() - 1]));
            if i < a.len() - 1 {
                assert(before(a[i], a[a.len() - 1]));
                lemma_before_transitive(a.last(), b.last(), a.last());
            }
        }
        assert(a.last() == b.last());
        let a1 = a.drop_last();
        let b1 = b.drop_last();
        assert forall|x: Seq<char>| #[trigger] a1.contains(x) implies b1.contains(x) by {
            let k = choose|k: int| 0 <= k < a1.len() && a1[k] == x;
            assert(a[k] == x);
            assert(a.contains(x));
            let m = choose|m: int| 0 <= m < b.len() && b[m] == x;
            assert(before(a[k], a[a.len() - 1]));
            assert(m != b.len() - 1);
            assert(b1[m] == x);
        }
        assert forall|x: Seq<char>| #[trigger] b1.contains(x) implies a1.contains(x) by {
            let k = choose|k: int| 0 <= k < b1.len() && b1[k] == x;
            assert(b[k] == x);
            assert(b.contains(x));
            let m = choose|m: int| 0 <= m < a.len() && a[m] == x;
            assert(before(b[k], b[b.len() - 1]));
            assert(m != a.len() - 1);
            assert(a1[m] == x);
        }
        lemma_sorted_unique(a1, b1);
        assert(a =~= a1.push(a.last()));
        assert(b =~= b1.push(b.last()));
    }
}

/// Put `value` where it belongs in a list in order, unless it is there.
fn insert_sorted(list: &mut Vec<String>, value: &str)
    requires
        ascending(views(old(list)@)),
    ensures
        ascending(views(final(list)@)),
        forall|x: Seq<char>|
            #[trigger] views(final(list)@).contains(x) <==> views(old(list)@).contains(x) || x
                == value@,
{
    let ghost was = views(list@);
    let mut i: usize = 0;
    while i < list.len() && comes_before(list[i].as_str(), value)
        invariant
            was == views(list@),
            i <= list@.len(),
            forall|j: int| 0 <= j < i ==> before(#[trigger] was[j], value@),
        decreases list@.len() - i,
    {
        i += 1;
    }
    if i < list.len() && !comes_before(value, list[i].as_str()) {
        proof {
            lemma_before_total(was[i as int], value@);
            assert(was[i as int] == value@);
            assert(was.contains(value@));
        }
        return ;
    }
    list.insert(i, value.to_owned());
    proof {
        let now = views(list@);
        assert(now =~= was.insert(i as int, value@));
        assert forall|a: int, b: int| 0 <= a < b < now.len() implies before(
            #[trigger] now[a],
            #[trigger] now[b],
        ) by {
            if a < i && b == i {
                assert(before(was[a], value@));
            } else if a == i {
                assert(now[b] == was[b - 1]);
                if b - 1 > i {
                    assert(before(was[i as int], was[b - 1]));
                    lemma_before_transitive(value@, was[i as int], was[b - 1]);
                }
            } else if a < i && b > i {
                assert(now[b] == was[b - 1]);
            } else if a > i {
                assert(now[a] == was[a - 1]);
                assert(now[b] == was[b - 1]);
            }
        }
        assert forall|x: Seq<char>| #[trigger] now.contains(x) <==> was.contains(x) || x
            == value@ by {
            if was.contains(x) {
                let k = choose|k: int| 0 <= k < was.len() && was[k] == x;
                if k < i {
                    assert(now[k] == x);
                } else {
                    assert(now[k + 1] == x);
                }
            }
            if x == value@ {
                assert(now[i as int] == x);
            }
            if now.contains(x) {
                let k = choose|k: int| 0 <= k < now.len() && now[k] == x;
                if k < i {
                    assert(was[k] == x);
                } else if k > i {
                    assert(was[k - 1] == x);
                }
            }
        }
    }
}

/// The texts of `from`, each once, in order.
pub fn sort_distinct(from: &[String]) -> (r: Vec<String>)
    ensures
        sorted_distinct(views(r@), views(from@)),
{
    let mut out: Vec<String> = Vec::new();
    let mut i: usize = 0;
    let ghost all = views(from@);
    while i < from.len()
        invariant
            all == views(from@),
            i <= from@.len(),
            ascending(views(out@)),
            forall|x: Seq<char>|
                #[trigger] views(out@).contains(x) <==> all.take(i as int).contains(x),
        decreases from@.len() - i,
    {
        insert_sorted(&mut out, from[i].as_str());
        proof {
            let was = all.take(i as int);
            let now = all.take(i + 1);
            assert(now =~= was.push(all[i as int]));
            assert forall|x: Seq<char>|
                #[trigger] views(out@).contains(x) <==> now.contains(x) by {
                if was.contains(x) {
                    let k = choose|k: int| 0 <= k < was.len() && was[k] == x;
                    assert(now[k] == x);
                }
                if x == all[i as int] {
                    assert(now[i as int] == x);
                }
                if now.contains(x) {
                    let k = choose|k: int| 0 <= k < now.len() && now[k] == x;
                    if k < i {
                        assert(was[k] == x);
                    }
                }
            }
        }
        i += 1;
    }
    assert(all.take(i as int) =~= all);
    out
}

} // verus!
