//! What the recognition of tunnel processes comes to, option by option.

use vstd::prelude::*;
use crate::find::{after_last, last_of, lemma_last_of};
use crate::supervisor::{
    as_tunnel, claimed, is_cluster, serving, takes_value, tunnels_among, valued, walked,
    with_option, with_word, ProcessView, RunningView, Seen, TAKES_VALUE,
};
use crate::tunnels::{ForwardView, Kind};

verus! {

/// A word that stands for itself on a command line: it does not begin with `-`,
/// or is nothing but a `-`.
pub open spec fn bare(word: Seq<char>) -> bool {
    word.len() < 2 || word[0] != '-'
}

/// All of the words stand for themselves.
pub open spec fn all_bare(words: Seq<Seq<char>>) -> bool {
    forall|i: int| 0 <= i < words.len() ==> bare(#[trigger] words[i])
}

/// The option of one letter.
pub open spec fn option(c: char) -> Seq<char> {
    seq!['-', c]
}

spec fn nothing() -> Seen {
    Seen { forward: None, host: None }
}

/// What is known, with what comes after it.
spec fn merged(a: Seen, b: Option<Seen>) -> Option<Seen> {
    match b {
        None => None,
        Some(s) => Some(
            Seen {
                forward: if a.forward is Some {
                    a.forward
                } else {
                    s.forward
                },
                host: if a.host is Some {
                    a.host
                } else {
                    s.host
                },
            },
        ),
    }
}

proof fn lemma_same_rest(a: Seq<Seq<char>>, i: int, b: Seq<Seq<char>>, j: int, seen: Seen)
    requires
        0 <= i <= a.len(),
        0 <= j <= b.len(),
        a.skip(i) == b.skip(j),
    ensures
        walked(a, i, seen) == walked(b, j, seen),
    decreases a.len() - i,
{
    assert(a.skip(i).len() == a.len() - i);
    assert(b.skip(j).len() == b.len() - j);
    if i < a.len() {
        assert(a.skip(i)[0] == a[i] && b.skip(j)[0] == b[j]);
        assert(a.skip(i + 1) =~= a.skip(i).skip(1));
        assert(b.skip(j + 1) =~= b.skip(j).skip(1));
        lemma_same_rest(a, i + 1, b, j + 1, with_word(seen, a[i]));
        lemma_same_rest(a, i + 1, b, j + 1, seen);
        let at = valued(a[i], 1);
        lemma_same_rest(a, i + 1, b, j + 1, with_option(seen, a[i][at], a[i].skip(at + 1)));
        if i + 1 < a.len() {
            assert(a.skip(i)[1] == a[i + 1] && b.skip(j)[1] == b[j + 1]);
            assert(a.skip(i + 2) =~= a.skip(i).skip(2));
            assert(b.skip(j + 2) =~= b.skip(j).skip(2));
            lemma_same_rest(a, i + 2, b, j + 2, with_option(seen, a[i][at], a[i + 1]));
        }
    }
}

proof fn lemma_merged(argv: Seq<Seq<char>>, i: int, seen: Seen)
    requires
        0 <= i,
    ensures
        walked(argv, i, seen) == merged(seen, walked(argv, i, nothing())),
    decreases argv.len() - i,
{
    if i < argv.len() {
        let none = nothing();
        let at = valued(argv[i], 1);
        lemma_merged(argv, i + 1, with_word(seen, argv[i]));
        lemma_merged(argv, i + 1, with_word(none, argv[i]));
        lemma_merged(argv, i + 1, seen);
        let here = argv[i].skip(at + 1);
        lemma_merged(argv, i + 1, with_option(seen, argv[i][at], here));
        lemma_merged(argv, i + 1, with_option(none, argv[i][at], here));
        if i + 1 < argv.len() {
            lemma_merged(argv, i + 2, with_option(seen, argv[i][at], argv[i + 1]));
            lemma_merged(argv, i + 2, with_option(none, argv[i][at], argv[i + 1]));
        }
    }
}

/// What the words say on their own.
spec fn told(words: Seq<Seq<char>>) -> Option<Seen> {
    walked(words, 0, nothing())
}

/// The words behind the program are all that counts of it.
proof fn lemma_claimed(program: Seq<char>, words: Seq<Seq<char>>)
    ensures
        claimed(seq![program] + words) == (if after_last(program, '/') != "ssh"@ {
            None
        } else {
            match told(words) {
                Some(Seen { forward: Some((kind, spec)), host: Some(host) }) => Some(
                    (kind, spec, host),
                ),
                _ => None,
            }
        }),
{
    let argv = seq![program] + words;
    assert(argv.skip(1) =~= words.skip(0));
    lemma_same_rest(argv, 1, words, 0, nothing());
}

proof fn lemma_told_bare(word: Seq<char>, rest: Seq<Seq<char>>)
    requires
        bare(word),
    ensures
        told(seq![word] + rest) == merged(Seen { forward: None, host: Some(word) }, told(rest)),
{
    let all = seq![word] + rest;
    assert(all[0] == word);
    assert(all.skip(1) =~= rest.skip(0));
    let seen = Seen { forward: None, host: Some(word) };
    lemma_same_rest(all, 1, rest, 0, seen);
    lemma_merged(rest, 0, seen);
}

proof fn lemma_told_option(c: char, v: Seq<char>, rest: Seq<Seq<char>>)
    requires
        takes_value(c),
    ensures
        told(seq![option(c), v] + rest) == merged(with_option(nothing(), c, v), told(rest)),
{
    let all = seq![option(c), v] + rest;
    assert(all[0] == option(c) && all[1] == v);
    assert(all.skip(2) =~= rest.skip(0));
    assert(valued(option(c), 1) == 1);
    let seen = with_option(nothing(), c, v);
    lemma_same_rest(all, 2, rest, 0, seen);
    lemma_merged(rest, 0, seen);
}

/// What stands for itself says the same whatever follows.
proof fn lemma_told_after_bare(pre: Seq<Seq<char>>, rest: Seq<Seq<char>>)
    requires
        all_bare(pre),
    ensures
        told(pre + rest) == merged(
            Seen {
                forward: None,
                host: if pre.len() > 0 {
                    Some(pre[0])
                } else {
                    None
                },
            },
            told(rest),
        ),
    decreases pre.len(),
{
    if pre.len() == 0 {
        assert(pre + rest =~= rest);
    } else {
        let less = pre.skip(1);
        assert forall|i: int| 0 <= i < less.len() implies bare(#[trigger] less[i]) by {
            assert(less[i] == pre[i + 1]);
        }
        lemma_told_after_bare(less, rest);
        assert(bare(pre[0]));
        lemma_told_bare(pre[0], less + rest);
        assert(pre + rest =~= seq![pre[0]] + (less + rest));
    }
}

/// The value of an option is never the destination. For each option of ssh that
/// takes a value, taking it and its value out of a command line changes neither the
/// destination nor the forward that was asked for before; and it says nothing of a
/// forward unless it is `-L` or `-R`.
pub proof fn law_option_value_is_no_destination(
    program: Seq<char>,
    pre: Seq<Seq<char>>,
    c: char,
    v: Seq<char>,
    rest: Seq<Seq<char>>,
    asked: Seq<char>,
)
    requires
        all_bare(pre),
        "BbcDEeFIiJLlmOoPpQRSWw"@.contains(c),
    ensures
        c != 'L' && c != 'R' ==> claimed(seq![program] + (pre + (seq![option(c), v] + rest)))
            == claimed(seq![program] + (pre + rest)),
        claimed(seq![program] + (pre + (seq![option('L'), asked] + (seq![option(c), v] + rest))))
            == claimed(seq![program] + (pre + (seq![option('L'), asked] + rest))),
        claimed(seq![program] + (pre + (seq![option('R'), asked] + (seq![option(c), v] + rest))))
            == claimed(seq![program] + (pre + (seq![option('R'), asked] + rest))),
{
    lemma_letters();
    let with = seq![option(c), v] + rest;
    lemma_told_option(c, v, rest);
    lemma_told_option('L', asked, with);
    lemma_told_option('L', asked, rest);
    lemma_told_option('R', asked, with);
    lemma_told_option('R', asked, rest);
    let l = seq![option('L'), asked];
    let r = seq![option('R'), asked];
    lemma_told_after_bare(pre, with);
    lemma_told_after_bare(pre, rest);
    lemma_told_after_bare(pre, l + with);
    lemma_told_after_bare(pre, l + rest);
    lemma_told_after_bare(pre, r + with);
    lemma_told_after_bare(pre, r + rest);
    lemma_claimed(program, pre + with);
    lemma_claimed(program, pre + rest);
    lemma_claimed(program, pre + (l + with));
    lemma_claimed(program, pre + (l + rest));
    lemma_claimed(program, pre + (r + with));
    lemma_claimed(program, pre + (r + rest));
}

proof fn lemma_letters()
    ensures
        forall|c: char| #[trigger] takes_value(c) <==> "BbcDEeFIiJLlmOoPpQRSWw"@.contains(c),
        takes_value('L'),
        takes_value('R'),
{
    reveal_strlit("BbcDEeFIiJLlmOoPpQRSWw");
    assert(TAKES_VALUE@[10] == 'L' && TAKES_VALUE@[18] == 'R');
}

/// A value may be written right behind its option: `-p22` and `-p 22` are one.
pub proof fn law_attached_value_is_the_value(
    program: Seq<char>,
    c: char,
    v: Seq<char>,
    rest: Seq<Seq<char>>,
)
    requires
        "BbcDEeFIiJLlmOoPpQRSWw"@.contains(c),
        v.len() > 0,
    ensures
        claimed(seq![program] + (seq![option(c) + v] + rest)) == claimed(
            seq![program] + (seq![option(c), v] + rest),
        ),
{
    lemma_letters();
    let arg = option(c) + v;
    let all = seq![arg] + rest;
    assert(all[0] == arg);
    assert(all.skip(1) =~= rest.skip(0));
    assert(arg[1] == c);
    assert(valued(arg, 1) == 1);
    assert(arg.skip(2) =~= v);
    let seen = with_option(nothing(), c, v);
    lemma_same_rest(all, 1, rest, 0, seen);
    lemma_merged(rest, 0, seen);
    lemma_told_option(c, v, rest);
    lemma_claimed(program, all);
    lemma_claimed(program, seq![option(c), v] + rest);
}

/// A letter that takes no value says nothing, alone or before others: `-N` may be
/// left out, and `-fNL` is `-L`.
pub proof fn law_switch_says_nothing(
    program: Seq<char>,
    c: char,
    others: Seq<char>,
    rest: Seq<Seq<char>>,
)
    requires
        !"BbcDEeFIiJLlmOoPpQRSWw"@.contains(c),
    ensures
        claimed(seq![program] + (seq![option(c)] + rest)) == claimed(seq![program] + rest),
        others.len() > 0 ==> claimed(seq![program] + (seq![option(c) + others] + rest)) == claimed(
            seq![program] + (seq![seq!['-'] + others] + rest),
        ),
{
    lemma_letters();
    assert(!takes_value(c));
    let one = seq![option(c)] + rest;
    assert(one[0] == option(c));
    assert(valued(option(c), 2) == 2);
    assert(valued(option(c), 1) == 2);
    assert(one.skip(1) =~= rest.skip(0));
    lemma_same_rest(one, 1, rest, 0, nothing());
    lemma_claimed(program, one);
    lemma_claimed(program, rest);
    if others.len() > 0 {
        let long = option(c) + others;
        let short = seq!['-'] + others;
        let a = seq![long] + rest;
        let b = seq![short] + rest;
        assert(a[0] == long && b[0] == short);
        lemma_valued_behind(long, 2, short, 1);
        assert(long[1] == c);
        assert(valued(long, 1) == valued(long, 2));
        let at = valued(long, 1);
        let bt = valued(short, 1);
        assert(at == bt + 1);
        assert(at < long.len() ==> long[at] == short[bt]);
        assert(at < long.len() ==> long.skip(at + 1) =~= short.skip(bt + 1)) by {
            if at < long.len() {
                assert(long.skip(at + 1) =~= short.skip(bt + 1));
            }
        }
        assert(a.skip(1) =~= b.skip(1));
        lemma_same_rest(a, 1, b, 1, nothing());
        if at < long.len() {
            lemma_same_rest(
                a,
                1,
                b,
                1,
                with_option(nothing(), long[at], long.skip(at + 1)),
            );
            if rest.len() > 0 {
                assert(a[1] == b[1]);
                assert(a.skip(2) =~= b.skip(2));
                lemma_same_rest(a, 2, b, 2, with_option(nothing(), long[at], a[1]));
            }
        }
        lemma_claimed(program, a);
        lemma_claimed(program, b);
    }
}

proof fn lemma_valued_behind(a: Seq<char>, i: int, b: Seq<char>, j: int)
    requires
        0 <= i <= a.len(),
        0 <= j <= b.len(),
        a.len() - i == b.len() - j,
        forall|k: int| 0 <= k < a.len() - i ==> #[trigger] a[i + k] == b[j + k],
    ensures
        valued(a, i) - i == valued(b, j) - j,
        i <= valued(a, i) <= a.len(),
    decreases a.len() - i,
{
    if i < a.len() {
        assert(a[i + 0] == b[j + 0]);
        assert forall|k: int| 0 <= k < a.len() - (i + 1) implies #[trigger] a[(i + 1) + k] == b[(j
            + 1) + k] by {
            assert(a[i + (k + 1)] == b[j + (k + 1)]);
        }
        lemma_valued_behind(a, i + 1, b, j + 1);
    }
}

/// The first forward that is asked for is the one that counts, with the direction
/// that its letter says: `-L` is local and `-R` remote.
pub proof fn law_first_forward_counts(
    program: Seq<char>,
    pre: Seq<Seq<char>>,
    asked: Seq<char>,
    rest: Seq<Seq<char>>,
)
    requires
        all_bare(pre),
    ensures
        claimed(seq![program] + (pre + (seq![option('L'), asked] + rest))) matches Some((k, s, h))
            ==> k == Kind::Local && s == asked,
        claimed(seq![program] + (pre + (seq![option('R'), asked] + rest))) matches Some((k, s, h))
            ==> k == Kind::Remote && s == asked,
        claimed(seq![program] + (pre + rest)) matches Some((k, s, h)) ==> claimed(
            seq![program] + (pre + (seq![option('L'), asked] + rest)),
        ) == Some((Kind::Local, asked, h)),
        claimed(seq![program] + (pre + rest)) matches Some((k, s, h)) ==> claimed(
            seq![program] + (pre + (seq![option('R'), asked] + rest)),
        ) == Some((Kind::Remote, asked, h)),
{
    lemma_letters();
    let l = seq![option('L'), asked];
    let r = seq![option('R'), asked];
    lemma_told_option('L', asked, rest);
    lemma_told_option('R', asked, rest);
    lemma_told_after_bare(pre, l + rest);
    lemma_told_after_bare(pre, r + rest);
    lemma_told_after_bare(pre, rest);
    lemma_claimed(program, pre + (l + rest));
    lemma_claimed(program, pre + (r + rest));
    lemma_claimed(program, pre + rest);
}

/// The first word that stands for itself is the destination, and what comes behind
/// it does not change that. A command line with a forward and such a word is a
/// tunnel, wherever the word stands.
pub proof fn law_first_bare_word_is_the_destination(
    program: Seq<char>,
    word: Seq<char>,
    rest: Seq<Seq<char>>,
    more: Seq<Seq<char>>,
    asked: Seq<char>,
)
    requires
        bare(word),
        all_bare(more),
    ensures
        claimed(seq![program] + (seq![word] + rest)) matches Some((k, s, h)) ==> h == word,
        after_last(program, '/') == "ssh"@ ==> {
            &&& claimed(seq![program] + (seq![word] + (more + seq![option('L'), asked]))) == Some(
                (Kind::Local, asked, word),
            )
            &&& claimed(seq![program] + (seq![option('L'), asked] + (seq![word] + more))) == Some(
                (Kind::Local, asked, word),
            )
            &&& claimed(seq![program] + (seq![word] + (more + seq![option('R'), asked]))) == Some(
                (Kind::Remote, asked, word),
            )
            &&& claimed(seq![program] + (seq![option('R'), asked] + (seq![word] + more))) == Some(
                (Kind::Remote, asked, word),
            )
        },
{
    lemma_letters();
    let none = Seq::<Seq<char>>::empty();
    lemma_told_bare(word, rest);
    lemma_claimed(program, seq![word] + rest);
    assert(told(none) == Some(nothing()));
    assert(more + none =~= more);
    lemma_told_after_bare(more, none);
    lemma_told_bare(word, more);
    if after_last(program, '/') == "ssh"@ {
        lemma_one_direction(program, word, more, asked, 'L');
        lemma_one_direction(program, word, more, asked, 'R');
    }
}

proof fn lemma_one_direction(
    program: Seq<char>,
    word: Seq<char>,
    more: Seq<Seq<char>>,
    asked: Seq<char>,
    c: char,
)
    requires
        bare(word),
        all_bare(more),
        c == 'L' || c == 'R',
        after_last(program, '/') == "ssh"@,
    ensures
        claimed(seq![program] + (seq![word] + (more + seq![option(c), asked]))) == Some(
            (
                if c == 'L' {
                    Kind::Local
                } else {
                    Kind::Remote
                },
                asked,
                word,
            ),
        ),
        claimed(seq![program] + (seq![option(c), asked] + (seq![word] + more))) == Some(
            (
                if c == 'L' {
                    Kind::Local
                } else {
                    Kind::Remote
                },
                asked,
                word,
            ),
        ),
{
    lemma_letters();
    let none = Seq::<Seq<char>>::empty();
    let l = seq![option(c), asked];
    assert(told(none) == Some(nothing()));
    assert(l + none =~= l);
    assert(more + none =~= more);
    lemma_told_option(c, asked, none);
    lemma_told_after_bare(more, l);
    lemma_told_bare(word, more + l);
    lemma_claimed(program, seq![word] + (more + l));
    lemma_told_after_bare(more, none);
    lemma_told_bare(word, more);
    lemma_told_option(c, asked, seq![word] + more);
    lemma_claimed(program, l + (seq![word] + more));
}

/// A command line that ends in an option without its value is no tunnel.
pub proof fn law_missing_value_is_no_tunnel(
    program: Seq<char>,
    pre: Seq<Seq<char>>,
    asked: Seq<char>,
    c: char,
)
    requires
        all_bare(pre),
        "BbcDEeFIiJLlmOoPpQRSWw"@.contains(c),
    ensures
        claimed(seq![program] + (pre + (seq![option('L'), asked] + seq![option(c)]))) is None,
{
    lemma_letters();
    let last = seq![option(c)];
    assert(valued(option(c), 1) == 1);
    assert(told(last) is None);
    lemma_told_option('L', asked, last);
    lemma_told_after_bare(pre, seq![option('L'), asked] + last);
    lemma_claimed(program, pre + (seq![option('L'), asked] + last));
}

/// Only `ssh` is a tunnel, by whatever path it was called.
pub proof fn law_only_ssh_is_a_tunnel(dir: Seq<char>, name: Seq<char>, words: Seq<Seq<char>>)
    requires
        !name.contains('/'),
    ensures
        claimed(seq![dir.push('/') + name] + words) == claimed(seq![name] + words),
        name != "ssh"@ ==> claimed(seq![name] + words) is None,
        claimed(Seq::<Seq<char>>::empty()) is None,
{
    lemma_claimed(name, words);
    lemma_claimed(dir.push('/') + name, words);
    lemma_behind_last(dir, name, '/');
}

/// What stands behind the last separator.
pub proof fn lemma_behind_last(head: Seq<char>, tail: Seq<char>, c: char)
    requires
        !tail.contains(c),
    ensures
        after_last(tail, c) == tail,
        after_last(head.push(c) + tail, c) == tail,
        last_of(head.push(c) + tail, c) == head.len(),
        last_of(tail, c) == -1,
{
    let s = head.push(c) + tail;
    lemma_last_of(tail, c);
    lemma_last_of(s, c);
    if last_of(tail, c) >= 0 {
        assert(tail.contains(tail[last_of(tail, c)]));
    }
    assert(tail.skip(0) =~= tail);
    assert(s[head.len() as int] == c);
    let i = last_of(s, c);
    if i > head.len() {
        assert(tail.contains(tail[i - head.len() - 1]));
        assert(s[i] == tail[i - head.len() - 1]);
    }
    assert(s.skip(head.len() as int + 1) =~= tail);
}

/// The processes are listed one by one, in their order; one of another user is
/// never listed, and one of this user is listed under its own number if its command
/// line is a tunnel's, and not otherwise.
pub proof fn law_own_tunnels_are_listed(
    a: Seq<ProcessView>,
    p: ProcessView,
    me: Option<u32>,
)
    ensures
        me is Some && p.uid != me ==> tunnels_among(a.push(p), me) == tunnels_among(a, me),
        p.argv is None || claimed(p.argv->0) is None ==> tunnels_among(a.push(p), me)
            == tunnels_among(a, me),
        (me is None || p.uid == me) && 0 <= p.pid <= 0xffff_ffff && p.argv is Some ==> (claimed(
            p.argv->0,
        ) matches Some((kind, spec, host)) ==> tunnels_among(a.push(p), me) == tunnels_among(
            a,
            me,
        ).push(RunningView { pid: p.pid as u32, kind, spec, host })),
        tunnels_among(Seq::empty(), me).len() == 0,
{
    assert(a.push(p).drop_last() =~= a);
}

/// The process found for a rule runs its way, with its ports and to its host; it is
/// the first such, and there is none only if no process does.
pub proof fn law_found_process_serves(running: Seq<RunningView>, f: ForwardView)
    ensures
        match serving(running, f, 0) {
            Some(r) => exists|i: int|
                0 <= i < running.len() && running[i] == r && #[trigger] runs(running[i], f)
                    && forall|j: int| 0 <= j < i ==> !runs(#[trigger] running[j], f),
            None => forall|j: int| 0 <= j < running.len() ==> !runs(#[trigger] running[j], f),
        },
{
    lemma_found(running, f, 0);
}

/// The process has the direction, the listening side, the exit and the host of the
/// rule.
pub open spec fn runs(r: RunningView, f: ForwardView) -> bool {
    &&& r.kind == f.kind
    &&& r.spec == f.bind.push(':') + f.target
    &&& r.host == f.host
}

proof fn lemma_runs(r: RunningView, f: ForwardView)
    ensures
        r.serves(f) <==> runs(r, f),
{
    reveal_strlit(":");
    assert(f.bind + ":"@ + f.target =~= f.bind.push(':') + f.target);
}

proof fn lemma_found(running: Seq<RunningView>, f: ForwardView, from: int)
    requires
        0 <= from <= running.len(),
        forall|j: int| 0 <= j < from ==> !runs(#[trigger] running[j], f),
    ensures
        match serving(running, f, from) {
            Some(r) => exists|i: int|
                0 <= i < running.len() && running[i] == r && #[trigger] runs(running[i], f)
                    && forall|j: int| 0 <= j < i ==> !runs(#[trigger] running[j], f),
            None => forall|j: int| 0 <= j < running.len() ==> !runs(#[trigger] running[j], f),
        },
    decreases running.len() - from,
{
    if from < running.len() {
        lemma_runs(running[from], f);
        if !running[from].serves(f) {
            lemma_found(running, f, from + 1);
        } else {
            assert(runs(running[from], f));
        }
    }
}

} // verus!
