//! Tunnel processes: telling them apart from other processes, and judging how
//! starting and stopping them went.

use vstd::prelude::*;
use crate::command::CommandOutput;
use crate::find::{after_last, find_char, last_piece, lemma_first_of};
use crate::number::{decimal, to_decimal};
use crate::text::{chars, lemma_views_push, same, trim, trimmed, view_of, views};
use crate::tunnels::{flag_of, Forward, ForwardView, Kind};

verus! {

/// A tunnel process found on this machine.
#[derive(Debug, Clone, PartialEq, Eq)]
pub struct Running {
    pub pid: u32,
    pub kind: Kind,
    /// The `-L`/`-R` argument, normalised out of wherever it sat in argv.
    pub spec: String,
    pub host: String,
}

/// What a [`Running`] says.
#[verifier::ext_equal]
pub struct RunningView {
    pub pid: u32,
    pub kind: Kind,
    pub spec: Seq<char>,
    pub host: Seq<char>,
}

impl View for Running {
    type V = RunningView;

    open spec fn view(&self) -> RunningView {
        RunningView { pid: self.pid, kind: self.kind, spec: self.spec@, host: self.host@ }
    }
}

impl RunningView {
    /// The process serves the rule: direction, argument and host are the rule's.
    pub open spec fn serves(self, f: ForwardView) -> bool {
        self.kind == f.kind && self.spec == f.argument() && self.host == f.host
    }

    /// One line on the process, of the same shape as a rule's.
    pub open spec fn line(self) -> Seq<char> {
        flag_of(self.kind) + " "@ + self.spec + " "@ + self.host
    }
}

impl Running {
    /// The same shape as `Forward::summary`, so a process listed next to the
    /// rules reads in the same column.
    pub fn summary(&self) -> (r: String)
        ensures
            r@ == self@.line(),
    {
        let mut out: String = self.kind.flag().to_owned();
        out.append(" ");
        out.append(self.spec.as_str());
        out.append(" ");
        out.append(self.host.as_str());
        out
    }
}

/// ssh options that consume the following word. Everything else in a `-abc`
/// cluster is a boolean, so the destination is the first bare word that is not
/// one of these values -- which is how the host is told apart from a port.
pub const TAKES_VALUE: &'static str = "BbcDEeFIiJLlmOoPpQRSWw";

/// An option that takes a value.
pub open spec fn takes_value(c: char) -> bool {
    TAKES_VALUE@.contains(c)
}

/// The first letter at or after `from` in a cluster that takes a value, or the
/// length of the cluster.
pub open spec fn valued(arg: Seq<char>, from: int) -> int
    decreases arg.len() - from,
{
    if from >= arg.len() {
        arg.len() as int
    } else if takes_value(arg[from]) {
        from
    } else {
        valued(arg, from + 1)
    }
}

/// What is known of a command line so far: the first forward it asks for, and
/// the destination.
#[verifier::ext_equal]
pub struct Seen {
    pub forward: Option<(Kind, Seq<char>)>,
    pub host: Option<Seq<char>>,
}

/// A word that is a cluster of options.
pub open spec fn is_cluster(arg: Seq<char>) -> bool {
    arg.len() >= 2 && arg[0] == '-'
}

/// With the value of an option taken in.
pub open spec fn with_option(seen: Seen, c: char, value: Seq<char>) -> Seen {
    if (c == 'L' || c == 'R') && seen.forward is None {
        Seen {
            forward: Some(
                (
                    if c == 'L' {
                        Kind::Local
                    } else {
                        Kind::Remote
                    },
                    value,
                ),
            ),
            ..seen
        }
    } else {
        seen
    }
}

/// With a bare word taken in: the first one is the destination.
pub open spec fn with_word(seen: Seen, word: Seq<char>) -> Seen {
    if seen.host is None {
        Seen { host: Some(word), ..seen }
    } else {
        seen
    }
}

/// The words from the `i`-th on, read as options and bare words. Nothing comes
/// of it if an option lacks its value.
pub open spec fn walked(argv: Seq<Seq<char>>, i: int, seen: Seen) -> Option<Seen>
    decreases argv.len() - i,
{
    if i >= argv.len() {
        Some(seen)
    } else if !is_cluster(argv[i]) {
        walked(argv, i + 1, with_word(seen, argv[i]))
    } else {
        let at = valued(argv[i], 1);
        if at >= argv[i].len() {
            walked(argv, i + 1, seen)
        } else if at + 1 < argv[i].len() {
            walked(argv, i + 1, with_option(seen, argv[i][at], argv[i].skip(at + 1)))
        } else if i + 1 < argv.len() {
            walked(argv, i + 2, with_option(seen, argv[i][at], argv[i + 1]))
        } else {
            None
        }
    }
}

/// The forward and destination of an `ssh` command line.
pub open spec fn claimed(argv: Seq<Seq<char>>) -> Option<(Kind, Seq<char>, Seq<char>)> {
    if argv.len() == 0 || after_last(argv[0], '/') != "ssh"@ {
        None
    } else {
        match walked(argv, 1, Seen { forward: None, host: None }) {
            Some(Seen { forward: Some((kind, spec)), host: Some(host) }) => Some(
                (kind, spec, host),
            ),
            _ => None,
        }
    }
}

/// Whether an option takes a value.
fn letter_takes_value(c: char) -> (r: bool)
    ensures
        r == takes_value(c),
{
    let letters: Vec<char> = chars(TAKES_VALUE);
    proof {
        lemma_first_of(letters@, c, 0);
        if letters@.contains(c) {
            let k = choose|k: int| 0 <= k < letters@.len() && letters@[k] == c;
            assert(letters@[k] == c);
        }
    }
    find_char(letters.as_slice(), c).is_some()
}

/// Tunnels started here detach with `-f`, so they outlive the TUI and have to be
/// recognised again on the next run. Recognition is structural -- parse argv and
/// compare fields -- rather than a substring search, which would also match the
/// shell that launched the search.
pub fn parse_argv(argv: &[String]) -> (r: Option<(Kind, String, String)>)
    ensures
        (match r {
            Some((kind, spec, host)) => Some((kind, spec@, host@)),
            None => None,
        }) == claimed(views(argv@)),
{
    let ghost words = views(argv@);
    if argv.len() == 0 {
        return None;
    }
    assert(words[0] == argv@[0]@);
    if !same(last_piece(argv[0].as_str(), '/'), "ssh") {
        return None;
    }
    let mut found: Option<(Kind, String)> = None;
    let mut host: Option<String> = None;
    let mut i: usize = 1;
    let ghost start = Seen { forward: None, host: None };
    while i < argv.len()
        invariant
            words == views(argv@),
            start == (Seen { forward: None, host: None }),
            1 <= i <= argv@.len(),
            walked(words, 1, start) == walked(words, i as int, seen_so_far(found, host)),
        decreases argv@.len() - i,
    {
        let arg: &str = argv[i].as_str();
        let ghost seen = seen_so_far(found, host);
        assert(words[i as int] == arg@);
        let cs: Vec<char> = chars(arg);
        if cs.len() >= 2 && cs[0] == '-' {
            let mut at: usize = 1;
            while at < cs.len() && !letter_takes_value(cs[at])
                invariant
                    cs@ == arg@,
                    1 <= at <= cs@.len(),
                    valued(arg@, 1) == valued(arg@, at as int),
                decreases cs@.len() - at,
            {
                at += 1;
            }
            if at < cs.len() {
                let c: char = cs[at];
                let n: usize = cs.len();
                let value: String;
                if at + 1 < n {
                    value = arg.substring_char(at + 1, n).to_owned();
                    assert(value@ =~= arg@.skip(at + 1));
                } else {
                    if i + 1 >= argv.len() {
                        return None;
                    }
                    i += 1;
                    assert(words[i as int] == argv@[i as int]@);
                    value = argv[i].clone();
                }
                if (c == 'L' || c == 'R') && found.is_none() {
                    let kind: Kind = if c == 'L' {
                        Kind::Local
                    } else {
                        Kind::Remote
                    };
                    found = Some((kind, value));
                }
            }
        } else if host.is_none() {
            host = Some(arg.to_owned());
        }
        i += 1;
    }
    match (found, host) {
        (Some((kind, spec)), Some(destination)) => Some((kind, spec, destination)),
        _ => None,
    }
}

spec fn seen_so_far(found: Option<(Kind, String)>, host: Option<String>) -> Seen {
    Seen {
        forward: match found {
            Some((kind, value)) => Some((kind, value@)),
            None => None,
        },
        host: view_of(host),
    }
}

/// A process as the system lists it. What could not be read is missing.
#[derive(Debug, Clone)]
pub struct Process {
    pub pid: i64,
    pub uid: Option<u32>,
    pub argv: Option<Vec<String>>,
}

/// What a [`Process`] says.
#[verifier::ext_equal]
pub struct ProcessView {
    pub pid: int,
    pub uid: Option<u32>,
    pub argv: Option<Seq<Seq<char>>>,
}

impl View for Process {
    type V = ProcessView;

    open spec fn view(&self) -> ProcessView {
        ProcessView {
            pid: self.pid as int,
            uid: self.uid,
            argv: match self.argv {
                Some(words) => Some(views(words@)),
                None => None,
            },
        }
    }
}

/// The tunnel that a process is, if it is one under this user.
pub open spec fn as_tunnel(p: ProcessView, me: Option<u32>) -> Option<RunningView> {
    if (me is Some && p.uid != me) || !(0 <= p.pid <= u32::MAX) || p.argv is None {
        None
    } else {
        match claimed(p.argv->0) {
            Some((kind, spec, host)) => Some(RunningView { pid: p.pid as u32, kind, spec, host }),
            None => None,
        }
    }
}

/// The tunnels among the processes, in the order in which these are listed.
pub open spec fn tunnels_among(ps: Seq<ProcessView>, me: Option<u32>) -> Seq<RunningView>
    decreases ps.len(),
{
    if ps.len() == 0 {
        Seq::empty()
    } else {
        let before = tunnels_among(ps.drop_last(), me);
        match as_tunnel(ps.last(), me) {
            Some(t) => before.push(t),
            None => before,
        }
    }
}

/// Every ssh forward running under this user.
///
/// Restricted to our own uid, because argv is world-readable: without that
/// another user's tunnel is listed as unclaimed and offered for stopping, and
/// the `kill` behind that offer can only fail.
pub fn scan(processes: &[Process], me: Option<u32>) -> (r: Vec<Running>)
    ensures
        views(r@) == tunnels_among(views(processes@), me),
{
    let ghost ps = views(processes@);
    let mut out: Vec<Running> = Vec::new();
    let mut i: usize = 0;
    assert(views(out@) =~= tunnels_among(ps.take(0), me));
    while i < processes.len()
        invariant
            ps == views(processes@),
            i <= processes@.len(),
            views(out@) == tunnels_among(ps.take(i as int), me),
        decreases processes@.len() - i,
    {
        let ghost before = out@;
        let p: &Process = &processes[i];
        proof {
            assert(ps.take(i + 1).drop_last() =~= ps.take(i as int));
            assert(ps.take(i + 1).last() == p@);
        }
        let mine: bool = me.is_none() || (p.uid.is_some() && p.uid.unwrap() == me.unwrap());
        if mine && 0 <= p.pid && p.pid <= 0xffff_ffff {
            match &p.argv {
                Some(argv) => match parse_argv(argv.as_slice()) {
                    Some((kind, spec, host)) => {
                        out.push(Running { pid: p.pid as u32, kind, spec, host });
                        proof {
                            lemma_views_push(before, out@.last());
                        }
                    },
                    None => {},
                },
                None => {},
            }
        }
        i += 1;
    }
    assert(ps.take(i as int) =~= ps);
    out
}

/// What one tunnel process has been doing, as opposed to what it is.
///
/// Kept apart from [`Running`] on purpose: `Running` answers "which rule is this
/// process", and nothing here may be read until that answer exists. Measuring
/// first and identifying afterwards is how you end up carefully charting a
/// process that was never the one you meant.
#[derive(Debug, Clone, Copy, PartialEq, Eq, Structural)]
pub struct Usage {
    /// In seconds.
    pub uptime: u64,
    /// Bytes the process has read, where that can be counted at all.
    ///
    /// A forwarder reads each payload byte once on its way in and writes it once
    /// on its way out, in both directions, so the bytes read alone already track
    /// everything through the tunnel -- adding those written counts the same
    /// bytes twice and silently doubles every rate on screen.
    ///
    /// `None` where the system does not count them, and it has to stay `None`
    /// all the way to the screen: a stand-in of `0` would read as a live tunnel
    /// nobody is using.
    pub read: Option<u64>,
}

/// When a process started, in seconds since the epoch: `ticks` clock ticks, of
/// which there are `per_second` to a second, after the machine booted.
pub fn started_at(boot: u64, ticks: u64, per_second: u64) -> (r: u64)
    requires
        per_second > 0,
        boot + ticks as int / per_second as int <= u64::MAX,
    ensures
        r == boot + ticks as int / per_second as int,
{
    boot + ticks / per_second
}

/// Measure a process that has *already* been confirmed to be the tunnel's.
pub fn usage(started: u64, now: u64, read: Option<u64>) -> (r: Usage)
    ensures
        r.uptime == (if now >= started {
            now - started
        } else {
            0
        }),
        r.read == read,
{
    Usage {
        uptime: if now >= started {
            now - started
        } else {
            0
        },
        read,
    }
}

/// The first process at or after `from` that serves a rule.
pub open spec fn serving(
    running: Seq<RunningView>,
    f: ForwardView,
    from: int,
) -> Option<RunningView>
    decreases running.len() - from,
{
    if from >= running.len() {
        None
    } else if running[from].serves(f) {
        Some(running[from])
    } else {
        serving(running, f, from + 1)
    }
}

/// The process serving `forward`, if one is up.
pub fn find<'a>(running: &'a [Running], forward: &Forward) -> (r: Option<&'a Running>)
    ensures
        view_of(r) == serving(views(running@), forward@, 0),
{
    let spec: String = forward.spec();
    let mut i: usize = 0;
    while i < running.len()
        invariant
            spec@ == forward@.argument(),
            i <= running@.len(),
            serving(views(running@), forward@, 0) == serving(
                views(running@),
                forward@,
                i as int,
            ),
        decreases running@.len() - i,
    {
        let r: &Running = &running[i];
        assert(views(running@)[i as int] == r@);
        if r.kind == forward.kind && same(r.spec.as_str(), spec.as_str()) && same(
            r.host.as_str(),
            forward.host.as_str(),
        ) {
            return Some(r);
        }
        i += 1;
    }
    None
}

/// How launching a tunnel went, once ssh has put itself in the background.
///
/// `-f` makes ssh fork once the forward is established, so a bind failure still
/// comes back as a non-zero exit rather than a process that is alive with
/// nothing listening.
pub fn start(output: &CommandOutput) -> (r: Result<(), String>)
    ensures
        r is Ok <==> output.success,
        r matches Err(e) ==> e@ == (if trimmed(output.stderr@).len() == 0 {
            "ssh exited with "@ + output.status@
        } else {
            trimmed(output.stderr@)
        }),
{
    if output.success {
        return Ok(());
    }
    let stderr: &str = trim(output.stderr.as_str());
    if stderr.is_empty() {
        let mut message: String = "ssh exited with ".to_owned();
        message.append(output.status.as_str());
        Err(message)
    } else {
        Err(stderr.to_owned())
    }
}

/// How stopping a process went. It is stopped by pid, never by pattern: a
/// pattern would match the process doing the matching.
pub fn stop(pid: u32, output: &CommandOutput) -> (r: Result<(), String>)
    ensures
        r is Ok <==> output.success,
        r matches Err(e) ==> e@ == "kill "@ + decimal(pid as nat) + " exited with "@
            + output.status@,
{
    if output.success {
        return Ok(());
    }
    let mut message: String = "kill ".to_owned();
    message.append(to_decimal(pid as u128).as_str());
    message.append(" exited with ");
    message.append(output.status.as_str());
    Err(message)
}

/// A tunnel started from a rule is recognised again: its command line gives
/// back the direction, argument and host of the rule, and so the process serves
/// the rule. A host that ssh would take for an option is left out.
pub proof fn law_started_tunnel_is_claimed(f: ForwardView, program: Seq<char>, pid: u32)
    requires
        after_last(program, '/') == "ssh"@,
        !is_cluster(f.host),
    ensures
        claimed(seq![program] + f.arguments()) == Some((f.kind, f.argument(), f.host)),
        (RunningView { pid, kind: f.kind, spec: f.argument(), host: f.host }).serves(f),
{
    let argv = seq![program] + f.arguments();
    reveal_strlit("-f");
    reveal_strlit("-N");
    reveal_strlit("-o");
    reveal_strlit("-L");
    reveal_strlit("-R");
    reveal_strlit("BbcDEeFIiJLlmOoPpQRSWw");
    assert(TAKES_VALUE@[18] == 'R' && TAKES_VALUE@[10] == 'L' && TAKES_VALUE@[14] == 'o');
    assert(takes_value('o') && takes_value('L') && takes_value('R'));
    assert(!takes_value('f') && !takes_value('N'));
    let none = Seen { forward: None, host: None };
    let some = Seen { forward: Some((f.kind, f.argument())), host: None };
    let done = Seen { forward: Some((f.kind, f.argument())), host: Some(f.host) };
    assert(argv.len() == 10);
    assert(valued("-f"@, 1) == 2) by {
        assert(valued("-f"@, 2) == 2);
    }
    assert(valued("-N"@, 1) == 2) by {
        assert(valued("-N"@, 2) == 2);
    }
    assert(walked(argv, 10, done) == Some(done));
    assert(walked(argv, 9, some) == Some(done));
    assert(walked(argv, 7, none) == walked(argv, 9, some));
    assert(walked(argv, 5, none) == walked(argv, 7, none));
    assert(walked(argv, 3, none) == walked(argv, 5, none));
    assert(walked(argv, 2, none) == walked(argv, 3, none));
    assert(walked(argv, 1, none) == walked(argv, 2, none));
}

/// The word, read as options, asks for a forward.
pub open spec fn asks_forward(arg: Seq<char>) -> bool {
    &&& is_cluster(arg)
    &&& valued(arg, 1) < arg.len()
    &&& arg[valued(arg, 1)] == 'L' || arg[valued(arg, 1)] == 'R'
}

/// A command line with no option that asks for a forward is not a tunnel,
/// whatever else it holds: not a plain session, not the helper of a jump host,
/// not a dynamic forward.
pub proof fn law_no_forward_no_tunnel(argv: Seq<Seq<char>>)
    requires
        forall|i: int| 0 <= i < argv.len() ==> !asks_forward(#[trigger] argv[i]),
    ensures
        claimed(argv) is None,
{
    lemma_no_forward(argv, 1, Seen { forward: None, host: None });
}

proof fn lemma_no_forward(argv: Seq<Seq<char>>, i: int, seen: Seen)
    requires
        0 <= i,
        seen.forward is None,
        forall|i: int| 0 <= i < argv.len() ==> !asks_forward(#[trigger] argv[i]),
    ensures
        walked(argv, i, seen) matches Some(s) ==> s.forward is None,
    decreases argv.len() - i,
{
    if i < argv.len() {
        assert(!asks_forward(argv[i]));
        if !is_cluster(argv[i]) {
            lemma_no_forward(argv, i + 1, with_word(seen, argv[i]));
        } else {
            lemma_valued(argv[i], 1);
            let at = valued(argv[i], 1);
            if at >= argv[i].len() || at + 1 < argv[i].len() {
                lemma_no_forward(argv, i + 1, seen);
            } else if i + 1 < argv.len() {
                lemma_no_forward(argv, i + 2, seen);
            }
        }
    }
}

proof fn lemma_valued(arg: Seq<char>, from: int)
    requires
        0 <= from <= arg.len(),
    ensures
        from <= valued(arg, from) <= arg.len(),
    decreases arg.len() - from,
{
    if from < arg.len() && !takes_value(arg[from]) {
        lemma_valued(arg, from + 1);
    }
}

} // verus!
