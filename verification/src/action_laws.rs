//! What starting and stopping rules comes to: which rules get a job, which are
//! counted as left out, and what each key of the dashboard does.

use vstd::prelude::*;
use crate::argv_laws::{law_found_process_serves, runs};
use crate::find::{last_of, lemma_last_of};
use crate::key::{KeyCode, KeyEvent};
use crate::module::ModuleActionView;
use crate::number::{decimal, read_u16};
use crate::probe::port_in;
use crate::ssh::{reacts, World};
use crate::state::{
    incomplete, lemma_without_group, pair, picked_from, rules_up, scope_of, slots_started, slots_stopped, start_jobs,
    stop_jobs, without_group, RequestView, Screen, SshStateView,
};
use crate::supervisor::RunningView;
use crate::text::{lead, lemma_lead, lemma_tail, trimmed, white};
use crate::tunnels::{is_slot, lemma_slots, slots, ForwardView, Kind};
use crate::worker::JobView;

verus! {

/// The text is a host and a port: there is a `:` in it, and before and behind the
/// last one stands something.
pub open spec fn host_and_port(target: Seq<char>) -> bool {
    exists|i: int|
        0 < i < target.len() - 1 && #[trigger] target[i] == ':' && !target.skip(i + 1).contains(':')
}

/// The rule says all that a tunnel needs: a host, a port to listen on and an exit.
pub open spec fn complete(rule: ForwardView) -> bool {
    &&& exists|i: int| 0 <= i < rule.host.len() && !white(#[trigger] rule.host[i])
    &&& port_in(rule.bind) is Some
    &&& host_and_port(rule.target)
}

/// No process runs for the rule at this place.
pub open spec fn unserved(s: SshStateView, slot: (int, int)) -> bool {
    forall|j: int| 0 <= j < s.running.len() ==> !runs(#[trigger] s.running[j], s.rule_at(slot))
}

/// The first process that runs for the rule.
pub open spec fn first_runs(s: SshStateView, slot: (int, int), j: int) -> bool {
    &&& 0 <= j < s.running.len()
    &&& runs(s.running[j], s.rule_at(slot))
    &&& forall|k: int| 0 <= k < j ==> !runs(#[trigger] s.running[k], s.rule_at(slot))
}

proof fn lemma_host_and_port(target: Seq<char>)
    ensures
        host_and_port(target) <==> 0 < last_of(target, ':') < target.len() - 1,
{
    lemma_last_of(target, ':');
    let k = last_of(target, ':');
    if 0 < k < target.len() - 1 {
        let rest = target.skip(k + 1);
        assert(!rest.contains(':')) by {
            if rest.contains(':') {
                let j = choose|j: int| 0 <= j < rest.len() && rest[j] == ':';
                assert(target[j + k + 1] == ':');
            }
        }
        assert(target[k] == ':');
    }
    if host_and_port(target) {
        let i = choose|i: int|
            0 < i < target.len() - 1 && #[trigger] target[i] == ':' && !target.skip(i + 1).contains(
                ':',
            );
        if k > i {
            assert(target.skip(i + 1)[k - i - 1] == ':');
        }
    }
}

/// The rule names no host: what stands there is white space, if anything.
pub open spec fn hostless(rule: ForwardView) -> bool {
    forall|i: int| 0 <= i < rule.host.len() ==> white(#[trigger] rule.host[i])
}

proof fn lemma_hostless(rule: ForwardView)
    ensures
        trimmed(rule.host).len() == 0 <==> hostless(rule),
{
    let host = rule.host;
    lemma_lead(host, 0);
    let lo = lead(host, 0);
    let u = host.skip(lo);
    lemma_tail(u, u.len() as int);
    if !hostless(rule) {
        let i = choose|i: int| 0 <= i < host.len() && !white(#[trigger] host[i]);
        assert(u[i - lo] == host[i]);
    } else if lo < host.len() {
        assert(white(host[lo]));
    }
}

/// A rule has no flaw if and only if it says all that a tunnel needs, whatever its
/// direction, its protocol and its note. Otherwise the first thing that it lacks is
/// asked for: the host, the port, then the exit.
pub proof fn law_complete_rule_has_no_flaw(rule: ForwardView)
    ensures
        rule.flaw() is None <==> complete(rule),
        hostless(rule) ==> rule.flaw() == Some("incomplete: pick a host"@),
        !hostless(rule) && port_in(rule.bind) is None ==> rule.flaw() == Some(
            "incomplete: listen on a port, or address:port"@,
        ),
        !hostless(rule) && port_in(rule.bind) is Some && !host_and_port(rule.target)
            ==> rule.flaw() == Some(
            "incomplete: exit at host:port, like "@ + (if read_u16(rule.target, 10) is Some {
                "localhost:"@ + rule.target
            } else {
                "localhost:22"@
            }) + " -- any address "@ + (if rule.kind == Kind::Local {
                rule.host
            } else {
                "this machine"@
            }) + " can reach"@,
        ),
{
    lemma_host_and_port(rule.target);
    lemma_hostless(rule);
}

/// The process found for a rule is the first that runs for it.
pub proof fn lemma_process(s: SshStateView, slot: (int, int))
    ensures
        s.process_of(slot) is None <==> unserved(s, slot),
        forall|j: int| #[trigger] first_runs(s, slot, j) ==> s.process_of(slot) == Some(s.running[j]),
        s.process_of(slot) matches Some(r) ==> exists|j: int| #[trigger]
            first_runs(s, slot, j) && s.running[j] == r,
{
    let f = s.rule_at(slot);
    law_found_process_serves(s.running, f);
    if let Some(r) = s.process_of(slot) {
        let i = choose|i: int|
            0 <= i < s.running.len() && s.running[i] == r && #[trigger] runs(s.running[i], f)
                && forall|j: int| 0 <= j < i ==> !runs(#[trigger] s.running[j], f);
        assert(first_runs(s, slot, i));
        assert forall|j: int| #[trigger] first_runs(s, slot, j) implies s.process_of(slot) == Some(
            s.running[j],
        ) by {
            if j < i {
                assert(!runs(s.running[j], f));
            } else if i < j {
                assert(!runs(s.running[i], f));
            }
        }
    }
}

/// The job that starts the rule at a place.
pub open spec fn start_of(s: SshStateView, slot: (int, int)) -> RequestView {
    RequestView::Submit(JobView::Start(slot, s.rule_at(slot)))
}

/// The job that stops the process of the rule at a place.
pub open spec fn stop_of(slot: (int, int), r: RunningView) -> RequestView {
    RequestView::Submit(JobView::Stop(slot, r.pid))
}

/// How many of the places have the property.
pub open spec fn tally(list: Seq<(int, int)>, p: spec_fn((int, int)) -> bool) -> nat
    decreases list.len(),
{
    if list.len() == 0 {
        0
    } else {
        tally(list.drop_last(), p) + if p(list.last()) {
            1nat
        } else {
            0nat
        }
    }
}

/// The places that have the property, in order.
pub open spec fn those(list: Seq<(int, int)>, p: spec_fn((int, int)) -> bool) -> Seq<(int, int)>
    decreases list.len(),
{
    if list.len() == 0 {
        Seq::empty()
    } else {
        let before = those(list.drop_last(), p);
        if p(list.last()) {
            before.push(list.last())
        } else {
            before
        }
    }
}

/// Each place that has the property is among those, and no other.
pub proof fn lemma_those(list: Seq<(int, int)>, p: spec_fn((int, int)) -> bool)
    ensures
        those(list, p).len() == tally(list, p),
        forall|x: (int, int)| #[trigger]
            those(list, p).contains(x) <==> list.contains(x) && p(x),
    decreases list.len(),
{
    if list.len() > 0 {
        let init = list.drop_last();
        lemma_those(init, p);
        crate::state::lemma_pushed(init, list.last());
        crate::state::lemma_pushed(those(init, p), list.last());
        assert(list =~= init.push(list.last()));
    }
}

/// The place can be started.
pub open spec fn ready(s: SshStateView) -> spec_fn((int, int)) -> bool {
    |slot: (int, int)| unserved(s, slot) && complete(s.rule_at(slot))
}

/// The place is not up, and its rule lacks something.
pub open spec fn lacking(s: SshStateView) -> spec_fn((int, int)) -> bool {
    |slot: (int, int)| unserved(s, slot) && !complete(s.rule_at(slot))
}

/// The place is up.
pub open spec fn served(s: SshStateView) -> spec_fn((int, int)) -> bool {
    |slot: (int, int)| !unserved(s, slot)
}

/// Of the places in a list, every one whose rule is complete and that no process
/// serves gets one job that starts it, in the order of the list and whatever way the
/// rule runs; no other place gets one.
pub proof fn law_every_complete_rule_is_started(
    s: SshStateView,
    list: Seq<(int, int)>,
    now: u64,
)
    ensures
        ({
            let next = slots_started(s, list, now);
            let due = those(list, ready(s));
            &&& next.requests.len() == s.requests.len() + due.len()
            &&& forall|i: int|
                0 <= i < s.requests.len() ==> #[trigger] next.requests[i] == s.requests[i]
            &&& forall|i: int|
                0 <= i < due.len() ==> next.requests[s.requests.len() + i] == start_of(
                    s,
                    #[trigger] due[i],
                )
            &&& next == SshStateView {
                requests: next.requests,
                notification: next.notification,
                ..s
            }
        }),
{
    lemma_start_jobs(s, list);
}

/// So for each place of the list, whichever it is, whose rule is complete and that no
/// process serves, the job that starts it is asked for.
pub proof fn law_no_startable_rule_is_left_out(
    s: SshStateView,
    list: Seq<(int, int)>,
    k: int,
    now: u64,
)
    requires
        0 <= k < list.len(),
        complete(s.rule_at(list[k])),
        unserved(s, list[k]),
    ensures
        exists|i: int|
            s.requests.len() <= i < slots_started(s, list, now).requests.len()
                && #[trigger] slots_started(s, list, now).requests[i] == start_of(s, list[k]),
{
    lemma_start_jobs(s, list);
    lemma_those(list, ready(s));
    let due = those(list, ready(s));
    assert(list.contains(list[k]));
    assert(ready(s)(list[k]));
    assert(due.contains(list[k]));
    let m = choose|m: int| 0 <= m < due.len() && due[m] == list[k];
    let i = s.requests.len() + m;
    assert(slots_started(s, list, now).requests[i] == start_jobs(s, list)[m]);
}

proof fn lemma_start_jobs(s: SshStateView, list: Seq<(int, int)>)
    ensures
        start_jobs(s, list).len() == those(list, ready(s)).len(),
        forall|i: int|
            0 <= i < start_jobs(s, list).len() ==> #[trigger] start_jobs(s, list)[i] == start_of(
                s,
                those(list, ready(s))[i],
            ),
        incomplete(s, list) == tally(list, lacking(s)),
        those(list, ready(s)).len() == tally(list, ready(s)),
        tally(list, ready(s)) + tally(list, lacking(s)) + tally(list, served(s)) == list.len(),
    decreases list.len(),
{
    if list.len() > 0 {
        let init = list.drop_last();
        lemma_start_jobs(s, init);
        let x = list.last();
        lemma_process(s, x);
        law_complete_rule_has_no_flaw(s.rule_at(x));
    }
}

/// What is said when rules are started counts the jobs, and the rules that were left
/// out because they lack something; these, the started and those that are up already
/// are all there are.
pub proof fn law_no_rule_is_left_out_in_silence(
    s: SshStateView,
    list: Seq<(int, int)>,
    now: u64,
)
    ensures
        ({
            let next = slots_started(s, list, now);
            let started = next.requests.len() - s.requests.len();
            let up = tally(list, served(s));
            let skipped = list.len() - started - up;
            &&& started == tally(list, ready(s))
            &&& skipped == tally(list, lacking(s))
            &&& next.notification == Some(
                (
                    if started == 0 && skipped == 0 {
                        "Nothing to start"@
                    } else if skipped == 0 {
                        "Starting "@ + decimal(started as nat)
                    } else {
                        "Starting "@ + decimal(started as nat) + ", skipped "@ + decimal(
                            skipped as nat,
                        ) + " incomplete"@
                    },
                    now,
                ),
            )
        }),
{
    lemma_start_jobs(s, list);
}

/// Of the places in a list, every one that a process serves gets one job that stops
/// the first such process, in the order of the list; no other place gets one, and
/// the jobs are counted.
pub proof fn law_every_rule_that_is_up_is_stopped(
    s: SshStateView,
    list: Seq<(int, int)>,
    now: u64,
)
    ensures
        ({
            let next = slots_stopped(s, list, now);
            let due = those(list, served(s));
            &&& next.requests.len() == s.requests.len() + due.len()
            &&& forall|i: int|
                0 <= i < s.requests.len() ==> #[trigger] next.requests[i] == s.requests[i]
            &&& forall|i: int, j: int|
                0 <= i < due.len() && #[trigger] first_runs(s, due[i], j)
                    ==> next.requests[s.requests.len() + i] == stop_of(due[i], s.running[j])
            &&& next.notification == Some(
                (
                    if due.len() == 0 {
                        "Nothing to stop"@
                    } else {
                        "Stopping "@ + decimal(due.len())
                    },
                    now,
                ),
            )
            &&& next == SshStateView {
                requests: next.requests,
                notification: next.notification,
                ..s
            }
        }),
{
    lemma_stop_jobs(s, list);
    let due = those(list, served(s));
    let next = slots_stopped(s, list, now);
    assert forall|i: int, j: int|
        0 <= i < due.len() && #[trigger] first_runs(s, due[i], j) implies next.requests[
    s.requests.len() + i] == stop_of(due[i], s.running[j]) by {
        assert(next.requests[s.requests.len() + i] == stop_jobs(s, list)[i]);
    }
}

proof fn lemma_stop_jobs(s: SshStateView, list: Seq<(int, int)>)
    ensures
        stop_jobs(s, list).len() == those(list, served(s)).len(),
        forall|i: int, j: int|
            0 <= i < stop_jobs(s, list).len() && #[trigger] first_runs(
                s,
                those(list, served(s))[i],
                j,
            ) ==> stop_jobs(s, list)[i] == stop_of(those(list, served(s))[i], s.running[j]),
    decreases list.len(),
{
    if list.len() > 0 {
        let init = list.drop_last();
        lemma_stop_jobs(s, init);
        let x = list.last();
        lemma_process(s, x);
        let due = those(list, served(s));
        let was = those(init, served(s));
        assert forall|i: int, j: int|
            0 <= i < stop_jobs(s, list).len() && #[trigger] first_runs(
                s,
                due[i],
                j,
            ) implies stop_jobs(s, list)[i] == stop_of(due[i], s.running[j]) by {
            if i < was.len() {
                assert(due[i] == was[i]);
                assert(first_runs(s, was[i], j));
            }
        }
    }
}

/// On the dashboard, `a` starts what all the rules ask for and `A` stops all that is
/// up; `s` and `S` do so for the marked rules, or for the one under the cursor where
/// none is marked.
pub proof fn law_dashboard_acts_on_all_or_on_the_marked(
    s: SshStateView,
    key: KeyEvent,
    world: World,
    next: SshStateView,
    action: ModuleActionView,
    slot: (int, int),
)
    requires
        s.screen == Screen::Dashboard,
        reacts(s, key, world, next, action),
        is_slot(s.tunnels, slot),
        ({
            ||| key.code == KeyCode::Char('a')
            ||| key.code == KeyCode::Char('A')
            ||| key.code == KeyCode::Char('s')
            ||| key.code == KeyCode::Char('S')
        }),
    ensures
        ({
            let meant = {
                ||| key.code == KeyCode::Char('a')
                ||| key.code == KeyCode::Char('A')
                ||| s.marked.contains(slot)
                ||| s.marked.len() == 0 && s.cursor_slot() == Some(slot)
            };
            let asked = next.requests.skip(s.requests.len() as int);
            &&& next.requests.take(s.requests.len() as int) == s.requests
            &&& (key.code == KeyCode::Char('a') || key.code == KeyCode::Char('s')) ==> (
            asked.contains(start_of(s, slot)) <==> meant && unserved(s, slot) && complete(
                s.rule_at(slot),
            ))
            &&& (key.code == KeyCode::Char('A') || key.code == KeyCode::Char('S')) && meant ==> (
            forall|j: int| #[trigger]
                first_runs(s, slot, j) ==> asked.contains(stop_of(slot, s.running[j])))
            &&& action == ModuleActionView::Stay
            &&& next.marked == s.marked
            &&& next.tunnels == s.tunnels
            &&& next.forward_index == s.forward_index
        }),
{
    let all = slots(s.tunnels);
    let scope = scope_of(s);
    lemma_slots(s.tunnels);
    lemma_picked(all, s.marked);
    assert(all.contains(slot));
    let start = key.code == KeyCode::Char('a') || key.code == KeyCode::Char('s');
    let list = if key.code == KeyCode::Char('a') || key.code == KeyCode::Char('A') {
        all
    } else {
        scope
    };
    let meant = {
        ||| key.code == KeyCode::Char('a')
        ||| key.code == KeyCode::Char('A')
        ||| s.marked.contains(slot)
        ||| s.marked.len() == 0 && s.cursor_slot() == Some(slot)
    };
    assert(list.contains(slot) <==> meant) by {
        if s.marked.len() == 0 {
            if let Some(x) = s.cursor_slot() {
                assert(seq![x][0] == x);
            }
        }
    }
    let n = s.requests.len() as int;
    let asked = next.requests.skip(n);
    assert(next.requests.take(n) =~= s.requests);
    if start {
        let due = those(list, ready(s));
        lemma_start_jobs(s, list);
        lemma_those(list, ready(s));
        assert(asked =~= start_jobs(s, list));
        if meant && unserved(s, slot) && complete(s.rule_at(slot)) {
            assert(ready(s)(slot));
            assert(due.contains(slot));
            let m = choose|m: int| 0 <= m < due.len() && due[m] == slot;
            assert(asked[m] == start_of(s, slot));
        }
        if asked.contains(start_of(s, slot)) {
            let m = choose|m: int| 0 <= m < asked.len() && asked[m] == start_of(s, slot);
            assert(start_jobs(s, list)[m] == start_of(s, due[m]));
            assert(due[m] == slot);
            assert(due.contains(slot));
        }
    } else {
        let due = those(list, served(s));
        lemma_stop_jobs(s, list);
        lemma_those(list, served(s));
        assert(asked =~= stop_jobs(s, list));
        if meant {
            assert forall|j: int| #[trigger] first_runs(s, slot, j) implies asked.contains(
                stop_of(slot, s.running[j]),
            ) by {
                assert(served(s)(slot));
                assert(due.contains(slot));
                let m = choose|m: int| 0 <= m < due.len() && due[m] == slot;
                assert(first_runs(s, due[m], j));
                assert(asked[m] == stop_of(slot, s.running[j]));
            }
        }
    }
}

proof fn lemma_picked(list: Seq<(int, int)>, picked: Seq<(int, int)>)
    ensures
        forall|x: (int, int)| #[trigger]
            picked_from(list, picked).contains(x) <==> list.contains(x) && picked.contains(x),
    decreases list.len(),
{
    if list.len() > 0 {
        let init = list.drop_last();
        lemma_picked(init, picked);
        crate::state::lemma_pushed(init, list.last());
        crate::state::lemma_pushed(picked_from(init, picked), list.last());
        assert(list =~= init.push(list.last()));
    }
}

/// `next` is `s` with other requests, a message or marks, and nothing else changed.
pub open spec fn but_for_actions(s: SshStateView, next: SshStateView) -> bool {
    next == SshStateView {
        requests: next.requests,
        notification: next.notification,
        marked: next.marked,
        ..s
    }
}

/// On the dashboard, Enter stops the rule under the cursor if it is up; otherwise it
/// starts it if it is complete, and says what it lacks if it is not.
pub proof fn law_enter_starts_or_stops(
    s: SshStateView,
    key: KeyEvent,
    world: World,
    next: SshStateView,
    action: ModuleActionView,
    slot: (int, int),
)
    requires
        s.screen == Screen::Dashboard,
        reacts(s, key, world, next, action),
        key.code == KeyCode::Enter,
        s.cursor_slot() == Some(slot),
    ensures
        but_for_actions(s, next),
        next.marked == s.marked,
        action == ModuleActionView::Stay,
        forall|j: int| #[trigger]
            first_runs(s, slot, j) ==> next.requests == s.requests.push(
                stop_of(slot, s.running[j]),
            ) && next.notification == s.notification,
        unserved(s, slot) && complete(s.rule_at(slot)) ==> next.requests == s.requests.push(
            start_of(s, slot),
        ) && next.notification == s.notification,
        unserved(s, slot) && !complete(s.rule_at(slot)) ==> next.requests == s.requests
            && s.rule_at(slot).flaw() is Some && next.notification == Some(
            (s.rule_at(slot).flaw()->0, world.now),
        ),
{
    lemma_process(s, slot);
    law_complete_rule_has_no_flaw(s.rule_at(slot));
}

/// The other keys of the dashboard: Space marks the rule under the cursor or takes
/// the mark off, `u` takes all marks off, `r` asks for a look at everything, Esc goes
/// to the menu and `q` leaves. Any key that is not bound does nothing.
pub proof fn law_dashboard_keys(
    s: SshStateView,
    key: KeyEvent,
    world: World,
    next: SshStateView,
    action: ModuleActionView,
)
    requires
        s.screen == Screen::Dashboard,
        reacts(s, key, world, next, action),
    ensures
        key.code == KeyCode::Esc ==> next == (SshStateView { screen: Screen::Menu, ..s }),
        action == ModuleActionView::Exit <==> key.code == KeyCode::Char('q'),
        action == ModuleActionView::Exit || action == ModuleActionView::Stay,
        key.code == KeyCode::Char('q') ==> next == s,
        key.code == KeyCode::Char('r') ==> next == (SshStateView {
            requests: s.requests.push(RequestView::Refresh),
            ..s
        }),
        key.code == KeyCode::Char('u') ==> next == (SshStateView { marked: Seq::empty(), ..s }),
        key.code == KeyCode::Char(' ') ==> next == (SshStateView { marked: next.marked, ..s }) && (
        s.cursor_slot() is None ==> next == s) && forall|x: (int, int)|
            s.cursor_slot() is Some ==> (#[trigger] next.marked.contains(x) <==> (s.marked.contains(
                x,
            ) <==> Some(x) != s.cursor_slot())),
        key.code == KeyCode::Char('g') ==> next == (SshStateView { marked: next.marked, ..s }) && (
        s.cursor_slot() is None ==> next == s),
        (key.code == KeyCode::Home || key.code == KeyCode::End || key.code == KeyCode::Tab
            || key.code == KeyCode::Backspace || key.code == KeyCode::Delete) ==> next == s,
        key.code matches KeyCode::Char(c) ==> !seq!['q', 'k', 'j', ' ', 'g', 'u', 's', 'S', 'a', 'A', 'r'].contains(
            c,
        ) ==> next == s,
{
    if let Some(slot) = s.cursor_slot() {
        crate::state::lemma_without(s.marked, slot);
        crate::state::lemma_pushed(s.marked, slot);
    }
    if let KeyCode::Char(c) = key.code {
        let bound = seq!['q', 'k', 'j', ' ', 'g', 'u', 's', 'S', 'a', 'A', 'r'];
        if !bound.contains(c) {
            assert(bound[0] == 'q' && bound[1] == 'k' && bound[2] == 'j' && bound[3] == ' '
                && bound[4] == 'g' && bound[5] == 'u' && bound[6] == 's' && bound[7] == 'S'
                && bound[8] == 'a' && bound[9] == 'A' && bound[10] == 'r');
        }
    }
}

/// On the dashboard, `g` marks the whole group of the cursor, or takes all its marks off
/// where it was marked whole; marks in other groups stay.
pub proof fn law_group_is_marked_whole_or_not_at_all(
    s: SshStateView,
    key: KeyEvent,
    world: World,
    next: SshStateView,
    action: ModuleActionView,
    slot: (int, int),
    y: (int, int),
)
    requires
        s.screen == Screen::Dashboard,
        reacts(s, key, world, next, action),
        key.code == KeyCode::Char('g'),
        s.cursor_slot() == Some(slot),
    ensures
        ({
            let p = slot.0;
            let whole = forall|f: int|
                0 <= f < s.tunnels[p].forwards.len() ==> s.marked.contains(#[trigger] pair(p, f));
            &&& y.0 != p ==> (next.marked.contains(y) <==> s.marked.contains(y))
            &&& y.0 == p && whole ==> !next.marked.contains(y)
            &&& y.0 == p && !whole ==> (next.marked.contains(y) <==> is_slot(s.tunnels, y))
            &&& next == SshStateView { marked: next.marked, ..s }
        }),
{
    let p = slot.0;
    lemma_slots(s.tunnels);
    assert(is_slot(s.tunnels, slots(s.tunnels)[s.forward_index]));
    let others = without_group(s.marked, p);
    let group = Seq::new(s.tunnels[p].forwards.len(), |f: int| (p, f));
    lemma_without_group(s.marked, p);
    let after = others + group;
    assert(after.contains(y) <==> others.contains(y) || group.contains(y)) by {
        if after.contains(y) {
            let k = choose|k: int| 0 <= k < after.len() && after[k] == y;
            if k < others.len() {
                assert(others[k] == y);
            } else {
                assert(group[k - others.len()] == y);
            }
        }
        if others.contains(y) {
            let k = choose|k: int| 0 <= k < others.len() && others[k] == y;
            assert(after[k] == y);
        }
        if group.contains(y) {
            let k = choose|k: int| 0 <= k < group.len() && group[k] == y;
            assert(after[others.len() + k] == y);
        }
    }
    assert(group.contains(y) <==> y.0 == p && is_slot(s.tunnels, y)) by {
        if y.0 == p && is_slot(s.tunnels, y) {
            assert(group[y.1] == y);
        }
    }
}

/// The cursor of the rules goes round: down from the last is the first, up from the
/// first is the last, and anything else is one on. It does so on the dashboard and in
/// the list of the rules alike, and moves nothing else.
pub proof fn law_rule_cursor_goes_round(
    s: SshStateView,
    key: KeyEvent,
    world: World,
    next: SshStateView,
    action: ModuleActionView,
)
    requires
        s.screen == Screen::Dashboard || (s.screen == Screen::Forward && s.forward_form is None),
        reacts(s, key, world, next, action),
        0 <= s.forward_index < slots(s.tunnels).len(),
        ({
            ||| key.code == KeyCode::Down
            ||| key.code == KeyCode::Char('j')
            ||| key.code == KeyCode::Up
            ||| key.code == KeyCode::Char('k')
        }),
    ensures
        next == (SshStateView { forward_index: next.forward_index, ..s }),
        action == ModuleActionView::Stay,
        (key.code == KeyCode::Down || key.code == KeyCode::Char('j')) ==> next.forward_index == (
        if s.forward_index == slots(s.tunnels).len() - 1 {
            0
        } else {
            s.forward_index + 1
        }),
        (key.code == KeyCode::Up || key.code == KeyCode::Char('k')) ==> next.forward_index == (
        if s.forward_index == 0 {
            slots(s.tunnels).len() - 1
        } else {
            s.forward_index - 1
        }),
{
    lemma_round(s.forward_index, slots(s.tunnels).len() as int);
}

/// Going on by one, and by one less than all, in a ring of `n` places.
pub proof fn lemma_round(i: int, n: int)
    requires
        0 <= i < n,
    ensures
        (i + 1) % n == (if i == n - 1 {
            0
        } else {
            i + 1
        }),
        (i + (n - 1)) % n == (if i == 0 {
            n - 1
        } else {
            i - 1
        }),
{
    if i == n - 1 {
        vstd::arithmetic::div_mod::lemma_mod_self_0(n);
    } else {
        vstd::arithmetic::div_mod::lemma_small_mod((i + 1) as nat, n as nat);
    }
    if i > 0 {
        vstd::arithmetic::div_mod::lemma_mod_add_multiples_vanish(i - 1, n);
        vstd::arithmetic::div_mod::lemma_small_mod((i - 1) as nat, n as nat);
    } else {
        vstd::arithmetic::div_mod::lemma_small_mod((n - 1) as nat, n as nat);
    }
}

/// The number of rules of a group that are up counts each place that is served.
pub proof fn law_rules_up_are_counted(s: SshStateView, p: int, n: int)
    requires
        0 <= n,
    ensures
        rules_up(s, p, n) == tally(Seq::new(n as nat, |f: int| (p, f)), served(s)),
    decreases n,
{
    let list = Seq::new(n as nat, |f: int| (p, f));
    if n > 0 {
        law_rules_up_are_counted(s, p, n - 1);
        assert(list.drop_last() =~= Seq::new((n - 1) as nat, |f: int| (p, f)));
        assert(list.last() == (p, n - 1));
        lemma_process(s, (p, n - 1));
    }
}

} // verus!
