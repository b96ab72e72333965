//! What holds of the ssh module whatever keys are pressed.

use vstd::prelude::*;
use crate::find::holds;
use crate::form::planned;
use crate::key::KeyEvent;
use crate::module::ModuleActionView;
use crate::ssh::{reacts, World};
use crate::sshconfig::HostBlockView;
use crate::state::{
    all_slots, form_applied, form_saved, group_full, group_mark_toggled, lemma_pushed,
    lemma_without, lemma_without_group, low_names, lowercase, matching, narrowed, pair, picked_from,
    rule_removed, scope_of, start_jobs, stop_jobs, toggled, without, without_group, RequestView,
    Screen, SshStateView,
};
use crate::supervisor::serving;
use crate::tunnels::{above, is_slot, lemma_slots, slots};
use crate::worker::JobView;

verus! {

/// The places go from the top to the bottom of the screen.
pub open spec fn in_screen_order(list: Seq<(int, int)>) -> bool {
    forall|i: int, j: int| 0 <= i < j < list.len() ==> above(#[trigger] list[i], #[trigger] list[j])
}

proof fn lemma_picked(list: Seq<(int, int)>, picked: Seq<(int, int)>)
    requires
        in_screen_order(list),
    ensures
        in_screen_order(picked_from(list, picked)),
        forall|i: int|
            0 <= i < picked_from(list, picked).len() ==> list.contains(
                #[trigger] picked_from(list, picked)[i],
            ) && picked.contains(picked_from(list, picked)[i]),
        forall|x: (int, int)| #[trigger]
            list.contains(x) && picked.contains(x) ==> picked_from(list, picked).contains(x),
    decreases list.len(),
{
    if list.len() > 0 {
        let init = list.drop_last();
        let last = list.last();
        assert forall|i: int, j: int| 0 <= i < j < init.len() implies above(
            #[trigger] init[i],
            #[trigger] init[j],
        ) by {
            assert(above(list[i], list[j]));
        }
        lemma_picked(init, picked);
        let before = picked_from(init, picked);
        let all = picked_from(list, picked);
        assert forall|i: int| 0 <= i < all.len() implies list.contains(#[trigger] all[i])
            && picked.contains(all[i]) by {
            if i < before.len() {
                assert(all[i] == before[i]);
                let k = choose|k: int| 0 <= k < init.len() && init[k] == before[i];
                assert(list[k] == all[i]);
            } else {
                assert(list[list.len() - 1] == all[i]);
            }
        }
        assert forall|i: int, j: int| 0 <= i < j < all.len() implies above(
            #[trigger] all[i],
            #[trigger] all[j],
        ) by {
            if j < before.len() {
                assert(above(before[i], before[j]));
            } else {
                assert(init.contains(before[i]));
                let k = choose|k: int| 0 <= k < init.len() && init[k] == before[i];
                assert(above(list[k], list[list.len() - 1]));
            }
        }
        assert forall|x: (int, int)| #[trigger]
            list.contains(x) && picked.contains(x) implies all.contains(x) by {
            let k = choose|k: int| 0 <= k < list.len() && list[k] == x;
            if k < init.len() {
                assert(init[k] == x);
                assert(init.contains(x));
                let m = choose|m: int| 0 <= m < before.len() && before[m] == x;
                assert(all[m] == x);
            } else {
                assert(all[before.len() as int] == x);
            }
        }
    }
}

/// The scope of an action comes out in screen order, each rule once; with marks
/// it is the marked rules, and without any it is the one under the cursor.
pub proof fn law_scope_in_screen_order(s: SshStateView)
    ensures
        in_screen_order(scope_of(s)),
        all_slots(s.tunnels, scope_of(s)),
        s.marked.len() > 0 ==> forall|x: (int, int)| #[trigger]
            scope_of(s).contains(x) <==> is_slot(s.tunnels, x) && s.marked.contains(x),
        s.marked.len() == 0 ==> (scope_of(s) == match s.cursor_slot() {
            Some(slot) => seq![slot],
            None => Seq::empty(),
        }),
{
    let all = slots(s.tunnels);
    lemma_slots(s.tunnels);
    lemma_picked(all, s.marked);
    let scope = scope_of(s);
    if s.marked.len() > 0 {
        assert forall|i: int| 0 <= i < scope.len() implies is_slot(s.tunnels, #[trigger] scope[i]) by {
            assert(all.contains(scope[i]));
            let k = choose|k: int| 0 <= k < all.len() && all[k] == scope[i];
            assert(is_slot(s.tunnels, all[k]));
        }
        assert forall|x: (int, int)| #[trigger] scope.contains(x) <==> is_slot(s.tunnels, x)
            && s.marked.contains(x) by {
            if scope.contains(x) {
                let k = choose|k: int| 0 <= k < scope.len() && scope[k] == x;
                assert(is_slot(s.tunnels, scope[k]));
                assert(s.marked.contains(scope[k]));
            }
            if is_slot(s.tunnels, x) && s.marked.contains(x) {
                assert(all.contains(x));
            }
        }
    } else if let Some(slot) = s.cursor_slot() {
        assert(is_slot(s.tunnels, all[s.forward_index]));
    }
}

/// Marking is a toggle, not an accumulate-only: it changes the one mark, and
/// twice changes nothing.
pub proof fn law_mark_is_a_toggle(list: Seq<(int, int)>, x: (int, int))
    ensures
        toggled(list, x).contains(x) <==> !list.contains(x),
        forall|y: (int, int)|
            y != x ==> (#[trigger] toggled(list, x).contains(y) <==> list.contains(y)),
        forall|y: (int, int)| #[trigger]
            toggled(toggled(list, x), x).contains(y) <==> list.contains(y),
{
    let once = toggled(list, x);
    lemma_without(list, x);
    lemma_pushed(list, x);
    lemma_without(once, x);
    lemma_pushed(once, x);
}

/// Marking a group fills it; marking one that is full clears it. Marks in other
/// groups stay either way.
pub proof fn law_group_mark(s: SshStateView)
    requires
        s.cursor_slot() is Some,
    ensures
        ({
            let p = (s.cursor_slot()->0).0;
            let after = group_mark_toggled(s).marked;
            &&& !group_full(s.marked, s.tunnels, p) ==> group_full(after, s.tunnels, p)
            &&& group_full(s.marked, s.tunnels, p) ==> forall|y: (int, int)| #[trigger]
                after.contains(y) ==> y.0 != p
            &&& forall|y: (int, int)|
                y.0 != p ==> (#[trigger] after.contains(y) <==> s.marked.contains(y))
        }),
{
    let p = (s.cursor_slot()->0).0;
    let others = without_group(s.marked, p);
    let whole = Seq::new(s.tunnels[p].forwards.len(), |f: int| (p, f));
    let after = group_mark_toggled(s).marked;
    lemma_without_group(s.marked, p);
    if !group_full(s.marked, s.tunnels, p) {
        assert(after == others + whole);
        assert forall|f: int| 0 <= f < s.tunnels[p].forwards.len() implies after.contains(
            #[trigger] pair(p, f),
        ) by {
            assert(after[others.len() + f] == pair(p, f));
        }
        assert forall|y: (int, int)| y.0 != p implies (#[trigger] after.contains(y)
            <==> s.marked.contains(y)) by {
            if after.contains(y) {
                let k = choose|k: int| 0 <= k < after.len() && after[k] == y;
                if k < others.len() {
                    assert(others[k] == y);
                    assert(others.contains(y));
                } else {
                    assert(whole[k - others.len()] == y);
                }
            }
            if s.marked.contains(y) {
                assert(others.contains(y));
                let k = choose|k: int| 0 <= k < others.len() && others[k] == y;
                assert(after[k] == y);
            }
        }
    }
}

/// Marks are positions, so none outlives a change of the rules.
pub proof fn law_changes_drop_marks(s: SshStateView)
    ensures
        s.cursor_slot() is Some ==> rule_removed(s).marked.len() == 0,
        s.forward_form is Some ==> form_applied(s).marked.len() == 0,
{
}

/// While a filter is typed no key leaves the screen or the module.
pub proof fn law_filter_keeps_the_screen(
    s: SshStateView,
    key: KeyEvent,
    world: World,
    next: SshStateView,
    action: ModuleActionView,
)
    requires
        s.screen == Screen::Config,
        s.searching,
        reacts(s, key, world, next, action),
    ensures
        action == ModuleActionView::Stay,
        next.screen == Screen::Config,
        next.config == s.config,
        next.requests == s.requests,
{
}

/// Without a query every host is listed. With one, the hosts listed are those
/// whose name holds it, in the order of the file.
pub proof fn law_filter(hosts: Seq<HostBlockView>, query: Seq<char>)
    ensures
        query.len() == 0 ==> matching(hosts, query) == Seq::new(hosts.len(), |i: int| i),
        query.len() > 0 ==> forall|i: int| #[trigger]
            matching(hosts, query).contains(i) <==> 0 <= i < hosts.len() && holds(
                low_names(hosts)[i],
                lowercase(query),
            ),
        forall|a: int, b: int|
            0 <= a < b < matching(hosts, query).len() ==> (#[trigger] matching(hosts, query)[a]) < (
            #[trigger] matching(hosts, query)[b]),
{
    lemma_narrowed(low_names(hosts), lowercase(query), hosts.len() as int);
}

proof fn lemma_narrowed(names: Seq<Seq<char>>, query: Seq<char>, n: int)
    requires
        0 <= n <= names.len(),
    ensures
        forall|i: int| #[trigger]
            narrowed(names, query, n).contains(i) <==> 0 <= i < n && holds(names[i], query),
        forall|a: int, b: int|
            0 <= a < b < narrowed(names, query, n).len() ==> (#[trigger] narrowed(
                names,
                query,
                n,
            )[a]) < (#[trigger] narrowed(names, query, n)[b]),
    decreases n,
{
    if n > 0 {
        lemma_narrowed(names, query, n - 1);
        let before = narrowed(names, query, n - 1);
        let all = narrowed(names, query, n);
        assert forall|i: int| #[trigger] all.contains(i) <==> 0 <= i < n && holds(
            names[i],
            query,
        ) by {
            if all.contains(i) {
                let k = choose|k: int| 0 <= k < all.len() && all[k] == i;
                if k < before.len() {
                    assert(before[k] == i);
                    assert(before.contains(i));
                }
            }
            if 0 <= i < n && holds(names[i], query) {
                if i < n - 1 {
                    assert(before.contains(i));
                    let k = choose|k: int| 0 <= k < before.len() && before[k] == i;
                    assert(all[k] == i);
                } else {
                    assert(all[before.len() as int] == i);
                }
            }
        }
        assert forall|a: int, b: int| 0 <= a < b < all.len() implies (#[trigger] all[a]) < (
        #[trigger] all[b]) by {
            if b < before.len() {
                assert(before[a] < before[b]);
            } else {
                assert(before.contains(before[a]));
            }
        }
    }
}

/// A config that must not be written is never asked to be, and neither is one
/// that would not change.
pub proof fn law_no_needless_write(s: SshStateView, now: u64)
    requires
        s.form is Some,
        s.config.read_only || planned(s.form->0, s.config).changes.len() == 0,
    ensures
        form_saved(s, now).requests == s.requests,
        form_saved(s, now).form == s.form,
        form_saved(s, now).notification is Some,
{
}

/// Only a rule without a flaw that no process serves is started, and it is
/// started as it stands.
pub proof fn law_only_startable_is_started(s: SshStateView, list: Seq<(int, int)>, i: int)
    requires
        0 <= i < start_jobs(s, list).len(),
    ensures
        ({
            let job = start_jobs(s, list)[i];
            &&& job matches RequestView::Submit(JobView::Start(slot, rule))
            &&& list.contains(slot)
            &&& rule == s.rule_at(slot)
            &&& rule.flaw() is None
            &&& s.process_of(slot) is None
        }),
    decreases list.len(),
{
    let init = list.drop_last();
    let before = start_jobs(s, init);
    if i < before.len() {
        law_only_startable_is_started(s, init, i);
        let slot = before[i]->Submit_0->Start_0;
        let k = choose|k: int| 0 <= k < init.len() && init[k] == slot;
        assert(list[k] == slot);
    } else {
        assert(list[list.len() - 1] == list.last());
    }
}

/// A rule is stopped by the number of a process that serves it.
pub proof fn law_only_own_processes_are_stopped(s: SshStateView, list: Seq<(int, int)>, i: int)
    requires
        0 <= i < stop_jobs(s, list).len(),
    ensures
        ({
            let job = stop_jobs(s, list)[i];
            &&& job matches RequestView::Submit(JobView::Stop(slot, pid))
            &&& list.contains(slot)
            &&& exists|k: int|
                0 <= k < s.running.len() && (#[trigger] s.running[k]).pid == pid
                    && s.running[k].serves(s.rule_at(slot))
        }),
    decreases list.len(),
{
    let init = list.drop_last();
    let before = stop_jobs(s, init);
    if i < before.len() {
        law_only_own_processes_are_stopped(s, init, i);
        let slot = before[i]->Submit_0->Stop_0;
        let k = choose|k: int| 0 <= k < init.len() && init[k] == slot;
        assert(list[k] == slot);
    } else {
        assert(list[list.len() - 1] == list.last());
        lemma_serving(s, list.last(), 0);
    }
}

proof fn lemma_serving(s: SshStateView, slot: (int, int), from: int)
    requires
        0 <= from,
    ensures
        serving(s.running, s.rule_at(slot), from) matches Some(r) ==> exists|k: int|
            0 <= k < s.running.len() && (#[trigger] s.running[k]) == r && r.serves(
                s.rule_at(slot),
            ),
    decreases s.running.len() - from,
{
    if from < s.running.len() && !s.running[from].serves(s.rule_at(slot)) {
        lemma_serving(s, slot, from + 1);
    }
}

} // verus!
