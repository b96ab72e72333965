//! Changing the rules: saving one into a group, taking one out, and finding a
//! port that no rule has claimed.

use vstd::prelude::*;
use crate::find::{last_of, lemma_last_of, rfind};
use crate::forward_form::ForwardFormView;
use crate::number::{decimal, to_decimal};
use crate::probe::{bind_port, port_in};
use crate::text::{chars, lemma_views_push, same, views};
use crate::tunnels::{is_slot, slots, Forward, ForwardView, Profile, ProfileView, Tunnels};

verus! {

/// The rules without the one at a place. A group that holds nothing more goes
/// too.
pub open spec fn without_rule(ps: Seq<ProfileView>, slot: (int, int)) -> Seq<ProfileView> {
    let group = ps[slot.0];
    let rest = group.forwards.remove(slot.1);
    if rest.len() == 0 {
        ps.remove(slot.0)
    } else {
        ps.update(slot.0, ProfileView { forwards: rest, ..group })
    }
}

/// The first group at or after `from` with this name.
pub open spec fn group_named(ps: Seq<ProfileView>, name: Seq<char>, from: int) -> Option<int>
    decreases ps.len() - from,
{
    if from >= ps.len() {
        None
    } else if ps[from].name == name {
        Some(from)
    } else {
        group_named(ps, name, from + 1)
    }
}

/// The rules with one more at the end of a group, which is made if there is
/// none of that name.
pub open spec fn with_rule(
    ps: Seq<ProfileView>,
    name: Seq<char>,
    rule: ForwardView,
) -> Seq<ProfileView> {
    match group_named(ps, name, 0) {
        Some(p) => ps.update(
            p,
            ProfileView { forwards: ps[p].forwards.push(rule), ..ps[p] },
        ),
        None => ps.push(ProfileView { name, forwards: seq![rule] }),
    }
}

/// The rules with another in the place of one.
pub open spec fn with_changed(
    ps: Seq<ProfileView>,
    slot: (int, int),
    rule: ForwardView,
) -> Seq<ProfileView> {
    ps.update(
        slot.0,
        ProfileView { forwards: ps[slot.0].forwards.update(slot.1, rule), ..ps[slot.0] },
    )
}

/// The place that a form edits, if it edits a rule that is there.
pub open spec fn edits_slot(ps: Seq<ProfileView>, f: ForwardFormView) -> Option<(int, int)> {
    match f.index {
        Some(i) => if is_slot(ps, (f.profile, i)) {
            Some((f.profile, i))
        } else {
            None
        },
        None => None,
    }
}

/// The rules after the form was saved: a rule stays where it is unless its
/// group changed; then it is taken out of the old group and put into the new
/// one.
pub open spec fn saved_rules(ps: Seq<ProfileView>, f: ForwardFormView) -> Seq<ProfileView> {
    match edits_slot(ps, f) {
        Some(slot) => if ps[slot.0].name == f.named_group() {
            with_changed(ps, slot, f.rule())
        } else {
            with_rule(without_rule(ps, slot), f.named_group(), f.rule())
        },
        None => with_rule(ps, f.named_group(), f.rule()),
    }
}

/// Some rule listens on the port.
pub open spec fn claimed_port(ps: Seq<ProfileView>, port: u16) -> bool {
    exists|p: int, f: int| #[trigger]
        is_slot(ps, (p, f)) && port_in(ps[p].forwards[f].bind) == Some(port)
}

/// The first port at or above `from` that no rule has claimed.
pub open spec fn free_port(ps: Seq<ProfileView>, from: int) -> Option<u16>
    decreases 0x10000 - from,
{
    if from > 0xffff {
        None
    } else if !claimed_port(ps, from as u16) {
        Some(from as u16)
    } else {
        free_port(ps, from + 1)
    }
}

/// A bind spec with another port; its address stays.
pub open spec fn with_port(bind: Seq<char>, port: u16) -> Seq<char> {
    bind.take(last_of(bind, ':') + 1) + decimal(port as nat)
}

/// A bind spec for a copy of a rule: two rules on one port cannot both be up,
/// so the port moves to the next one that nobody has claimed.
pub open spec fn free_bind(ps: Seq<ProfileView>, bind: Seq<char>) -> Seq<char> {
    match port_in(bind) {
        Some(port) => match free_port(ps, port + 1) {
            Some(free) => with_port(bind, free),
            None => bind,
        },
        None => bind,
    }
}

/// The first group with this name.
fn find_group(profiles: &[Profile], name: &str) -> (r: Option<usize>)
    ensures
        (match r {
            Some(p) => Some(p as int),
            None => None,
        }) == group_named(views(profiles@), name@, 0),
        r matches Some(p) ==> p < profiles@.len(),
{
    let mut p: usize = 0;
    while p < profiles.len()
        invariant
            p <= profiles@.len(),
            group_named(views(profiles@), name@, 0) == group_named(
                views(profiles@),
                name@,
                p as int,
            ),
        decreases profiles@.len() - p,
    {
        assert(views(profiles@)[p as int] == profiles@[p as int]@);
        if same(profiles[p].name.as_str(), name) {
            return Some(p);
        }
        p += 1;
    }
    None
}

impl Tunnels {
    /// Take the rule at a place out. A group that holds nothing more goes too.
    pub fn remove(&mut self, profile: usize, forward: usize)
        requires
            is_slot(old(self)@, (profile as int, forward as int)),
        ensures
            final(self)@ == without_rule(old(self)@, (profile as int, forward as int)),
    {
        let ghost was = self@;
        let ghost slot = (profile as int, forward as int);
        let ghost group = self.profiles@[profile as int];
        assert(was[profile as int] == group@);
        let gone: Forward = self.profiles[profile].forwards.remove(forward);
        let ghost rest = was[profile as int].forwards.remove(forward as int);
        proof {
            assert(views(self.profiles@[profile as int].forwards@) =~= rest);
            assert(self@ =~= was.update(
                profile as int,
                ProfileView { forwards: rest, ..was[profile as int] },
            ));
        }
        if self.profiles[profile].forwards.len() == 0 {
            let empty: Profile = self.profiles.remove(profile);
            assert(self@ =~= was.remove(profile as int));
        }
    }

    /// Put a rule at the end of a group, which is made if there is none of that
    /// name.
    pub fn insert(&mut self, name: &str, rule: Forward)
        ensures
            final(self)@ == with_rule(old(self)@, name@, rule@),
    {
        let ghost was = self@;
        match find_group(self.profiles.as_slice(), name) {
            Some(p) => {
                let ghost group = self.profiles@[p as int];
                assert(was[p as int] == group@);
                self.profiles[p].forwards.push(rule);
                proof {
                    lemma_views_push(group.forwards@, rule);
                    assert(self@ =~= with_rule(was, name@, rule@));
                }
            },
            None => {
                let mut forwards: Vec<Forward> = Vec::new();
                forwards.push(rule);
                let profile: Profile = Profile { name: name.to_owned(), forwards };
                proof {
                    assert(profile@.forwards =~= seq![rule@]);
                    lemma_views_push(self.profiles@, profile);
                }
                self.profiles.push(profile);
            },
        }
    }

    /// Put another rule in the place of one.
    pub fn replace(&mut self, profile: usize, forward: usize, rule: Forward)
        requires
            is_slot(old(self)@, (profile as int, forward as int)),
        ensures
            final(self)@ == with_changed(old(self)@, (profile as int, forward as int), rule@),
    {
        let ghost was = self@;
        let ghost group = self.profiles@[profile as int];
        assert(was[profile as int] == group@);
        self.profiles[profile].forwards[forward] = rule;
        proof {
            assert(views(self.profiles@[profile as int].forwards@) =~= group@.forwards.update(
                forward as int,
                rule@,
            ));
            assert(self@ =~= with_changed(was, (profile as int, forward as int), rule@));
        }
    }

    /// Whether some rule listens on the port.
    fn claims(&self, port: u16) -> (r: bool)
        ensures
            r == claimed_port(self@, port),
    {
        let ghost ps = self@;
        let mut p: usize = 0;
        while p < self.profiles.len()
            invariant
                ps == self@,
                p <= self.profiles@.len(),
                forall|a: int, b: int| #[trigger]
                    is_slot(ps, (a, b)) && a < p ==> port_in(ps[a].forwards[b].bind) != Some(port),
            decreases self.profiles@.len() - p,
        {
            let mut f: usize = 0;
            assert(ps[p as int] == self.profiles@[p as int]@);
            while f < self.profiles[p].forwards.len()
                invariant
                    ps == self@,
                    p < self.profiles@.len(),
                    ps[p as int] == self.profiles@[p as int]@,
                    f <= self.profiles@[p as int].forwards@.len(),
                    forall|a: int, b: int| #[trigger]
                        is_slot(ps, (a, b)) && (a < p || (a == p && b < f)) ==> port_in(
                            ps[a].forwards[b].bind,
                        ) != Some(port),
                decreases self.profiles@[p as int].forwards@.len() - f,
            {
                let bind: &str = self.profiles[p].forwards[f].bind.as_str();
                assert(ps[p as int].forwards[f as int].bind == bind@);
                match bind_port(bind) {
                    Some(found) => {
                        if found == port {
                            assert(is_slot(ps, (p as int, f as int)));
                            return true;
                        }
                    },
                    None => {},
                }
                f += 1;
            }
            p += 1;
        }
        false
    }

    /// A bind spec for a copy of a rule, on the next port that nobody has
    /// claimed.
    pub fn next_bind(&self, bind: &str) -> (r: String)
        ensures
            r@ == free_bind(self@, bind@),
    {
        let port: u16 = match bind_port(bind) {
            Some(n) => n,
            None => {
                return bind.to_owned();
            },
        };
        let mut at: u32 = port as u32 + 1;
        while at <= 0xffff && self.claims(at as u16)
            invariant
                port < at <= 0x10000,
                free_port(self@, port + 1) == free_port(self@, at as int),
            decreases 0x10000 - at,
        {
            at += 1;
        }
        if at > 0xffff {
            return bind.to_owned();
        }
        let cs: Vec<char> = chars(bind);
        let keep: usize = match rfind(cs.as_slice(), ':') {
            Some(i) => i + 1,
            None => 0,
        };
        proof {
            lemma_last_of(bind@, ':');
            assert(keep == last_of(bind@, ':') + 1);
            assert(bind@.subrange(0, keep as int) =~= bind@.take(keep as int));
        }
        let mut out: String = bind.substring_char(0, keep).to_owned();
        out.append(to_decimal(at as u128).as_str());
        out
    }
}

/// How many rules there are.
pub open spec fn total(ps: Seq<ProfileView>) -> nat {
    slots(ps).len()
}

/// No group is empty.
pub open spec fn no_empty_group(ps: Seq<ProfileView>) -> bool {
    forall|p: int| 0 <= p < ps.len() ==> (#[trigger] ps[p]).forwards.len() > 0
}

proof fn lemma_total_push(ps: Seq<ProfileView>, g: ProfileView)
    ensures
        total(ps.push(g)) == total(ps) + g.forwards.len(),
{
    assert(ps.push(g).drop_last() =~= ps);
}

proof fn lemma_total_update(ps: Seq<ProfileView>, p: int, g: ProfileView)
    requires
        0 <= p < ps.len(),
    ensures
        total(ps.update(p, g)) + ps[p].forwards.len() == total(ps) + g.forwards.len(),
    decreases ps.len(),
{
    let init = ps.drop_last();
    if p == ps.len() - 1 {
        assert(ps.update(p, g) =~= init.push(g));
        assert(ps =~= init.push(ps.last()));
        lemma_total_push(init, g);
        lemma_total_push(init, ps.last());
    } else {
        lemma_total_update(init, p, g);
        assert(ps.update(p, g) =~= init.update(p, g).push(ps.last()));
        assert(ps =~= init.push(ps.last()));
        lemma_total_push(init.update(p, g), ps.last());
        lemma_total_push(init, ps.last());
    }
}

proof fn lemma_total_remove(ps: Seq<ProfileView>, p: int)
    requires
        0 <= p < ps.len(),
    ensures
        total(ps.remove(p)) + ps[p].forwards.len() == total(ps),
    decreases ps.len(),
{
    let init = ps.drop_last();
    assert(ps =~= init.push(ps.last()));
    lemma_total_push(init, ps.last());
    if p == ps.len() - 1 {
        assert(ps.remove(p) =~= init);
    } else {
        lemma_total_remove(init, p);
        assert(ps.remove(p) =~= init.remove(p).push(ps.last()));
        lemma_total_push(init.remove(p), ps.last());
    }
}

proof fn lemma_group_named(ps: Seq<ProfileView>, name: Seq<char>, from: int)
    requires
        0 <= from,
    ensures
        group_named(ps, name, from) matches Some(p) ==> from <= p < ps.len() && ps[p].name == name,
    decreases ps.len() - from,
{
    if from < ps.len() && ps[from].name != name {
        lemma_group_named(ps, name, from + 1);
    }
}

proof fn lemma_with_rule(ps: Seq<ProfileView>, name: Seq<char>, rule: ForwardView)
    ensures
        total(with_rule(ps, name, rule)) == total(ps) + 1,
        no_empty_group(ps) ==> no_empty_group(with_rule(ps, name, rule)),
        exists|slot: (int, int)| #[trigger]
            is_slot(with_rule(ps, name, rule), slot) && with_rule(ps, name, rule)[slot.0].name
                == name && with_rule(ps, name, rule)[slot.0].forwards[slot.1] == rule,
{
    lemma_group_named(ps, name, 0);
    let qs = with_rule(ps, name, rule);
    match group_named(ps, name, 0) {
        Some(p) => {
            let g = ProfileView { forwards: ps[p].forwards.push(rule), ..ps[p] };
            lemma_total_update(ps, p, g);
            let slot = (p, ps[p].forwards.len() as int);
            assert(is_slot(qs, slot));
        },
        None => {
            let g = ProfileView { name, forwards: seq![rule] };
            lemma_total_push(ps, g);
            let slot = (ps.len() as int, 0int);
            assert(is_slot(qs, slot));
        },
    }
}

proof fn lemma_without_rule(ps: Seq<ProfileView>, slot: (int, int))
    requires
        is_slot(ps, slot),
    ensures
        total(without_rule(ps, slot)) + 1 == total(ps),
        no_empty_group(ps) ==> no_empty_group(without_rule(ps, slot)),
{
    let group = ps[slot.0];
    let rest = group.forwards.remove(slot.1);
    lemma_total_update(ps, slot.0, ProfileView { forwards: rest, ..group });
    lemma_total_remove(ps, slot.0);
    if no_empty_group(ps) {
        let qs = without_rule(ps, slot);
        assert forall|p: int| 0 <= p < qs.len() implies (#[trigger] qs[p]).forwards.len() > 0 by {
            if rest.len() == 0 {
                let k = if p < slot.0 {
                    p
                } else {
                    p + 1
                };
                assert(qs[p] == ps[k]);
            } else if p != slot.0 {
                assert(qs[p] == ps[p]);
            }
        }
    }
}

/// Saving a rule neither loses nor copies one: a rule that was there is still
/// there once, a new one is one more, and the rule as the form has it stands in
/// the group that the form names.
pub proof fn law_saving_keeps_the_count(ps: Seq<ProfileView>, f: ForwardFormView)
    ensures
        edits_slot(ps, f) is Some ==> total(saved_rules(ps, f)) == total(ps),
        edits_slot(ps, f) is None ==> total(saved_rules(ps, f)) == total(ps) + 1,
        exists|slot: (int, int)| #[trigger]
            is_slot(saved_rules(ps, f), slot) && saved_rules(ps, f)[slot.0].name
                == f.named_group() && saved_rules(ps, f)[slot.0].forwards[slot.1] == f.rule(),
{
    let qs = saved_rules(ps, f);
    match edits_slot(ps, f) {
        Some(slot) => {
            if ps[slot.0].name == f.named_group() {
                let g = ProfileView {
                    forwards: ps[slot.0].forwards.update(slot.1, f.rule()),
                    ..ps[slot.0]
                };
                assert(qs == ps.update(slot.0, g));
                lemma_total_update(ps, slot.0, g);
                assert(qs[slot.0] == g);
                assert(is_slot(qs, slot));
                assert(qs[slot.0].forwards[slot.1] == f.rule());
            } else {
                let rest = without_rule(ps, slot);
                assert(qs == with_rule(rest, f.named_group(), f.rule()));
                lemma_without_rule(ps, slot);
                lemma_with_rule(rest, f.named_group(), f.rule());
            }
        },
        None => {
            lemma_with_rule(ps, f.named_group(), f.rule());
        },
    }
}

/// Taking a rule out takes out one, and a group exists only while a rule is in
/// it: no change of the rules leaves an empty group behind.
pub proof fn law_no_empty_groups(ps: Seq<ProfileView>, f: ForwardFormView, slot: (int, int))
    requires
        no_empty_group(ps),
        is_slot(ps, slot),
    ensures
        total(without_rule(ps, slot)) + 1 == total(ps),
        no_empty_group(without_rule(ps, slot)),
        no_empty_group(saved_rules(ps, f)),
{
    lemma_without_rule(ps, slot);
    match edits_slot(ps, f) {
        Some(at) => {
            if ps[at.0].name != f.named_group() {
                lemma_without_rule(ps, at);
                lemma_with_rule(without_rule(ps, at), f.named_group(), f.rule());
            }
        },
        None => {
            lemma_with_rule(ps, f.named_group(), f.rule());
        },
    }
}

/// The port found for a copy is one that no rule has claimed, and the first
/// such port from there on.
pub proof fn law_free_port_is_free(ps: Seq<ProfileView>, from: int)
    requires
        0 <= from,
    ensures
        free_port(ps, from) matches Some(p) ==> from <= p && !claimed_port(ps, p) && forall|q: int|
            from <= q < p ==> claimed_port(ps, #[trigger] (q as u16)),
    decreases 0x10000 - from,
{
    if from <= 0xffff && claimed_port(ps, from as u16) {
        law_free_port_is_free(ps, from + 1);
        if let Some(p) = free_port(ps, from) {
            assert forall|q: int| from <= q < p implies claimed_port(ps, #[trigger] (q as u16)) by {
                if q > from {
                    assert(claimed_port(ps, q as u16));
                }
            }
        }
    }
}

/// Moving a bind spec to another port moves the port and nothing else.
pub proof fn law_with_port(bind: Seq<char>, port: u16)
    ensures
        port_in(with_port(bind, port)) == Some(port),
        with_port(bind, port).take(last_of(bind, ':') + 1) == bind.take(last_of(bind, ':') + 1),
{
    let d = decimal(port as nat);
    let at = last_of(bind, ':');
    let moved = with_port(bind, port);
    lemma_last_of(bind, ':');
    crate::number::lemma_decimal_digits(port as nat);
    crate::number::law_decimal_reads_back(port);
    lemma_last_of(moved, ':');
    assert(moved.take(at + 1) =~= bind.take(at + 1));
    assert(last_of(moved, ':') == at) by {
        let z = last_of(moved, ':');
        if z > at {
            assert(moved[z] == d[z - (at + 1)]);
        }
        if z < at {
            assert(moved[at] == bind[at]);
        }
    }
    assert(moved.skip(at + 1) =~= d);
    assert(!crate::text::white(d[0]) && !crate::text::white(d.last()));
    crate::text::lemma_trimmed(d);
}

} // verus!
