//! What a tunnel rule comes to: the command that serves it, the form that holds it,
//! and the groups that it is saved into.

use vstd::prelude::*;
use crate::argv_laws::runs;
use crate::edit::{field_box, held, key_pressed, place, EditingView, Then};
use crate::find::{last_of, lemma_last_of};
use crate::forward_form::{
    aliases, form_on, forward_edit_begun, forward_edit_committed, host_names, ForwardFormView,
};
use crate::key::{KeyCode, KeyEvent};
use crate::module::ModuleActionView;
use crate::number::{decimal, read_u16};
use crate::order::{
    ascending, before, lemma_before_irreflexive, lemma_before_total, lemma_before_transitive,
    sorted_distinct,
};
use crate::probe::port_in;
use crate::rules::{
    edits_slot, free_bind, free_port, group_named, law_free_port_is_free, saved_rules, with_rule,
    without_rule,
};
use crate::split::joined;
use crate::ssh::{reacts, World};
use crate::sshconfig::SshConfigView;
use crate::state::{Screen, SshStateView};
use crate::supervisor::RunningView;
use crate::text::trimmed;
use crate::tunnels::{
    example_target, flag_of, full_target, is_slot, label_of, rules_path, ForwardView, Kind,
    ProfileView,
};

verus! {

/// The arguments of a tunnel put it in the background without a command, never let it
/// ask for anything, make it fail where it cannot forward, and end with the forward
/// and the host. A rule that listens here asks for `-L`, one that listens there for
/// `-R`.
pub proof fn law_arguments_of_a_tunnel(f: ForwardView)
    ensures
        f.arguments().len() == 9,
        f.arguments().take(6) == seq![
            "-f"@,
            "-N"@,
            "-o"@,
            "BatchMode=yes"@,
            "-o"@,
            "ExitOnForwardFailure=yes"@,
        ],
        f.kind == Kind::Local ==> f.arguments()[6] == seq!['-', 'L'],
        f.kind == Kind::Remote ==> f.arguments()[6] == seq!['-', 'R'],
        f.arguments()[7] == f.bind.push(':') + f.target,
        f.arguments()[8] == f.host,
{
    reveal_strlit("-L");
    reveal_strlit("-R");
    reveal_strlit(":");
    assert(f.arguments().take(6) =~= seq![
        "-f"@,
        "-N"@,
        "-o"@,
        "BatchMode=yes"@,
        "-o"@,
        "ExitOnForwardFailure=yes"@,
    ]);
    assert(flag_of(Kind::Local) =~= seq!['-', 'L']);
    assert(flag_of(Kind::Remote) =~= seq!['-', 'R']);
    assert(f.argument() =~= f.bind.push(':') + f.target);
}

/// The line on a rule is its flag, its argument and its host, with a blank between.
pub proof fn law_line_of_a_rule(f: ForwardView)
    ensures
        f.line() == (if f.kind == Kind::Local {
            seq!['-', 'L', ' ']
        } else {
            seq!['-', 'R', ' ']
        }) + f.bind.push(':') + f.target.push(' ') + f.host,
{
    reveal_strlit("-L");
    reveal_strlit("-R");
    reveal_strlit(":");
    reveal_strlit(" ");
    assert(f.line() =~= (if f.kind == Kind::Local {
        seq!['-', 'L', ' ']
    } else {
        seq!['-', 'R', ' ']
    }) + f.bind.push(':') + f.target.push(' ') + f.host);
}

/// A process is shown by the same line as the rule that it serves.
pub proof fn law_process_reads_like_its_rule(r: RunningView, f: ForwardView)
    requires
        runs(r, f),
    ensures
        r.line() == f.line(),
{
    reveal_strlit(":");
    assert(f.argument() =~= f.bind.push(':') + f.target);
}

/// The exit of a local rule is reached from its host, that of a remote rule from this
/// machine.
pub proof fn law_exit_is_on_the_other_side(f: ForwardView)
    ensures
        f.kind == Kind::Local ==> f.exit_side() == f.host,
        f.kind == Kind::Remote ==> f.exit_side() == "this machine"@,
{
}

/// A number alone is a port of `localhost`; anything else stays as it is written.
pub proof fn law_bare_port_is_on_localhost(value: Seq<char>)
    ensures
        read_u16(value, 10) is Some ==> full_target(value) == "localhost:"@ + value
            && example_target(value) == "localhost:"@ + value,
        read_u16(value, 10) is None ==> full_target(value) == value && example_target(value)
            == "localhost:22"@,
{
}

/// The form of a rule holds the group, the host, the direction, the listening side,
/// the exit and the note in this order, and gives back each from its place.
pub proof fn law_fields_of_a_rule(
    profile: int,
    index: Option<int>,
    f: ForwardView,
    group: Seq<char>,
    form: ForwardFormView,
)
    ensures
        ({
            let open = form_on(profile, index, f, group);
            &&& open.profile == profile
            &&& open.index == index
            &&& open.cursor == 0
            &&& open.editing is None
            &&& open.protocol == f.protocol
            &&& open.values.len() == 6
            &&& open.values[0] == group
            &&& open.values[1] == f.host
            &&& open.values[2] == (if f.kind == Kind::Local {
                "local"@
            } else {
                "remote"@
            })
            &&& open.values[3] == f.bind
            &&& open.values[4] == f.target
            &&& open.values[5] == f.note
        }),
        form.rule().host == form.values[1],
        form.rule().bind == form.values[3],
        form.rule().target == form.values[4],
        form.rule().note == form.values[5],
        form.rule().protocol == form.protocol,
        form.rule().kind == Kind::Remote <==> form.values[2] == "remote"@,
        form.named_group() == trimmed(form.values[0]),
{
    reveal_strlit("local");
    reveal_strlit("remote");
    assert("local"@.len() != "remote"@.len());
}

/// A value that was edited is taken without the spaces around it, into the field that
/// was edited and no other. An exit that is a number alone gets its host.
pub proof fn law_edited_field_is_taken(f: ForwardFormView, e: EditingView)
    requires
        f.values.len() == 6,
        0 <= f.cursor < 6,
        f.editing == Some(e),
    ensures
        ({
            let done = forward_edit_committed(f);
            let value = trimmed(held(e));
            &&& done.editing is None
            &&& done.values.len() == 6
            &&& forall|i: int|
                0 <= i < 6 && i != f.cursor ==> #[trigger] done.values[i] == f.values[i]
            &&& done.values[f.cursor] == (if f.cursor == 4 && read_u16(value, 10) is Some {
                "localhost:"@ + value
            } else {
                value
            })
            &&& done == ForwardFormView { editing: None, values: done.values, ..f }
        }),
{
}

/// The group, the host and the direction are picked from a list: the groups there are,
/// the names of the hosts, and the two directions. The cursor of the list starts on
/// the value there is. The other fields are typed.
pub proof fn law_editor_of_a_rules_field(
    f: ForwardFormView,
    config: SshConfigView,
    groups: Seq<Seq<char>>,
)
    requires
        f.values.len() == 6,
        0 <= f.cursor < 6,
    ensures
        ({
            let open = forward_edit_begun(f, config, groups);
            let current = f.values[f.cursor];
            &&& open == ForwardFormView { editing: open.editing, ..f }
            &&& open.editing is Some
            &&& f.cursor >= 3 ==> open.editing == Some(EditingView::Text(field_box(current)))
            &&& f.cursor < 3 ==> (open.editing->0 matches EditingView::Pick { options, index } && {
                &&& f.cursor == 0 ==> options == groups
                &&& f.cursor == 1 ==> options == host_names(config.hosts)
                &&& f.cursor == 2 ==> options == seq!["local"@, "remote"@]
                &&& on_first(options, current, index)
            })
        }),
{
    if f.cursor < 3 {
        let open = forward_edit_begun(f, config, groups);
        if let EditingView::Pick { options, index } = open.editing->0 {
            lemma_place(options, f.values[f.cursor], 0);
        }
    }
}

/// The place is that of the first such text, or the first of all where there is none.
pub open spec fn on_first(options: Seq<Seq<char>>, x: Seq<char>, index: int) -> bool {
    if options.contains(x) {
        0 <= index < options.len() && options[index] == x && forall|k: int|
            0 <= k < index ==> #[trigger] options[k] != x
    } else {
        index == 0
    }
}

/// Looking for a text in a list finds the first.
pub proof fn lemma_place(options: Seq<Seq<char>>, x: Seq<char>, from: int)
    requires
        0 <= from,
        forall|k: int| 0 <= k < from && k < options.len() ==> #[trigger] options[k] != x,
    ensures
        on_first(options, x, place(options, x, from)),
    decreases options.len() - from,
{
    if from < options.len() {
        if options[from] == x {
            assert(options.contains(x));
        } else {
            lemma_place(options, x, from + 1);
        }
    }
}

/// The names offered for the host of a rule are those of the config, each once and in
/// order.
pub proof fn law_host_names_are_those_of_the_config(config: SshConfigView)
    ensures
        ascending(host_names(config.hosts)),
        forall|x: Seq<char>| #[trigger]
            host_names(config.hosts).contains(x) <==> exists|i: int|
                0 <= i < config.hosts.len() && crate::sshconfig::alias_in(
                    (#[trigger] config.hosts[i]).patterns,
                ) == x,
{
    let from = aliases(config.hosts);
    let list = lemma_sorted_exists(from);
    assert(sorted_distinct(host_names(config.hosts), from));
    assert forall|x: Seq<char>| #[trigger] host_names(config.hosts).contains(x) <==> exists|i: int|
        0 <= i < config.hosts.len() && crate::sshconfig::alias_in(
            (#[trigger] config.hosts[i]).patterns,
        ) == x by {
        if from.contains(x) {
            let i = choose|i: int| 0 <= i < from.len() && from[i] == x;
            assert(crate::sshconfig::alias_in(config.hosts[i].patterns) == x);
        }
        if exists|i: int|
            0 <= i < config.hosts.len() && crate::sshconfig::alias_in(
                (#[trigger] config.hosts[i]).patterns,
            ) == x {
            let i = choose|i: int|
                0 <= i < config.hosts.len() && crate::sshconfig::alias_in(
                    (#[trigger] config.hosts[i]).patterns,
                ) == x;
            assert(from[i] == x);
        }
    }
}

/// Any texts can be put in order.
pub proof fn lemma_sorted_exists(from: Seq<Seq<char>>) -> (list: Seq<Seq<char>>)
    ensures
        sorted_distinct(list, from),
    decreases from.len(),
{
    if from.len() == 0 {
        let none = Seq::<Seq<char>>::empty();
        assert(sorted_distinct(none, from));
        none
    } else {
        let init = from.drop_last();
        let x = from.last();
        let rest = lemma_sorted_exists(init);
        assert forall|y: Seq<char>| #[trigger] from.contains(y) <==> init.contains(y) || y == x by {
            if from.contains(y) {
                let k = choose|k: int| 0 <= k < from.len() && from[k] == y;
                if k < init.len() {
                    assert(init[k] == y);
                }
            }
            if init.contains(y) {
                let k = choose|k: int| 0 <= k < init.len() && init[k] == y;
                assert(from[k] == y);
            }
            assert(from[from.len() - 1] == x);
        }
        if rest.contains(x) {
            assert(sorted_distinct(rest, from));
            rest
        } else {
            let k = lemma_room(rest, x, 0);
            let list = rest.insert(k, x);
            assert forall|i: int, j: int| 0 <= i < j < list.len() implies before(
                #[trigger] list[i],
                #[trigger] list[j],
            ) by {
                let a = if i < k {
                    i
                } else {
                    i - 1
                };
                let b = if j < k {
                    j
                } else {
                    j - 1
                };
                if i != k && j != k {
                    assert(before(rest[a], rest[b]));
                }
            }
            assert forall|y: Seq<char>| #[trigger] list.contains(y) <==> rest.contains(y) || y
                == x by {
                if list.contains(y) {
                    let m = choose|m: int| 0 <= m < list.len() && list[m] == y;
                    if m < k {
                        assert(rest[m] == y);
                    } else if m > k {
                        assert(rest[m - 1] == y);
                    }
                }
                if rest.contains(y) {
                    let m = choose|m: int| 0 <= m < rest.len() && rest[m] == y;
                    if m < k {
                        assert(list[m] == y);
                    } else {
                        assert(list[m + 1] == y);
                    }
                }
                assert(list[k] == x);
            }
            assert(sorted_distinct(list, from));
            list
        }
    }
}

proof fn lemma_room(list: Seq<Seq<char>>, x: Seq<char>, from: int) -> (k: int)
    requires
        ascending(list),
        !list.contains(x),
        0 <= from <= list.len(),
        forall|i: int| 0 <= i < from ==> before(#[trigger] list[i], x),
    ensures
        0 <= k <= list.len(),
        forall|i: int| 0 <= i < k ==> before(#[trigger] list[i], x),
        forall|i: int| k <= i < list.len() ==> before(x, #[trigger] list[i]),
    decreases list.len() - from,
{
    if from == list.len() {
        from
    } else {
        assert(list.contains(list[from]));
        lemma_before_total(list[from], x);
        if before(list[from], x) {
            lemma_room(list, x, from + 1)
        } else {
            assert forall|i: int| from <= i < list.len() implies before(x, #[trigger] list[i]) by {
                if i > from {
                    assert(before(list[from], list[i]));
                    lemma_before_transitive(x, list[from], list[i]);
                }
            }
            from
        }
    }
}

/// In the form of a rule, while a field is edited: Enter takes the value and Esc drops
/// it; in a list the arrows move the cursor without going round, and Tab and `i` turn
/// it into a text box.
pub proof fn law_list_editor_keys(
    s: SshStateView,
    f: ForwardFormView,
    options: Seq<Seq<char>>,
    index: int,
    key: KeyEvent,
    world: World,
    next: SshStateView,
    action: ModuleActionView,
)
    requires
        s.screen == Screen::Forward,
        s.forward_form == Some(f),
        f.editing == Some(EditingView::Pick { options, index }),
        0 <= index < options.len(),
        reacts(s, key, world, next, action),
    ensures
        action == ModuleActionView::Stay,
        key.code == KeyCode::Esc ==> next == (SshStateView {
            forward_form: Some(ForwardFormView { editing: None, ..f }),
            ..s
        }),
        key.code == KeyCode::Enter ==> next == (SshStateView {
            forward_form: Some(forward_edit_committed(f)),
            ..s
        }),
        key.code == KeyCode::Tab || key.code == KeyCode::Char('i') ==> next == (SshStateView {
            forward_form: Some(
                ForwardFormView {
                    editing: Some(EditingView::Text(field_box(options[index]))),
                    ..f
                },
            ),
            ..s
        }),
        crate::key_laws::goes_down(key) ==> next == (SshStateView {
            forward_form: Some(
                ForwardFormView {
                    editing: Some(
                        EditingView::Pick {
                            options,
                            index: if index == options.len() - 1 {
                                index
                            } else {
                                index + 1
                            },
                        },
                    ),
                    ..f
                },
            ),
            ..s
        }),
        crate::key_laws::goes_up(key) ==> next == (SshStateView {
            forward_form: Some(
                ForwardFormView {
                    editing: Some(
                        EditingView::Pick {
                            options,
                            index: if index == 0 {
                                index
                            } else {
                                index - 1
                            },
                        },
                    ),
                    ..f
                },
            ),
            ..s
        }),
        key.code matches KeyCode::Char(c) ==> c != 'i' && c != 'k' && c != 'j' ==> next == s,
{
    let e = EditingView::Pick { options, index };
    let (shown, then) = choose|shown: EditingView, then: Then| #[trigger]
        key_pressed(e, key, shown, then) && next == (SshStateView {
            forward_form: Some(crate::ssh::after_rule_edit_key(f, shown, then)),
            ..s
        });
    assert(ForwardFormView { editing: Some(e), ..f } == f);
}

/// The rules are kept in `excalibur/tunnels.yaml` below the directory for configuration.
pub proof fn law_file_of_the_rules(dir: Seq<char>)
    requires
        dir.len() > 0,
        dir.last() != '/',
    ensures
        rules_path(dir) == dir + "/excalibur/tunnels.yaml"@,
{
    reveal_strlit("/excalibur/tunnels.yaml");
    reveal_strlit("excalibur");
    reveal_strlit("tunnels.yaml");
    let inner = dir.push('/') + "excalibur"@;
    assert(inner.last() == 'r');
    assert(rules_path(dir) =~= dir + "/excalibur/tunnels.yaml"@);
}

/// A rule that is saved under the name of its group takes the place it had; every other
/// rule stays where it was.
pub proof fn law_rule_is_saved_in_its_place(ps: Seq<ProfileView>, f: ForwardFormView, i: int)
    requires
        f.index == Some(i),
        is_slot(ps, (f.profile, i)),
        ps[f.profile].name == trimmed(f.values[0]),
    ensures
        ({
            let qs = saved_rules(ps, f);
            &&& qs.len() == ps.len()
            &&& forall|p: int| 0 <= p < ps.len() ==> (#[trigger] qs[p]).name == ps[p].name
            &&& forall|p: int|
                0 <= p < ps.len() ==> (#[trigger] qs[p]).forwards.len() == ps[p].forwards.len()
            &&& forall|p: int, k: int|
                is_slot(ps, (p, k)) && (p, k) != (f.profile, i) ==> #[trigger] qs[p].forwards[k]
                    == ps[p].forwards[k]
            &&& qs[f.profile].forwards[i] == f.rule()
        }),
{
}

/// A new rule goes behind the others of the first group of its name, or into a new
/// group behind all groups; nothing else changes.
pub proof fn law_new_rule_goes_to_the_end_of_its_group(
    ps: Seq<ProfileView>,
    f: ForwardFormView,
    p: int,
)
    requires
        f.index is None,
    ensures
        ({
            let qs = saved_rules(ps, f);
            let name = trimmed(f.values[0]);
            &&& first_of_name(ps, name, p) ==> qs == ps.update(
                p,
                ProfileView { name, forwards: ps[p].forwards.push(f.rule()) },
            )
            &&& (forall|k: int| 0 <= k < ps.len() ==> (#[trigger] ps[k]).name != name) ==> qs
                == ps.push(ProfileView { name, forwards: seq![f.rule()] })
        }),
{
    lemma_group_named(ps, trimmed(f.values[0]), 0);
    lemma_first_unique(ps, trimmed(f.values[0]), p);
}

/// The group is the first of this name.
pub open spec fn first_of_name(ps: Seq<ProfileView>, name: Seq<char>, p: int) -> bool {
    &&& 0 <= p < ps.len()
    &&& ps[p].name == name
    &&& forall|k: int| 0 <= k < p ==> (#[trigger] ps[k]).name != name
}

proof fn lemma_first_unique(ps: Seq<ProfileView>, name: Seq<char>, p: int)
    ensures
        first_of_name(ps, name, p) ==> group_named(ps, name, 0) == Some(p),
{
    lemma_group_named(ps, name, 0);
    if first_of_name(ps, name, p) {
        if let Some(q) = group_named(ps, name, 0) {
            if q < p {
                assert(ps[q].name != name);
            } else if p < q {
                assert(ps[p].name != name);
            }
        }
    }
}

proof fn lemma_group_named(ps: Seq<ProfileView>, name: Seq<char>, from: int)
    requires
        0 <= from <= ps.len(),
        forall|k: int| 0 <= k < from ==> (#[trigger] ps[k]).name != name,
    ensures
        match group_named(ps, name, from) {
            Some(p) => first_of_name(ps, name, p),
            None => forall|k: int| 0 <= k < ps.len() ==> (#[trigger] ps[k]).name != name,
        },
    decreases ps.len() - from,
{
    if from < ps.len() && ps[from].name != name {
        lemma_group_named(ps, name, from + 1);
    }
}

/// A rule whose group changed leaves the old one and goes to the end of the new.
pub proof fn law_rule_moves_to_another_group(
    ps: Seq<ProfileView>,
    f: ForwardFormView,
    fresh: ForwardFormView,
    i: int,
)
    requires
        f.index == Some(i),
        is_slot(ps, (f.profile, i)),
        ps[f.profile].name != trimmed(f.values[0]),
        fresh.index is None,
        fresh.rule() == f.rule(),
        fresh.named_group() == f.named_group(),
    ensures
        saved_rules(ps, f) == saved_rules(without_rule(ps, (f.profile, i)), fresh),
{
}

/// Taking a rule out moves the later rules of its group up and leaves the others; a
/// group goes with its last rule.
pub proof fn law_removed_rule_is_gone(ps: Seq<ProfileView>, slot: (int, int))
    requires
        is_slot(ps, slot),
    ensures
        ({
            let qs = without_rule(ps, slot);
            let (p, f) = slot;
            let n = ps[p].forwards.len() as int;
            &&& n > 1 ==> {
                &&& qs.len() == ps.len()
                &&& forall|k: int| 0 <= k < ps.len() && k != p ==> #[trigger] qs[k] == ps[k]
                &&& qs[p].name == ps[p].name
                &&& qs[p].forwards == ps[p].forwards.take(f) + ps[p].forwards.skip(f + 1)
            }
            &&& n == 1 ==> qs == ps.take(p) + ps.skip(p + 1)
        }),
{
    let (p, f) = slot;
    let all = ps[p].forwards;
    assert(all.remove(f) =~= all.take(f) + all.skip(f + 1));
    assert(ps.remove(p) =~= ps.take(p) + ps.skip(p + 1));
}

/// A form edits a rule only where there is one at its place.
pub proof fn law_form_edits_a_rule_that_is_there(ps: Seq<ProfileView>, f: ForwardFormView)
    ensures
        edits_slot(ps, f) is Some <==> f.index is Some && is_slot(ps, (f.profile, f.index->0)),
        edits_slot(ps, f) matches Some(slot) ==> slot == (f.profile, f.index->0),
{
}

/// A rule of some group listens on the port.
pub open spec fn taken(ps: Seq<ProfileView>, port: int) -> bool {
    exists|p: int, f: int|
        0 <= p < ps.len() && 0 <= f < ps[p].forwards.len() && match port_in(
            #[trigger] ps[p].forwards[f].bind,
        ) {
            Some(q) => q == port,
            None => false,
        }
}

/// The copy of a rule listens on the first port above its own that no rule of any group
/// has, at the address that the rule has; where there is no such port, or no port at
/// all, it listens where the rule does.
pub proof fn law_copy_listens_on_the_next_free_port(
    ps: Seq<ProfileView>,
    address: Seq<char>,
    port: u16,
    bind: Seq<char>,
    free: u16,
)
    ensures
        port_in(bind) is None ==> free_bind(ps, bind) == bind,
        port_in(bind) == Some(port) && (forall|q: int|
            port < q < 0x10000 ==> #[trigger] taken(ps, q)) ==> free_bind(ps, bind) == bind,
        port < free && !taken(ps, free as int) && (forall|q: int|
            port < q < free ==> #[trigger] taken(ps, q)) ==> {
            &&& port_in(address.push(':') + decimal(port as nat)) == Some(port) ==> free_bind(
                ps,
                address.push(':') + decimal(port as nat),
            ) == address.push(':') + decimal(free as nat)
            &&& free_bind(ps, decimal(port as nat)) == decimal(free as nat)
        },
{
    lemma_free(ps, port + 1);
    let d = decimal(port as nat);
    let none = Seq::<char>::empty();
    crate::number::lemma_decimal_digits(port as nat);
    assert(!d.contains(':')) by {
        if d.contains(':') {
            let k = choose|k: int| 0 <= k < d.len() && d[k] == ':';
            assert('0' <= d[k] <= '9');
        }
    }
    crate::text_laws::law_places_of_a_character(address, ':', d);
    let whole = address.push(':') + d;
    lemma_last_of(whole, ':');
    lemma_last_of(d, ':');
    assert(whole[address.len() as int] == ':');
    assert(last_of(whole, ':') == address.len()) by {
        let z = last_of(whole, ':');
        if z > address.len() {
            assert(d.contains(d[z - address.len() - 1]));
        }
    }
    assert(last_of(d, ':') == -1) by {
        if last_of(d, ':') >= 0 {
            assert(d.contains(d[last_of(d, ':')]));
        }
    }
    assert(whole.take(address.len() as int + 1) =~= address.push(':'));
    assert(d.take(0) =~= none);
    assert(none + decimal(free as nat) =~= decimal(free as nat));
    crate::number::law_decimal_reads_back(port);
    assert(!crate::text::white(d[0]) && !crate::text::white(d.last()));
    crate::text::lemma_trimmed(d);
    assert(d.skip(0) =~= d);
    assert(port_in(d) == Some(port));
}

proof fn lemma_free(ps: Seq<ProfileView>, from: int)
    requires
        0 <= from,
    ensures
        match free_port(ps, from) {
            Some(p) => from <= p && !taken(ps, p as int) && forall|q: int|
                from <= q < p ==> #[trigger] taken(ps, q),
            None => forall|q: int| from <= q < 0x10000 ==> #[trigger] taken(ps, q),
        },
    decreases 0x10000 - from,
{
    if from <= 0xffff {
        lemma_taken(ps, from as u16);
        if crate::rules::claimed_port(ps, from as u16) {
            lemma_free(ps, from + 1);
        }
    }
}

proof fn lemma_taken(ps: Seq<ProfileView>, port: u16)
    ensures
        crate::rules::claimed_port(ps, port) <==> taken(ps, port as int),
{
    if crate::rules::claimed_port(ps, port) {
        let (p, f) = choose|p: int, f: int| #[trigger]
            is_slot(ps, (p, f)) && port_in(ps[p].forwards[f].bind) == Some(port);
        assert(port_in(ps[p].forwards[f].bind) == Some(port));
    }
    if taken(ps, port as int) {
        let (p, f) = choose|p: int, f: int|
            0 <= p < ps.len() && 0 <= f < ps[p].forwards.len() && match port_in(
                #[trigger] ps[p].forwards[f].bind,
            ) {
                Some(q) => q == port as int,
                None => false,
            };
        assert(is_slot(ps, (p, f)));
    }
}

} // verus!
