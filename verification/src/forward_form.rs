//! Editing one tunnel rule.

use vstd::prelude::*;
use crate::edit::{field_box, held, place, Editing, EditingView};
use crate::form::as_text;
use crate::order::{lemma_sorted_unique, sort_distinct, sorted_distinct};
use crate::split::copies;
use crate::sshconfig::{alias_in, HostBlockView, SshConfig, SshConfigView};
use crate::text::{same, trim, trimmed, view_of, views};
use crate::tunnels::{full_target, label_of, Forward, ForwardView, Kind, Protocol};

verus! {

/// The six fields of a tunnel rule. Unlike a host block this edits a struct we
/// own, so there is no file formatting to preserve -- the whole yaml is
/// rewritten.
#[derive(Debug, Clone, Copy, PartialEq, Eq, Structural)]
pub enum ForwardField {
    Group,
    Host,
    Kind,
    Bind,
    Target,
    Note,
}

/// The number of fields.
pub const FORWARD_FIELDS: usize = 6;

/// The `i`-th field.
pub open spec fn forward_field_at(i: int) -> ForwardField {
    if i == 0 {
        ForwardField::Group
    } else if i == 1 {
        ForwardField::Host
    } else if i == 2 {
        ForwardField::Kind
    } else if i == 3 {
        ForwardField::Bind
    } else if i == 4 {
        ForwardField::Target
    } else {
        ForwardField::Note
    }
}

/// A field whose value is picked from a list.
pub open spec fn forward_picked(field: ForwardField) -> bool {
    field == ForwardField::Group || field == ForwardField::Host || field == ForwardField::Kind
}

impl ForwardField {
    pub const ALL: [ForwardField; 6] = [
        ForwardField::Group,
        ForwardField::Host,
        ForwardField::Kind,
        ForwardField::Bind,
        ForwardField::Target,
        ForwardField::Note,
    ];

    /// The `i`-th field.
    pub fn at(i: usize) -> (r: ForwardField)
        ensures
            r == forward_field_at(i as int),
    {
        if i == 0 {
            ForwardField::Group
        } else if i == 1 {
            ForwardField::Host
        } else if i == 2 {
            ForwardField::Kind
        } else if i == 3 {
            ForwardField::Bind
        } else if i == 4 {
            ForwardField::Target
        } else {
            ForwardField::Note
        }
    }

    /// The name shown beside the field.
    pub fn label(self) -> (r: &'static str)
        ensures
            r@ == (match self {
                ForwardField::Group => "Group"@,
                ForwardField::Host => "Host"@,
                ForwardField::Kind => "Direction"@,
                ForwardField::Bind => "Listen on"@,
                ForwardField::Target => "Exit at"@,
                ForwardField::Note => "Note"@,
            }),
    {
        match self {
            ForwardField::Group => "Group",
            ForwardField::Host => "Host",
            ForwardField::Kind => "Direction",
            ForwardField::Bind => "Listen on",
            ForwardField::Target => "Exit at",
            ForwardField::Note => "Note",
        }
    }

    fn is_pick(self) -> (r: bool)
        ensures
            r == forward_picked(self),
    {
        match self {
            ForwardField::Group | ForwardField::Host | ForwardField::Kind => true,
            _ => false,
        }
    }

    /// Shown in place of the value when a field is empty. `-L` takes
    /// `port:host:hostport`, so the exit needs two parts and the field has to
    /// say so -- a bare port there builds a command ssh refuses. It also has to
    /// say whose view the host is resolved in, which is the far side for `-L`.
    pub fn placeholder(self) -> (r: &'static str)
        ensures
            r@ == (match self {
                ForwardField::Group => "(pick a group, or Tab to name a new one)"@,
                ForwardField::Host => "(pick a host)"@,
                ForwardField::Kind => "(local or remote)"@,
                ForwardField::Bind => "(port, or address:port)"@,
                ForwardField::Target => "(host:port, resolved from the far side)"@,
                ForwardField::Note => "(optional)"@,
            }),
    {
        match self {
            ForwardField::Group => "(pick a group, or Tab to name a new one)",
            ForwardField::Host => "(pick a host)",
            ForwardField::Kind => "(local or remote)",
            ForwardField::Bind => "(port, or address:port)",
            ForwardField::Target => "(host:port, resolved from the far side)",
            ForwardField::Note => "(optional)",
        }
    }
}

/// A tunnel rule in the form.
pub struct ForwardForm {
    /// Where the rule was read from. The group it will be *written* to is
    /// `values[0]`, which the user can change to move the rule or to name a
    /// group that does not exist yet.
    pub profile: usize,
    /// Index within the profile, or `None` while the rule is still new.
    pub index: Option<usize>,
    pub values: Vec<String>,
    /// What the rule carries. The form does not edit it.
    pub protocol: Protocol,
    pub cursor: usize,
    pub editing: Option<Editing>,
}

/// What a [`ForwardForm`] says.
#[verifier::ext_equal]
pub struct ForwardFormView {
    pub profile: int,
    pub index: Option<int>,
    pub values: Seq<Seq<char>>,
    pub protocol: Protocol,
    pub cursor: int,
    pub editing: Option<EditingView>,
}

impl View for ForwardForm {
    type V = ForwardFormView;

    open spec fn view(&self) -> ForwardFormView {
        ForwardFormView {
            profile: self.profile as int,
            index: match self.index {
                Some(i) => Some(i as int),
                None => None,
            },
            values: views(self.values@),
            protocol: self.protocol,
            cursor: self.cursor as int,
            editing: view_of(self.editing),
        }
    }
}

/// The kind with this name, or else `Local`.
pub open spec fn kind_named(name: Seq<char>) -> Kind {
    if name == "local"@ {
        Kind::Local
    } else if name == "remote"@ {
        Kind::Remote
    } else {
        Kind::Local
    }
}

impl ForwardFormView {
    /// One value for each field, and the cursor on a field.
    pub open spec fn wf(self) -> bool {
        self.values.len() == FORWARD_FIELDS && 0 <= self.cursor < FORWARD_FIELDS
    }

    /// The rule as the form holds it.
    pub open spec fn rule(self) -> ForwardView {
        ForwardView {
            host: self.values[1],
            kind: kind_named(self.values[2]),
            bind: self.values[3],
            target: self.values[4],
            protocol: self.protocol,
            note: self.values[5],
        }
    }

    /// The group the rule will be saved into.
    pub open spec fn named_group(self) -> Seq<char> {
        trimmed(self.values[0])
    }
}

/// The form on a rule.
pub open spec fn form_on(
    profile: int,
    index: Option<int>,
    f: ForwardView,
    group: Seq<char>,
) -> ForwardFormView {
    ForwardFormView {
        profile,
        index,
        values: seq![group, f.host, label_of(f.kind), f.bind, f.target, f.note],
        protocol: f.protocol,
        cursor: 0,
        editing: None,
    }
}

/// The names of the hosts, block by block.
pub open spec fn aliases(hosts: Seq<HostBlockView>) -> Seq<Seq<char>> {
    Seq::new(hosts.len(), |i: int| alias_in(hosts[i].patterns))
}

/// The names of the hosts, each once, in order.
pub open spec fn host_names(hosts: Seq<HostBlockView>) -> Seq<Seq<char>> {
    choose|list: Seq<Seq<char>>| sorted_distinct(list, aliases(hosts))
}

/// What a field offers to pick from.
pub open spec fn forward_options(
    field: ForwardField,
    config: SshConfigView,
    groups: Seq<Seq<char>>,
) -> Seq<Seq<char>> {
    match field {
        ForwardField::Kind => seq!["local"@, "remote"@],
        ForwardField::Group => groups,
        _ => host_names(config.hosts),
    }
}

/// The form with the editor open on the current field.
pub open spec fn forward_edit_begun(
    f: ForwardFormView,
    config: SshConfigView,
    groups: Seq<Seq<char>>,
) -> ForwardFormView {
    let field = forward_field_at(f.cursor);
    let current = f.values[f.cursor];
    let editing = if forward_picked(field) {
        let options = forward_options(field, config, groups);
        EditingView::Pick { options, index: place(options, current, 0) }
    } else {
        EditingView::Text(field_box(current))
    };
    ForwardFormView { editing: Some(editing), ..f }
}

/// The form with the value being edited accepted. A bare exit port is written
/// out, so the field shows what the command will actually contain.
pub open spec fn forward_edit_committed(f: ForwardFormView) -> ForwardFormView {
    match f.editing {
        Some(e) => {
            let value = trimmed(held(e));
            ForwardFormView {
                editing: None,
                values: f.values.update(
                    f.cursor,
                    if forward_field_at(f.cursor) == ForwardField::Target {
                        full_target(value)
                    } else {
                        value
                    },
                ),
                ..f
            }
        },
        None => f,
    }
}

/// The names of the hosts, each once, in order.
fn collect_host_names(config: &SshConfig) -> (r: Vec<String>)
    ensures
        views(r@) == host_names(config@.hosts),
{
    let mut all: Vec<String> = Vec::new();
    let mut i: usize = 0;
    let ghost want = aliases(config@.hosts);
    while i < config.hosts.len()
        invariant
            want == aliases(config@.hosts),
            i <= config.hosts@.len(),
            all@.len() == i,
            forall|k: int| 0 <= k < i ==> (#[trigger] all@[k])@ == want[k],
        decreases config.hosts@.len() - i,
    {
        assert(config@.hosts[i as int] == config.hosts@[i as int]@);
        all.push(config.hosts[i].alias().to_owned());
        i += 1;
    }
    assert(views(all@) =~= want);
    let r: Vec<String> = sort_distinct(all.as_slice());
    proof {
        let list = views(r@);
        assert(sorted_distinct(list, want));
        let other = host_names(config@.hosts);
        assert(sorted_distinct(other, want));
        assert forall|x: Seq<char>| #[trigger] other.contains(x) implies list.contains(x) by {
            assert(want.contains(x));
        }
        lemma_sorted_unique(list, other);
    }
    r
}

impl ForwardForm {
    /// The form on a rule.
    pub fn new(profile: usize, index: Option<usize>, forward: &Forward, group: &str) -> (r: Self)
        ensures
            r@ == form_on(
                profile as int,
                match index {
                    Some(i) => Some(i as int),
                    None => None,
                },
                forward@,
                group@,
            ),
            r@.wf(),
    {
        let mut values: Vec<String> = Vec::new();
        values.push(group.to_owned());
        values.push(forward.host.clone());
        values.push(forward.kind.label().to_owned());
        values.push(forward.bind.clone());
        values.push(forward.target.clone());
        values.push(forward.note.clone());
        assert(views(values@) =~= seq![
            group@,
            forward@.host,
            label_of(forward@.kind),
            forward@.bind,
            forward@.target,
            forward@.note,
        ]);
        ForwardForm { profile, index, values, protocol: forward.protocol, cursor: 0, editing: None }
    }

    /// The group the rule will be saved into.
    pub fn group(&self) -> (r: &str)
        requires
            self@.wf(),
        ensures
            r@ == self@.named_group(),
    {
        assert(self@.values[0] == self.values@[0]@);
        trim(self.values[0].as_str())
    }

    /// The field the cursor is on.
    pub fn field(&self) -> (r: ForwardField)
        requires
            self@.wf(),
        ensures
            r == forward_field_at(self@.cursor),
    {
        ForwardField::at(self.cursor)
    }

    pub fn next_field(&mut self)
        requires
            old(self)@.wf(),
        ensures
            final(self)@ == (ForwardFormView {
                cursor: (old(self)@.cursor + 1) % 6,
                ..old(self)@
            }),
            final(self)@.wf(),
    {
        self.cursor = (self.cursor + 1) % FORWARD_FIELDS;
    }

    pub fn previous_field(&mut self)
        requires
            old(self)@.wf(),
        ensures
            final(self)@ == (ForwardFormView {
                cursor: (old(self)@.cursor + 5) % 6,
                ..old(self)@
            }),
            final(self)@.wf(),
    {
        self.cursor = (self.cursor + FORWARD_FIELDS - 1) % FORWARD_FIELDS;
    }

    /// The rule as it currently stands, so the direction diagram and the command
    /// line update while the form is still open.
    pub fn to_forward(&self) -> (r: Forward)
        requires
            self@.wf(),
        ensures
            r@ == self@.rule(),
    {
        proof {
            assert forall|i: int| 0 <= i < 6 implies #[trigger] self@.values[i]
                == self.values@[i]@ by {}
            assert(self@.values[1] == self.values@[1]@ && self@.values[2] == self.values@[2]@);
            assert(self@.values[3] == self.values@[3]@ && self@.values[4] == self.values@[4]@);
            assert(self@.values[5] == self.values@[5]@);
        }
        let kind: Kind = if same(self.values[2].as_str(), Kind::Local.label()) {
            Kind::Local
        } else if same(self.values[2].as_str(), Kind::Remote.label()) {
            Kind::Remote
        } else {
            Kind::Local
        };
        Forward {
            host: self.values[1].clone(),
            kind,
            bind: self.values[3].clone(),
            target: self.values[4].clone(),
            protocol: self.protocol,
            note: self.values[5].clone(),
        }
    }

    /// Open the editor for the current field. `groups` are the profile names
    /// that already exist; typing over the pick (`Tab`) is what creates a new
    /// one, so there is no separate "new group" step and no way to end up with a
    /// group that holds nothing.
    pub fn begin_edit(&mut self, config: &SshConfig, groups: &[String])
        requires
            old(self)@.wf(),
        ensures
            final(self)@ == forward_edit_begun(old(self)@, config@, views(groups@)),
            final(self)@.wf(),
    {
        let field: ForwardField = self.field();
        assert(self@.values[self.cursor as int] == self.values@[self.cursor as int]@);
        let editing: Editing = if field.is_pick() {
            let options: Vec<String> = if field == ForwardField::Kind {
                let mut kinds: Vec<String> = Vec::new();
                kinds.push(Kind::Local.label().to_owned());
                kinds.push(Kind::Remote.label().to_owned());
                assert(views(kinds@) =~= seq!["local"@, "remote"@]);
                kinds
            } else if field == ForwardField::Group {
                copies(groups)
            } else {
                collect_host_names(config)
            };
            Editing::pick(options, self.values[self.cursor].as_str())
        } else {
            Editing::text(self.values[self.cursor].as_str())
        };
        self.editing = Some(editing);
    }

    /// Accept the value being edited.
    pub fn commit_edit(&mut self)
        requires
            old(self)@.wf(),
        ensures
            final(self)@ == forward_edit_committed(old(self)@),
            final(self)@.wf(),
    {
        let ghost was = self@;
        match self.editing.take() {
            Some(editing) => {
                let value: String = editing.value();
                let entered: &str = trim(value.as_str());
                let i: usize = self.cursor;
                if self.field() == ForwardField::Target {
                    self.values.set(i, Forward::normalise_target(entered));
                } else {
                    self.values.set(i, entered.to_owned());
                }
                assert(self@.values =~= forward_edit_committed(was).values);
            },
            None => {},
        }
    }

    pub fn cancel_edit(&mut self)
        ensures
            final(self)@ == (ForwardFormView { editing: None, ..old(self)@ }),
    {
        self.editing = None;
    }

    /// Switch a picker to free text, keeping whatever was highlighted.
    pub fn edit_as_text(&mut self)
        ensures
            final(self)@ == (ForwardFormView {
                editing: as_text(old(self)@.editing),
                ..old(self)@
            }),
    {
        let seed: Option<String> = match &self.editing {
            Some(editing) => match editing {
                Editing::Pick { .. } => Some(editing.value()),
                Editing::Text(_) => None,
            },
            None => None,
        };
        match seed {
            Some(value) => {
                self.editing = Some(Editing::text(value.as_str()));
            },
            None => {},
        }
    }
}

/// A rule opened in the form and left alone is still the rule.
pub proof fn law_form_holds_the_rule(
    profile: int,
    index: Option<int>,
    f: ForwardView,
    group: Seq<char>,
)
    ensures
        form_on(profile, index, f, group).rule() == f,
{
    reveal_strlit("local");
    reveal_strlit("remote");
    assert("local"@.len() != "remote"@.len());
}

} // verus!
