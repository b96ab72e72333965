//! Tunnel rules and the groups they are kept in.

use vstd::prelude::*;
use crate::find::{last_of, lemma_last_of, rfind};
use crate::number::{parse_u16, read_u16};
use crate::probe::{bind_port, port_in};
use crate::split::{join, joined};
use crate::sshconfig::{path_in, path_under};
use crate::text::{chars, trim, trimmed, view_of, views};

verus! {

/// Which way the forward runs.
///
/// The two are mirror images and the argument order does not say which is which,
/// so everything here is phrased as "where it listens" and "where it exits".
#[derive(Debug, Clone, Copy, PartialEq, Eq, Structural)]
pub enum Kind {
    /// `-L`: listens here, exits on the far side.
    Local,
    /// `-R`: listens on the far side, exits here.
    Remote,
}

/// The option that asks `ssh` for a forward of this kind.
pub open spec fn flag_of(kind: Kind) -> Seq<char> {
    match kind {
        Kind::Local => "-L"@,
        Kind::Remote => "-R"@,
    }
}

/// The name of a kind.
pub open spec fn label_of(kind: Kind) -> Seq<char> {
    match kind {
        Kind::Local => "local"@,
        Kind::Remote => "remote"@,
    }
}

impl Kind {
    pub const ALL: [Kind; 2] = [Kind::Local, Kind::Remote];

    /// The option that asks `ssh` for a forward of this kind.
    pub fn flag(self) -> (r: &'static str)
        ensures
            r@ == flag_of(self),
    {
        match self {
            Kind::Local => "-L",
            Kind::Remote => "-R",
        }
    }

    /// The name of the kind.
    pub fn label(self) -> (r: &'static str)
        ensures
            r@ == label_of(self),
    {
        match self {
            Kind::Local => "local",
            Kind::Remote => "remote",
        }
    }
}

/// What is spoken through a tunnel, which decides how it is measured.
#[derive(Debug, Clone, Copy, PartialEq, Eq, Structural)]
pub enum Protocol {
    Tcp,
    Http,
    Udp,
}

/// A tunnel rule.
#[derive(Debug, Clone, PartialEq, Eq)]
pub struct Forward {
    /// An alias from `~/.ssh/config`.
    pub host: String,
    pub kind: Kind,
    /// The listening side: `29001`, or `0.0.0.0:29001` to accept from elsewhere.
    pub bind: String,
    /// Where traffic comes out: `host:port`.
    pub target: String,
    pub protocol: Protocol,
    pub note: String,
}

/// What a [`Forward`] says.
#[verifier::ext_equal]
pub struct ForwardView {
    pub host: Seq<char>,
    pub kind: Kind,
    pub bind: Seq<char>,
    pub target: Seq<char>,
    pub protocol: Protocol,
    pub note: Seq<char>,
}

impl View for Forward {
    type V = ForwardView;

    open spec fn view(&self) -> ForwardView {
        ForwardView {
            host: self.host@,
            kind: self.kind,
            bind: self.bind@,
            target: self.target@,
            protocol: self.protocol,
            note: self.note@,
        }
    }
}

impl ForwardView {
    /// The `-L`/`-R` argument: `bind:target`.
    pub open spec fn argument(self) -> Seq<char> {
        self.bind + ":"@ + self.target
    }

    /// Arguments for the tunnel process.
    pub open spec fn arguments(self) -> Seq<Seq<char>> {
        seq![
            "-f"@,
            "-N"@,
            "-o"@,
            "BatchMode=yes"@,
            "-o"@,
            "ExitOnForwardFailure=yes"@,
            flag_of(self.kind),
            self.argument(),
            self.host,
        ]
    }

    /// One line on a rule or on the process that serves it.
    pub open spec fn line(self) -> Seq<char> {
        flag_of(self.kind) + " "@ + self.argument() + " "@ + self.host
    }

    /// Who resolves and connects to the exit: the far side for `-L`, this
    /// machine for `-R`.
    pub open spec fn exit_side(self) -> Seq<char> {
        match self.kind {
            Kind::Local => self.host,
            Kind::Remote => "this machine"@,
        }
    }

    /// What keeps the rule from being started, if anything does: no host, no
    /// port to listen on, or an exit that is not `host:port`.
    pub open spec fn flaw(self) -> Option<Seq<char>> {
        if trimmed(self.host).len() == 0 {
            Some("incomplete: pick a host"@)
        } else if port_in(self.bind) is None {
            Some("incomplete: listen on a port, or address:port"@)
        } else if !two_parts(self.target) {
            Some(
                "incomplete: exit at host:port, like "@ + example_target(self.target)
                    + " -- any address "@ + self.exit_side() + " can reach"@,
            )
        } else {
            None
        }
    }
}

/// The exit names a host and a port.
pub open spec fn two_parts(target: Seq<char>) -> bool {
    0 < last_of(target, ':') < target.len() - 1
}

/// An exit with its host written out: a bare port means that port on
/// `localhost`.
pub open spec fn full_target(value: Seq<char>) -> Seq<char> {
    if read_u16(value, 10) is Some {
        "localhost:"@ + value
    } else {
        value
    }
}

/// An exit to suggest in place of one that is not `host:port`.
pub open spec fn example_target(value: Seq<char>) -> Seq<char> {
    if read_u16(value, 10) is Some {
        full_target(value)
    } else {
        "localhost:22"@
    }
}

impl Forward {
    /// A rule that says the same.
    pub fn duplicate(&self) -> (r: Forward)
        ensures
            r@ == self@,
    {
        Forward {
            host: self.host.clone(),
            kind: self.kind,
            bind: self.bind.clone(),
            target: self.target.clone(),
            protocol: self.protocol,
            note: self.note.clone(),
        }
    }

    /// The `-L`/`-R` argument: `bind:target`.
    pub fn spec(&self) -> (r: String)
        ensures
            r@ == self@.argument(),
    {
        let mut out: String = self.bind.clone();
        out.append(":");
        out.append(self.target.as_str());
        out
    }

    /// Arguments for the tunnel process.
    ///
    /// `BatchMode` is not optional: without it ssh prompts for a passphrase when
    /// the agent has no key, and with the TUI holding the terminal that prompt
    /// is invisible and the UI simply hangs. `ExitOnForwardFailure` is what turns
    /// "the port was already taken" from a live process with no forward into a
    /// visible failure.
    pub fn ssh_args(&self) -> (r: Vec<String>)
        ensures
            views(r@) == self@.arguments(),
    {
        let mut out: Vec<String> = Vec::new();
        out.push("-f".to_owned());
        out.push("-N".to_owned());
        out.push("-o".to_owned());
        out.push("BatchMode=yes".to_owned());
        out.push("-o".to_owned());
        out.push("ExitOnForwardFailure=yes".to_owned());
        out.push(self.kind.flag().to_owned());
        out.push(self.spec());
        out.push(self.host.clone());
        assert(views(out@) =~= self@.arguments());
        out
    }

    /// The command that starts the tunnel.
    pub fn command_line(&self) -> (r: String)
        ensures
            r@ == "ssh "@ + joined(self@.arguments(), " "@),
    {
        let mut out: String = "ssh ".to_owned();
        out.append(join(self.ssh_args().as_slice(), " ").as_str());
        out
    }

    /// Where the port opens and where traffic leaves, in that order. The two
    /// swap sides between `-L` and `-R`; saying it outright is the whole point.
    pub fn explain(&self) -> (r: (String, String))
        ensures
            self.kind == Kind::Local ==> {
                &&& r.0@ == "listen   this machine   "@ + self@.bind
                &&& r.1@ == "exit     "@ + self@.host + "   ->  "@ + self@.target
            },
            self.kind == Kind::Remote ==> {
                &&& r.0@ == "listen   "@ + self@.host + "   "@ + self@.bind
                &&& r.1@ == "exit     this machine   ->  "@ + self@.target
            },
    {
        match self.kind {
            Kind::Local => {
                let mut listen: String = "listen   this machine   ".to_owned();
                listen.append(self.bind.as_str());
                let mut exit: String = "exit     ".to_owned();
                exit.append(self.host.as_str());
                exit.append("   ->  ");
                exit.append(self.target.as_str());
                (listen, exit)
            },
            Kind::Remote => {
                let mut listen: String = "listen   ".to_owned();
                listen.append(self.host.as_str());
                listen.append("   ");
                listen.append(self.bind.as_str());
                let mut exit: String = "exit     this machine   ->  ".to_owned();
                exit.append(self.target.as_str());
                (listen, exit)
            },
        }
    }

    /// One-line summary for the list.
    pub fn summary(&self) -> (r: String)
        ensures
            r@ == self@.line(),
    {
        let mut out: String = self.kind.flag().to_owned();
        out.append(" ");
        out.append(self.spec().as_str());
        out.append(" ");
        out.append(self.host.as_str());
        out
    }

    /// An exit with its host written out, so that a bare port does not build a
    /// command that ssh refuses.
    pub fn normalise_target(value: &str) -> (r: String)
        ensures
            r@ == full_target(value@),
    {
        if parse_u16(value, 10).is_some() {
            let mut out: String = "localhost:".to_owned();
            out.append(value);
            out
        } else {
            value.to_owned()
        }
    }

    /// What keeps the rule from being started, if anything does.
    pub fn problem(&self) -> (r: Option<String>)
        ensures
            view_of(r) == self@.flaw(),
    {
        if trim(self.host.as_str()).is_empty() {
            return Some("incomplete: pick a host".to_owned());
        }
        if bind_port(self.bind.as_str()).is_none() {
            return Some("incomplete: listen on a port, or address:port".to_owned());
        }
        let cs: Vec<char> = chars(self.target.as_str());
        let whole: bool = match rfind(cs.as_slice(), ':') {
            Some(i) => 0 < i && i < cs.len() - 1,
            None => false,
        };
        if whole {
            return None;
        }
        let mut out: String = "incomplete: exit at host:port, like ".to_owned();
        if parse_u16(self.target.as_str(), 10).is_some() {
            out.append(Forward::normalise_target(self.target.as_str()).as_str());
        } else {
            out.append("localhost:22");
        }
        out.append(" -- any address ");
        match self.kind {
            Kind::Local => out.append(self.host.as_str()),
            Kind::Remote => out.append("this machine"),
        }
        out.append(" can reach");
        Some(out)
    }
}

/// A group of rules.
#[derive(Debug, Clone)]
pub struct Profile {
    pub name: String,
    pub forwards: Vec<Forward>,
}

/// What a [`Profile`] says.
#[verifier::ext_equal]
pub struct ProfileView {
    pub name: Seq<char>,
    pub forwards: Seq<ForwardView>,
}

impl View for Profile {
    type V = ProfileView;

    open spec fn view(&self) -> ProfileView {
        ProfileView { name: self.name@, forwards: views(self.forwards@) }
    }
}

/// All rules, by group.
#[derive(Debug, Clone)]
pub struct Tunnels {
    pub profiles: Vec<Profile>,
}

impl View for Tunnels {
    type V = Seq<ProfileView>;

    open spec fn view(&self) -> Seq<ProfileView> {
        views(self.profiles@)
    }
}

impl Default for Tunnels {
    fn default() -> (r: Tunnels)
        ensures
            r@ == Seq::<ProfileView>::empty(),
    {
        let r: Tunnels = Tunnels { profiles: Vec::new() };
        assert(r@ =~= Seq::<ProfileView>::empty());
        r
    }
}

/// Every rule as its group and its place there, in display order.
pub open spec fn slots(profiles: Seq<ProfileView>) -> Seq<(int, int)>
    decreases profiles.len(),
{
    if profiles.len() == 0 {
        Seq::empty()
    } else {
        let p = profiles.len() - 1;
        slots(profiles.drop_last()) + Seq::new(
            profiles.last().forwards.len(),
            |f: int| (p, f),
        )
    }
}

/// There is a rule at this place.
pub open spec fn is_slot(profiles: Seq<ProfileView>, slot: (int, int)) -> bool {
    0 <= slot.0 < profiles.len() && 0 <= slot.1 < profiles[slot.0].forwards.len()
}

/// `a` stands above `b` on the screen.
pub open spec fn above(a: (int, int), b: (int, int)) -> bool {
    a.0 < b.0 || (a.0 == b.0 && a.1 < b.1)
}

/// The places listed are those that hold a rule, each once, from the top.
pub proof fn lemma_slots(profiles: Seq<ProfileView>)
    ensures
        forall|i: int|
            0 <= i < slots(profiles).len() ==> is_slot(profiles, #[trigger] slots(profiles)[i]),
        forall|s: (int, int)| #[trigger]
            is_slot(profiles, s) ==> slots(profiles).contains(s),
        forall|i: int, j: int|
            0 <= i < j < slots(profiles).len() ==> above(
                #[trigger] slots(profiles)[i],
                #[trigger] slots(profiles)[j],
            ),
    decreases profiles.len(),
{
    if profiles.len() > 0 {
        let init = profiles.drop_last();
        lemma_slots(init);
        let before = slots(init);
        let all = slots(profiles);
        let p = profiles.len() - 1;
        assert forall|i: int| 0 <= i < all.len() implies is_slot(profiles, #[trigger] all[i]) by {
            if i < before.len() {
                assert(all[i] == before[i]);
                assert(is_slot(init, before[i]));
            }
        }
        assert forall|s: (int, int)| #[trigger] is_slot(profiles, s) implies all.contains(s) by {
            if s.0 < p {
                assert(is_slot(init, s));
                let k = choose|k: int| 0 <= k < before.len() && before[k] == s;
                assert(all[k] == s);
            } else {
                assert(all[before.len() + s.1] == s);
            }
        }
        assert forall|i: int, j: int| 0 <= i < j < all.len() implies above(
            #[trigger] all[i],
            #[trigger] all[j],
        ) by {
            if j < before.len() {
                assert(above(before[i], before[j]));
            } else if i < before.len() {
                assert(is_slot(init, before[i]));
            }
        }
    }
}

/// Calls `dirs::config_dir`. The directory is what the environment says it is,
/// so nothing is claimed of it. A path that is no text counts as none.
#[verifier::external_body]
fn config_dir() -> (r: Option<String>) {
    dirs::config_dir().and_then(|dir| dir.into_os_string().into_string().ok())
}

/// The file of the rules below the directory for configuration.
pub open spec fn rules_path(dir: Seq<char>) -> Seq<char> {
    path_in(path_in(dir, "excalibur"@), "tunnels.yaml"@)
}

impl Tunnels {
    /// The file of the rules below the directory for configuration, if there is
    /// such a directory.
    pub fn path_below(base: Option<String>) -> (r: Option<String>)
        ensures
            match base {
                Some(dir) => r is Some && r->0@ == rules_path(dir@),
                None => r is None,
            },
    {
        match base {
            Some(dir) => Some(
                path_under(path_under(dir.as_str(), "excalibur").as_str(), "tunnels.yaml"),
            ),
            None => None,
        }
    }

    /// The file that the rules are kept in: what [`Tunnels::path_below`] gives for
    /// the directory that is found. Whether there is one, and which, is left to
    /// the environment.
    pub fn path() -> (r: Option<String>)
        ensures
            r is Some ==> exists|dir: Seq<char>| r->0@ == #[trigger] rules_path(dir),
    {
        Tunnels::path_below(config_dir())
    }

    /// Every forward with the profile it belongs to, in display order.
    pub fn all(&self) -> (r: Vec<(usize, usize)>)
        ensures
            r@.len() == slots(self@).len(),
            forall|i: int|
                0 <= i < r@.len() ==> (#[trigger] r@[i]).0 == slots(self@)[i].0 && r@[i].1 == slots(
                    self@,
                )[i].1,
    {
        let ghost ps = self@;
        let mut out: Vec<(usize, usize)> = Vec::new();
        let mut p: usize = 0;
        while p < self.profiles.len()
            invariant
                ps == self@,
                p <= self.profiles@.len(),
                out@.len() == slots(ps.take(p as int)).len(),
                forall|i: int|
                    0 <= i < out@.len() ==> (#[trigger] out@[i]).0 == slots(ps.take(p as int))[i].0
                        && out@[i].1 == slots(ps.take(p as int))[i].1,
            decreases self.profiles@.len() - p,
        {
            let ghost next = ps.take(p + 1);
            let ghost before = slots(ps.take(p as int));
            proof {
                assert(next.drop_last() =~= ps.take(p as int));
                assert(next.last() == self.profiles@[p as int]@);
            }
            let n: usize = self.profiles[p].forwards.len();
            let mut f: usize = 0;
            while f < n
                invariant
                    f <= n,
                    out@.len() == before.len() + f,
                    forall|i: int|
                        0 <= i < before.len() ==> (#[trigger] out@[i]).0 == before[i].0 && out@[i].1
                            == before[i].1,
                    forall|i: int|
                        before.len() <= i < out@.len() ==> #[trigger] out@[i] == (
                            p,
                            (i - before.len()) as usize,
                        ),
                decreases n - f,
            {
                out.push((p, f));
                f += 1;
            }
            p += 1;
        }
        assert(ps.take(p as int) =~= ps);
        out
    }

    /// The rule at a place.
    pub fn get(&self, profile: usize, forward: usize) -> (r: Option<&Forward>)
        ensures
            view_of(r) == (if is_slot(self@, (profile as int, forward as int)) {
                Some(self@[profile as int].forwards[forward as int])
            } else {
                None
            }),
    {
        if profile < self.profiles.len() && forward < self.profiles[profile].forwards.len() {
            assert(self@[profile as int] == self.profiles@[profile as int]@);
            Some(&self.profiles[profile].forwards[forward])
        } else {
            None
        }
    }

    /// How many rules there are.
    pub fn count(&self) -> (r: usize)
        ensures
            r == slots(self@).len(),
    {
        self.all().len()
    }
}

/// An exit that was written out stays as it is: doing it twice is doing it once.
pub proof fn law_full_target(value: Seq<char>)
    ensures
        full_target(full_target(value)) == full_target(value),
        value.len() > 0 && read_u16(value, 10) is Some ==> two_parts(full_target(value)),
{
    if read_u16(value, 10) is Some {
        reveal_strlit("localhost:");
        let t = full_target(value);
        assert(t[0] == 'l');
        crate::number::lemma_bad_digit(t, 0, 10);
        lemma_last_of(t, ':');
        assert(t[9] == ':');
        assert forall|i: int| 9 < i < t.len() implies t[i] != ':' by {
            if t[i] == ':' {
                assert(value[i - 10] == ':');
                if value[0] == '+' && value.len() > 1 {
                    assert(value.skip(1)[i - 11] == ':');
                    crate::number::lemma_bad_digit(value.skip(1), i - 11, 10);
                } else {
                    crate::number::lemma_bad_digit(value, i - 10, 10);
                }
            }
        }
    }
}

} // verus!
