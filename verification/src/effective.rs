//! What ssh actually resolves for a host, per `ssh -G`.

use vstd::prelude::*;
use crate::command::CommandOutput;
use crate::find::{contains, find_char, first_of, holds, lemma_first_of};
use crate::number::{decimal, to_decimal};
use crate::split::{lines, lines_of};
use crate::text::{chars, folded, lowered, same, trim, trimmed, view_of, views};

verus! {

/// What ssh resolves for a host.
///
/// This is the only way to see the difference between what a block says and
/// what ssh does with it: values are taken first-match-wins across every block
/// that matches the alias, so a directive can be present and inert.
#[derive(Debug)]
pub struct Effective {
    /// Lowercased keys in the order ssh printed them. A key may repeat --
    /// `identityfile` is listed once per candidate.
    pub values: Vec<(String, String)>,
    /// Whatever ssh wrote to stderr. It refuses to resolve a config containing
    /// an unknown keyword, so this doubles as a syntax check.
    pub error: Option<String>,
}

/// What an [`Effective`] says.
#[verifier::ext_equal]
pub struct EffectiveView {
    pub values: Seq<(Seq<char>, Seq<char>)>,
    pub error: Option<Seq<char>>,
}

/// What the pairs say.
pub open spec fn pairs(list: Seq<(String, String)>) -> Seq<(Seq<char>, Seq<char>)> {
    Seq::new(list.len(), |i: int| (list[i].0@, list[i].1@))
}

impl View for Effective {
    type V = EffectiveView;

    open spec fn view(&self) -> EffectiveView {
        EffectiveView { values: pairs(self.values@), error: view_of(self.error) }
    }
}

impl Default for Effective {
    fn default() -> (r: Effective)
        ensures
            r@.values.len() == 0,
            r@.error is None,
    {
        Effective { values: Vec::new(), error: None }
    }
}

/// The value of the first pair at or after `from` with this key.
pub open spec fn first_value(
    values: Seq<(Seq<char>, Seq<char>)>,
    key: Seq<char>,
    from: int,
) -> Option<Seq<char>>
    decreases values.len() - from,
{
    if from >= values.len() {
        None
    } else if values[from].0 == key {
        Some(values[from].1)
    } else {
        first_value(values, key, from + 1)
    }
}

impl Effective {
    /// Whether `written` is what ssh ends up using for `key`.
    pub fn agrees(&self, key: &str, written: &str) -> (r: bool)
        ensures
            r == self@.values.contains((folded(key@), written@)),
    {
        let low: String = lowered(key);
        let ghost vs = self@.values;
        let mut i: usize = 0;
        while i < self.values.len()
            invariant
                vs == self@.values,
                i <= self.values@.len(),
                forall|k: int| 0 <= k < i ==> #[trigger] vs[k] != (low@, written@),
                low@ == folded(key@),
            decreases self.values@.len() - i,
        {
            assert(vs[i as int] == (self.values@[i as int].0@, self.values@[i as int].1@));
            if same(self.values[i].0.as_str(), low.as_str()) && same(
                self.values[i].1.as_str(),
                written,
            ) {
                return true;
            }
            i += 1;
        }
        false
    }

    /// The first value for `key`.
    pub fn first(&self, key: &str) -> (r: Option<&str>)
        ensures
            view_of(r) == first_value(self@.values, folded(key@), 0),
    {
        let low: String = lowered(key);
        let mut i: usize = 0;
        while i < self.values.len()
            invariant
                i <= self.values@.len(),
                low@ == folded(key@),
                first_value(self@.values, low@, 0) == first_value(self@.values, low@, i as int),
            decreases self.values@.len() - i,
        {
            assert(self@.values[i as int] == (
                self.values@[i as int].0@,
                self.values@[i as int].1@,
            ));
            if same(self.values[i].0.as_str(), low.as_str()) {
                return Some(self.values[i].1.as_str());
            }
            i += 1;
        }
        None
    }
}

/// The line opens a block on the condition of a command.
pub open spec fn runs_command(raw: Seq<char>) -> bool {
    let line = trimmed(raw);
    &&& line.len() >= 5
    &&& folded(line.take(5)) == "match"@
    &&& holds(folded(line), "exec"@)
}

/// The first line at or after `from` that would run a command, counted from
/// one.
pub open spec fn exec_line(ls: Seq<Seq<char>>, from: int) -> Option<int>
    decreases ls.len() - from,
{
    if from >= ls.len() {
        None
    } else if runs_command(ls[from]) {
        Some(from + 1)
    } else {
        exec_line(ls, from + 1)
    }
}

/// The first line that would run a command, counted from one.
pub fn match_exec_line(config_lines: &[String]) -> (r: Option<usize>)
    ensures
        (match r {
            Some(n) => Some(n as int),
            None => None,
        }) == exec_line(views(config_lines@), 0),
{
    let mut i: usize = 0;
    while i < config_lines.len()
        invariant
            i <= config_lines@.len(),
            exec_line(views(config_lines@), 0) == exec_line(views(config_lines@), i as int),
        decreases config_lines@.len() - i,
    {
        assert(views(config_lines@)[i as int] == config_lines@[i as int]@);
        let line: &str = trim(config_lines[i].as_str());
        let n: usize = line.unicode_len();
        if n >= 5 {
            let head: String = lowered(line.substring_char(0, 5));
            assert(line@.subrange(0, 5) =~= line@.take(5));
            if same(head.as_str(), "match") && contains(lowered(line).as_str(), "exec") {
                return Some(i + 1);
            }
        }
        i += 1;
    }
    None
}

/// What to do to learn what ssh resolves.
#[derive(Debug)]
pub enum Query {
    /// Nothing: this is the answer.
    Answer(Effective),
    /// Run `ssh` with these arguments.
    Run(Vec<String>),
}

/// The answer where a config would make ssh run a command.
pub open spec fn refusal(line: int) -> EffectiveView {
    EffectiveView {
        values: Seq::empty(),
        error: Some(
            "not run: `Match exec` on line "@ + decimal(line as nat)
                + " would execute a command"@,
        ),
    }
}

/// Ask ssh to resolve `alias`.
///
/// `ssh -G` is local and takes single-digit milliseconds, so it runs inline --
/// except when the config has a `Match exec` block, which would make ssh run a
/// shell command and could hang the UI. Those are refused with a reason instead.
///
/// The trailing command is load-bearing: with none, ssh assumes an interactive
/// session, finds stdin is not a tty, and warns on stderr -- which would surface
/// as a config error. It is never run; `-G` only prints the resolved options.
pub fn resolve(alias: &str, config_lines: &[String]) -> (r: Query)
    ensures
        exec_line(views(config_lines@), 0) matches Some(n) ==> (r matches Query::Answer(e) && e@
            == refusal(n)),
        exec_line(views(config_lines@), 0) is None ==> (r matches Query::Run(args) && views(args@)
            == seq!["-G"@, alias@, "true"@]),
{
    match match_exec_line(config_lines) {
        Some(line) => {
            let mut message: String = "not run: `Match exec` on line ".to_owned();
            message.append(to_decimal(line as u128).as_str());
            message.append(" would execute a command");
            let answer: Effective = Effective { values: Vec::new(), error: Some(message) };
            assert(answer@.values =~= refusal(line as int).values);
            Query::Answer(answer)
        },
        None => {
            let mut args: Vec<String> = Vec::new();
            args.push("-G".to_owned());
            args.push(alias.to_owned());
            args.push("true".to_owned());
            assert(views(args@) =~= seq!["-G"@, alias@, "true"@]);
            Query::Run(args)
        },
    }
}

/// The option and value on a line of `ssh -G` output.
pub open spec fn option_in(line: Seq<char>) -> Option<(Seq<char>, Seq<char>)> {
    let i = first_of(line, ' ', 0);
    if i < line.len() {
        Some((folded(line.take(i)), trimmed(line.skip(i + 1))))
    } else {
        None
    }
}

/// The options and values that the lines hold.
pub open spec fn options_in(ls: Seq<Seq<char>>) -> Seq<(Seq<char>, Seq<char>)>
    decreases ls.len(),
{
    if ls.len() == 0 {
        Seq::empty()
    } else {
        let before = options_in(ls.drop_last());
        match option_in(ls.last()) {
            Some(pair) => before.push(pair),
            None => before,
        }
    }
}

/// What a run of `ssh -G` says.
pub open spec fn answer_in(stdout: Seq<char>, stderr: Seq<char>) -> EffectiveView {
    EffectiveView {
        values: options_in(lines_of(stdout)),
        error: if trimmed(stderr).len() == 0 {
            None
        } else {
            Some(trimmed(stderr))
        },
    }
}

/// What a run of `ssh -G` says, once it has ended.
pub fn read_answer(output: &CommandOutput) -> (r: Effective)
    ensures
        r@ == answer_in(output.stdout@, output.stderr@),
{
    let ls: Vec<String> = lines(output.stdout.as_str());
    let ghost all = views(ls@);
    let mut values: Vec<(String, String)> = Vec::new();
    let mut i: usize = 0;
    assert(pairs(values@) =~= options_in(all.take(0)));
    while i < ls.len()
        invariant
            all == views(ls@),
            i <= ls@.len(),
            pairs(values@) == options_in(all.take(i as int)),
        decreases ls@.len() - i,
    {
        let ghost before = pairs(values@);
        let line: &str = ls[i].as_str();
        proof {
            assert(all.take(i + 1).drop_last() =~= all.take(i as int));
            assert(all.take(i + 1).last() == line@);
            lemma_first_of(line@, ' ', 0);
        }
        let cs: Vec<char> = chars(line);
        match find_char(cs.as_slice(), ' ') {
            Some(at) => {
                let n: usize = cs.len();
                let key: String = lowered(line.substring_char(0, at));
                let value: String = trim(line.substring_char(at + 1, n)).to_owned();
                proof {
                    assert(line@.subrange(0, at as int) =~= line@.take(at as int));
                    assert(line@.subrange(at + 1, n as int) =~= line@.skip(at + 1));
                }
                values.push((key, value));
                assert(pairs(values@) =~= before.push((key@, value@)));
            },
            None => {},
        }
        i += 1;
    }
    assert(all.take(i as int) =~= all);
    let stderr: &str = trim(output.stderr.as_str());
    let error: Option<String> = if stderr.is_empty() {
        None
    } else {
        Some(stderr.to_owned())
    };
    Effective { values, error }
}

/// What to say where `ssh` could not be run at all.
pub fn not_run(reason: &str) -> (r: Effective)
    ensures
        r@.values.len() == 0,
        r@.error == Some("could not run ssh: "@ + reason@),
{
    let mut message: String = "could not run ssh: ".to_owned();
    message.append(reason);
    Effective { values: Vec::new(), error: Some(message) }
}

/// What is used is agreed with: a value written as ssh prints it first is one
/// that ssh uses.
pub proof fn law_first_agrees(values: Seq<(Seq<char>, Seq<char>)>, key: Seq<char>)
    ensures
        first_value(values, key, 0) matches Some(v) ==> values.contains((key, v)),
{
    lemma_first_value(values, key, 0);
}

proof fn lemma_first_value(values: Seq<(Seq<char>, Seq<char>)>, key: Seq<char>, from: int)
    requires
        0 <= from,
    ensures
        first_value(values, key, from) matches Some(v) ==> values.contains((key, v)),
    decreases values.len() - from,
{
    if from < values.len() {
        if values[from].0 == key {
            assert(values[from] == (key, values[from].1));
        } else {
            lemma_first_value(values, key, from + 1);
        }
    }
}

/// No command is run on account of a config: where a line would make ssh run
/// one, ssh is not asked.
pub proof fn law_no_command_is_run(ls: Seq<Seq<char>>, i: int)
    requires
        0 <= i < ls.len(),
        runs_command(ls[i]),
    ensures
        exec_line(ls, 0) is Some,
{
    lemma_exec_line(ls, 0, i);
}

proof fn lemma_exec_line(ls: Seq<Seq<char>>, from: int, i: int)
    requires
        0 <= from <= i < ls.len(),
        runs_command(ls[i]),
    ensures
        exec_line(ls, from) is Some,
    decreases ls.len() - from,
{
    if !runs_command(ls[from]) {
        lemma_exec_line(ls, from + 1, i);
    }
}

} // verus!
