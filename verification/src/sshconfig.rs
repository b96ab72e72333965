//! The client configuration file: its lines, kept as they are, and the host
//! blocks found in them.

use vstd::prelude::*;
use crate::find::begins;
use crate::glob::{glob, glob_match};
use crate::split::{
    join, joined, lemma_join_split, lemma_word_spans, spans, split, split_on, split_words,
    word_spans, words,
};
use crate::text::{
    chars, lemma_views_push, same, same_ignoring_case, same_word, trim, trimmed, view_of, views,
};

verus! {

/// One `Key Value` line inside a host block.
#[derive(Debug, Clone)]
pub struct Directive {
    /// 0-based index into [`SshConfig::lines`].
    pub line: usize,
    /// Key as written, so that `Hostname` / `HostName` round-trip unchanged.
    pub key: String,
    pub value: String,
}

/// What a [`Directive`] says.
#[verifier::ext_equal]
pub struct DirectiveView {
    pub line: int,
    pub key: Seq<char>,
    pub value: Seq<char>,
}

impl View for Directive {
    type V = DirectiveView;

    open spec fn view(&self) -> DirectiveView {
        DirectiveView { line: self.line as int, key: self.key@, value: self.value@ }
    }
}

/// One `Host <patterns>` block.
#[derive(Debug, Clone)]
pub struct HostBlock {
    pub patterns: Vec<String>,
    /// 0-based index of the `Host` header line.
    pub start: usize,
    /// Exclusive end: one past the last *directive* line. Blank lines and
    /// comments trailing the block are left outside, so rewriting `[start, end)`
    /// never disturbs the separators between blocks.
    pub end: usize,
    pub directives: Vec<Directive>,
    /// Index of an earlier block that already sets every keyword this one sets,
    /// which makes this block dead. Where only several earlier blocks together
    /// set them all it is the first of those that go by this one's name. The
    /// first value obtained for each keyword is the one that counts, so a later
    /// block still takes effect for any keyword the earlier ones left unset --
    /// being duplicated is not by itself fatal.
    pub shadowed_by: Option<usize>,
}

/// What a [`HostBlock`] says.
#[verifier::ext_equal]
pub struct HostBlockView {
    pub patterns: Seq<Seq<char>>,
    pub start: int,
    pub end: int,
    pub directives: Seq<DirectiveView>,
    pub shadowed_by: Option<int>,
}

impl View for HostBlock {
    type V = HostBlockView;

    open spec fn view(&self) -> HostBlockView {
        HostBlockView {
            patterns: views(self.patterns@),
            start: self.start as int,
            end: self.end as int,
            directives: views(self.directives@),
            shadowed_by: match self.shadowed_by {
                Some(i) => Some(i as int),
                None => None,
            },
        }
    }
}

/// A client configuration file.
#[derive(Debug)]
pub struct SshConfig {
    pub path: String,
    /// Every line verbatim, split on `\n` only -- a trailing `\r` stays in the
    /// line, so CRLF files round-trip byte for byte.
    pub lines: Vec<String>,
    pub hosts: Vec<HostBlock>,
    /// Set when the file must not be written: a symlink into the nix store, or
    /// no write permission. Callers degrade to read-only rather than discovering
    /// this at save time.
    pub read_only: bool,
}

/// What an [`SshConfig`] says.
#[verifier::ext_equal]
pub struct SshConfigView {
    pub path: Seq<char>,
    pub lines: Seq<Seq<char>>,
    pub hosts: Seq<HostBlockView>,
    pub read_only: bool,
}

impl View for SshConfig {
    type V = SshConfigView;

    open spec fn view(&self) -> SshConfigView {
        SshConfigView {
            path: self.path@,
            lines: views(self.lines@),
            hosts: views(self.hosts@),
            read_only: self.read_only,
        }
    }
}

/// A config with nothing in it.
pub open spec fn empty_config() -> SshConfigView {
    SshConfigView {
        path: Seq::empty(),
        lines: Seq::empty(),
        hosts: Seq::empty(),
        read_only: false,
    }
}

impl Default for SshConfig {
    fn default() -> (r: SshConfig)
        ensures
            r@ == empty_config(),
            r@.wf(),
    {
        let r: SshConfig = SshConfig {
            path: String::new(),
            lines: Vec::new(),
            hosts: Vec::new(),
            read_only: false,
        };
        assert(r@ =~= empty_config());
        r
    }
}

/// A character that ends a keyword.
pub open spec fn ends_key(c: char) -> bool {
    c == ' ' || c == '\t' || c == '='
}

/// A character that may stand before the value.
pub open spec fn blank(c: char) -> bool {
    c == ' ' || c == '\t'
}

/// The first position at or after `from` that ends a keyword.
pub open spec fn key_end(s: Seq<char>, from: int) -> int
    decreases s.len() - from,
{
    if from >= s.len() {
        s.len() as int
    } else if ends_key(s[from]) {
        from
    } else {
        key_end(s, from + 1)
    }
}

/// The first position at or after `from` that holds no blank.
pub open spec fn past_blanks(s: Seq<char>, from: int) -> int
    decreases s.len() - from,
{
    if from >= s.len() {
        s.len() as int
    } else if blank(s[from]) {
        past_blanks(s, from + 1)
    } else {
        from
    }
}

/// The first position at or after `from` that holds neither a blank nor `=`.
pub open spec fn past_separator(s: Seq<char>, from: int) -> int
    decreases s.len() - from,
{
    if from >= s.len() {
        s.len() as int
    } else if ends_key(s[from]) {
        past_separator(s, from + 1)
    } else {
        from
    }
}

/// The value in what follows a keyword: blanks and one `=` before it and white
/// space around it are not part of it.
pub open spec fn value_in(rest: Seq<char>) -> Seq<char> {
    let v = rest.skip(past_blanks(rest, 0));
    if v.len() > 0 && v[0] == '=' {
        trimmed(v.skip(1))
    } else {
        trimmed(v)
    }
}

/// The keyword and value of a line; nothing for blanks and comments.
pub open spec fn directive(raw: Seq<char>) -> Option<(Seq<char>, Seq<char>)> {
    let line = trimmed(raw);
    if line.len() == 0 || line[0] == '#' {
        None
    } else {
        let k = key_end(line, 0);
        Some((line.take(k), value_in(line.skip(k))))
    }
}

/// A block that holds its header line only.
pub open spec fn header(i: int, patterns: Seq<Seq<char>>) -> HostBlockView {
    HostBlockView {
        patterns,
        start: i,
        end: i + 1,
        directives: Seq::empty(),
        shadowed_by: None,
    }
}

/// The blocks after line `i`, which holds `raw`, given those before it. `Match`
/// opens a block without patterns, so that its lines go to no host.
pub open spec fn scan_step(
    blocks: Seq<HostBlockView>,
    i: int,
    raw: Seq<char>,
) -> Seq<HostBlockView> {
    match directive(raw) {
        None => blocks,
        Some((key, value)) => if same_word(key, "host"@) {
            blocks.push(header(i, words(value)))
        } else if same_word(key, "match"@) {
            blocks.push(header(i, Seq::empty()))
        } else if blocks.len() > 0 {
            let b = blocks.last();
            blocks.drop_last().push(
                HostBlockView {
                    end: i + 1,
                    directives: b.directives.push(DirectiveView { line: i, key, value }),
                    ..b
                },
            )
        } else {
            blocks
        },
    }
}

/// Every block that the lines open, in order.
pub open spec fn scanned(lines: Seq<Seq<char>>) -> Seq<HostBlockView>
    decreases lines.len(),
{
    if lines.len() == 0 {
        Seq::empty()
    } else {
        scan_step(scanned(lines.drop_last()), lines.len() - 1, lines.last())
    }
}

/// The blocks that have a pattern.
pub open spec fn named(blocks: Seq<HostBlockView>) -> Seq<HostBlockView>
    decreases blocks.len(),
{
    if blocks.len() == 0 {
        Seq::empty()
    } else {
        let rest = named(blocks.drop_last());
        if blocks.last().patterns.len() > 0 {
            rest.push(blocks.last())
        } else {
            rest
        }
    }
}

/// `p` is a negated pattern.
pub open spec fn negated(p: Seq<char>) -> bool {
    p.len() > 0 && p[0] == '!'
}

/// Some pattern describes `name`, and no negated one does.
pub open spec fn patterns_match(patterns: Seq<Seq<char>>, name: Seq<char>) -> bool {
    &&& exists|i: int|
        0 <= i < patterns.len() && !negated(#[trigger] patterns[i]) && glob(patterns[i], name)
    &&& !exists|i: int|
        0 <= i < patterns.len() && negated(#[trigger] patterns[i]) && glob(
            patterns[i].skip(1),
            name,
        )
}

/// The name the user types for a block with these patterns.
pub open spec fn alias_in(patterns: Seq<Seq<char>>) -> Seq<char> {
    if patterns.len() == 0 {
        Seq::empty()
    } else {
        patterns[0]
    }
}

/// A block before the `i`-th one matches its name and sets `key`.
pub open spec fn covered(hosts: Seq<HostBlockView>, i: int, key: Seq<char>) -> bool {
    exists|j: int|
        0 <= j < i && patterns_match((#[trigger] hosts[j]).patterns, alias_in(hosts[i].patterns))
            && sets(hosts[j].directives, key)
}

/// One of the directives sets `key`.
pub open spec fn sets(directives: Seq<DirectiveView>, key: Seq<char>) -> bool {
    exists|m: int| 0 <= m < directives.len() && same_word((#[trigger] directives[m]).key, key)
}

/// The first block at or after `from`, and before the `i`-th, that matches the
/// name of the `i`-th.
pub open spec fn first_match(hosts: Seq<HostBlockView>, i: int, from: int) -> Option<int>
    decreases i - from,
{
    if from >= i {
        None
    } else if patterns_match(hosts[from].patterns, alias_in(hosts[i].patterns)) {
        Some(from)
    } else {
        first_match(hosts, i, from + 1)
    }
}

/// Each keyword that `ds` set is set by `by`.
pub open spec fn sets_all(by: Seq<DirectiveView>, ds: Seq<DirectiveView>) -> bool {
    forall|m: int| 0 <= m < ds.len() ==> sets(by, (#[trigger] ds[m]).key)
}

/// The first block at or after `from`, and before the `i`-th, that matches the
/// name of the `i`-th and sets all that it sets.
pub open spec fn first_cover(hosts: Seq<HostBlockView>, i: int, from: int) -> Option<int>
    decreases i - from,
{
    if from >= i {
        None
    } else if patterns_match(hosts[from].patterns, alias_in(hosts[i].patterns)) && sets_all(
        hosts[from].directives,
        hosts[i].directives,
    ) {
        Some(from)
    } else {
        first_cover(hosts, i, from + 1)
    }
}

/// The block that makes the `i`-th one dead, where the earlier ones with its
/// name set all that it sets: the first that does so by itself, or else the
/// first with its name.
pub open spec fn shadow(hosts: Seq<HostBlockView>, i: int) -> Option<int> {
    let ds = hosts[i].directives;
    if ds.len() > 0 && forall|m: int|
        0 <= m < ds.len() ==> covered(hosts, i, (#[trigger] ds[m]).key) {
        match first_cover(hosts, i, 0) {
            Some(j) => Some(j),
            None => first_match(hosts, i, 0),
        }
    } else {
        None
    }
}

/// The blocks with the dead ones marked.
pub open spec fn marked(hosts: Seq<HostBlockView>) -> Seq<HostBlockView> {
    Seq::new(hosts.len(), |i: int| HostBlockView { shadowed_by: shadow(hosts, i), ..hosts[i] })
}

/// The host blocks that a file's lines define.
pub open spec fn hosts_in(lines: Seq<Seq<char>>) -> Seq<HostBlockView> {
    marked(named(scanned(lines)))
}

/// The lines of a file as its text.
pub open spec fn text_of(lines: Seq<Seq<char>>) -> Seq<char> {
    joined(lines, seq!['\n'])
}

/// The directive that counts for a keyword: the first one, whatever the case of
/// its key.
pub open spec fn lookup(ds: Seq<DirectiveView>, key: Seq<char>, from: int) -> Option<DirectiveView>
    decreases ds.len() - from,
{
    if from >= ds.len() {
        None
    } else if same_word(ds[from].key, key) {
        Some(ds[from])
    } else {
        lookup(ds, key, from + 1)
    }
}

/// An option of `ssh` that takes the next word with it.
pub open spec fn takes_word(token: Seq<char>) -> bool {
    token.len() == 2 && (token[1] == 'W' || token[1] == 'o' || token[1] == 'p' || token[1] == 'i'
        || token[1] == 'l' || token[1] == 'F')
}

/// The first word at or after `from` that is neither an option nor the word
/// that an option takes.
pub open spec fn operand(tokens: Seq<Seq<char>>, from: int) -> Option<int>
    decreases tokens.len() - from + 1,
{
    if from >= tokens.len() {
        None
    } else if tokens[from].len() > 0 && tokens[from][0] == '-' {
        operand(
            tokens,
            if takes_word(tokens[from]) {
                from + 2
            } else {
                from + 1
            },
        )
    } else {
        Some(from)
    }
}

/// Which word of a `ProxyCommand ... -W %h:%p` names the jump host. The first
/// word is the ssh binary.
pub open spec fn command_gateway(value: Seq<char>) -> Option<int> {
    if words(value).contains("-W"@) {
        operand(words(value), 1)
    } else {
        None
    }
}

/// The first jump host of a block, from `ProxyJump` or else `ProxyCommand`.
pub open spec fn gateway_in(ds: Seq<DirectiveView>) -> Option<Seq<char>> {
    match lookup(ds, "ProxyJump"@, 0) {
        Some(d) => {
            let first = trimmed(split_on(d.value, ',')[0]);
            if first.len() == 0 {
                None
            } else {
                Some(first)
            }
        },
        None => match lookup(ds, "ProxyCommand"@, 0) {
            Some(d) => match command_gateway(d.value) {
                Some(i) => Some(words(d.value)[i]),
                None => None,
            },
            None => None,
        },
    }
}

/// The blocks lie inside the file, in order and apart, and the directives of
/// each inside it, below its header and in order.
pub open spec fn laid_out(hosts: Seq<HostBlockView>, n: int) -> bool {
    &&& forall|i: int| 0 <= i < hosts.len() ==> block_inside(#[trigger] hosts[i], n)
    &&& forall|i: int, j: int|
        0 <= i < j < hosts.len() ==> (#[trigger] hosts[i]).end <= (#[trigger] hosts[j]).start
}

/// The block lies inside a file of `n` lines and its directives inside it.
pub open spec fn block_inside(b: HostBlockView, n: int) -> bool {
    &&& 0 <= b.start < b.end <= n
    &&& forall|m: int|
        0 <= m < b.directives.len() ==> b.start < (#[trigger] b.directives[m]).line < b.end
    &&& forall|m: int, k: int|
        0 <= m < k < b.directives.len() ==> (#[trigger] b.directives[m]).line < (
        #[trigger] b.directives[k]).line
}

impl SshConfigView {
    /// The blocks lie in the lines as blocks of a file do.
    pub open spec fn wf(self) -> bool {
        laid_out(self.hosts, self.lines.len() as int)
    }
}

/// The length of the keyword that `s` begins with.
pub(crate) fn key_len(s: &[char]) -> (r: usize)
    ensures
        r == key_end(s@, 0),
        r <= s@.len(),
{
    let mut i: usize = 0;
    while i < s.len() && s[i] != ' ' && s[i] != '\t' && s[i] != '='
        invariant
            i <= s@.len(),
            key_end(s@, 0) == key_end(s@, i as int),
        decreases s@.len() - i,
    {
        i += 1;
    }
    i
}

/// Split `Key Value` or `Key=Value`, returning `None` for blanks and comments.
pub(crate) fn split_directive<'a>(raw: &'a str) -> (r: Option<(&'a str, &'a str)>)
    ensures
        (match r {
            Some((k, v)) => Some((k@, v@)),
            None => None,
        }) == directive(raw@),
{
    let line: &str = trim(raw);
    let cs: Vec<char> = chars(line);
    let n: usize = cs.len();
    if n == 0 || cs[0] == '#' {
        return None;
    }
    let k: usize = key_len(cs.as_slice());
    let key: &str = line.substring_char(0, k);
    let ghost rest = line@.skip(k as int);
    let mut i: usize = k;
    while i < n && (cs[i] == ' ' || cs[i] == '\t')
        invariant
            n == cs@.len(),
            cs@ == line@,
            k <= i <= n,
            rest == line@.skip(k as int),
            past_blanks(rest, 0) == past_blanks(rest, i - k),
        decreases n - i,
    {
        assert(rest[i - k] == cs@[i as int]);
        i += 1;
    }
    proof {
        if i < n {
            assert(rest[i - k] == cs@[i as int]);
        }
        assert(past_blanks(rest, 0) == i - k);
        assert(line@.subrange(0, k as int) =~= line@.take(k as int));
        assert(rest.skip(i - k) =~= line@.skip(i as int));
        if i < n {
            assert(rest.skip(i - k)[0] == cs@[i as int]);
        }
    }
    let from: usize = if i < n && cs[i] == '=' {
        i + 1
    } else {
        i
    };
    assert(line@.subrange(from as int, n as int) =~= (if from == i {
        rest.skip(i - k)
    } else {
        rest.skip(i - k).skip(1)
    }));
    Some((key, trim(line.substring_char(from, n))))
}

/// Whether some pattern describes `name` and no negated one does.
pub(crate) fn block_matches(patterns: &[String], name: &str) -> (r: bool)
    ensures
        r == patterns_match(views(patterns@), name@),
{
    let mut matched: bool = false;
    let mut i: usize = 0;
    let ghost ps = views(patterns@);
    while i < patterns.len()
        invariant
            ps == views(patterns@),
            i <= patterns@.len(),
            matched <==> exists|k: int|
                0 <= k < i && !negated(#[trigger] ps[k]) && glob(ps[k], name@),
            forall|k: int| 0 <= k < i ==> !(negated(#[trigger] ps[k]) && glob(ps[k].skip(1), name@)),
        decreases patterns@.len() - i,
    {
        let p: &str = patterns[i].as_str();
        let n: usize = p.unicode_len();
        assert(ps[i as int] == p@);
        if n > 0 && p.get_char(0) == '!' {
            assert(p@.subrange(1, n as int) =~= p@.skip(1));
            if glob_match(p.substring_char(1, n), name) {
                return false;
            }
        } else if glob_match(p, name) {
            matched = true;
        }
        i += 1;
    }
    matched
}

/// Which earlier block, if any, makes the `i`-th one dead.
fn find_shadow(hosts: &[HostBlock], i: usize) -> (r: Option<usize>)
    requires
        i < hosts@.len(),
    ensures
        (match r {
            Some(j) => Some(j as int),
            None => None,
        }) == shadow(views(hosts@), i as int),
{
    let ghost hs = views(hosts@);
    let ghost name = alias_in(hs[i as int].patterns);
    let ghost ds = hs[i as int].directives;
    assert(hs[i as int] == hosts@[i as int]@);
    if hosts[i].directives.len() == 0 {
        return None;
    }
    let alias: &str = hosts[i].alias();
    let mut matching: Vec<usize> = Vec::new();
    let mut j: usize = 0;
    while j < i
        invariant
            i < hosts@.len(),
            hs == views(hosts@),
            name == alias_in(hs[i as int].patterns),
            alias@ == name,
            j <= i,
            forall|k: int|
                0 <= k < matching@.len() ==> (#[trigger] matching@[k]) < j && patterns_match(
                    hs[matching@[k] as int].patterns,
                    name,
                ),
            forall|q: int|
                0 <= q < j && patterns_match((#[trigger] hs[q]).patterns, name) ==> exists|k: int|
                    0 <= k < matching@.len() && #[trigger] matching@[k] == q,
            matching@.len() == 0 ==> first_match(hs, i as int, 0) == first_match(
                hs,
                i as int,
                j as int,
            ),
            matching@.len() > 0 ==> first_match(hs, i as int, 0) == Some(matching@[0] as int),
        decreases i - j,
    {
        let ghost before = matching@;
        assert(hs[j as int] == hosts@[j as int]@);
        if block_matches(hosts[j].patterns.as_slice(), alias) {
            matching.push(j);
            assert forall|q: int|
                0 <= q < j + 1 && patterns_match(
                    (#[trigger] hs[q]).patterns,
                    name,
                ) implies exists|k: int| 0 <= k < matching@.len() && #[trigger] matching@[k] == q by {
                if q < j {
                    let k = choose|k: int| 0 <= k < before.len() && #[trigger] before[k] == q;
                    assert(matching@[k] == q);
                } else {
                    assert(matching@[before.len() as int] == q);
                }
            }
        }
        j += 1;
    }
    let mut m: usize = 0;
    while m < hosts[i].directives.len()
        invariant
            i < hosts@.len(),
            hs == views(hosts@),
            name == alias_in(hs[i as int].patterns),
            ds == views(hosts@[i as int].directives@),
            hs[i as int].directives == ds,
            m <= ds.len(),
            forall|k: int|
                0 <= k < matching@.len() ==> (#[trigger] matching@[k]) < i && patterns_match(
                    hs[matching@[k] as int].patterns,
                    name,
                ),
            forall|q: int|
                0 <= q < i && patterns_match((#[trigger] hs[q]).patterns, name) ==> exists|k: int|
                    0 <= k < matching@.len() && #[trigger] matching@[k] == q,
            forall|x: int| 0 <= x < m ==> covered(hs, i as int, (#[trigger] ds[x]).key),
        decreases ds.len() - m,
    {
        let key: &str = hosts[i].directives[m].key.as_str();
        assert(ds[m as int].key == key@);
        let mut hit: bool = false;
        let mut k: usize = 0;
        while k < matching.len() && !hit
            invariant
                i < hosts@.len(),
                hs == views(hosts@),
                name == alias_in(hs[i as int].patterns),
                k <= matching@.len(),
                forall|k: int|
                    0 <= k < matching@.len() ==> (#[trigger] matching@[k]) < i && patterns_match(
                        hs[matching@[k] as int].patterns,
                        name,
                    ),
                hit ==> covered(hs, i as int, key@),
                !hit ==> forall|x: int|
                    0 <= x < k ==> !sets(hs[(#[trigger] matching@[x]) as int].directives, key@),
            decreases matching@.len() - k,
        {
            let at: usize = matching[k];
            assert(hs[at as int] == hosts@[at as int]@);
            if hosts[at].get(key).is_some() {
                proof {
                    lemma_lookup(hs[at as int].directives, key@, 0);
                }
                hit = true;
            } else {
                proof {
                    lemma_lookup(hs[at as int].directives, key@, 0);
                }
            }
            k += 1;
        }
        if !hit {
            proof {
                if covered(hs, i as int, key@) {
                    let q = choose|q: int|
                        0 <= q < i && patterns_match((#[trigger] hs[q]).patterns, name) && sets(
                            hs[q].directives,
                            key@,
                        );
                    let x = choose|x: int|
                        0 <= x < matching@.len() && #[trigger] matching@[x] == q;
                    assert(!sets(hs[matching@[x] as int].directives, key@));
                }
                assert(!covered(hs, i as int, ds[m as int].key));
            }
            return None;
        }
        m += 1;
    }
    let mut j: usize = 0;
    while j < i
        invariant
            i < hosts@.len(),
            hs == views(hosts@),
            name == alias_in(hs[i as int].patterns),
            alias@ == name,
            j <= i,
            first_cover(hs, i as int, 0) == first_cover(hs, i as int, j as int),
            ds == hs[i as int].directives,
            ds.len() > 0,
            forall|x: int| 0 <= x < ds.len() ==> covered(hs, i as int, (#[trigger] ds[x]).key),
        decreases i - j,
    {
        assert(hs[j as int] == hosts@[j as int]@);
        if block_matches(hosts[j].patterns.as_slice(), alias) && sets_every(&hosts[j], &hosts[i]) {
            return Some(j);
        }
        j += 1;
    }
    if matching.len() == 0 {
        None
    } else {
        Some(matching[0])
    }
}

/// Whether `by` sets each keyword that `block` sets.
fn sets_every(by: &HostBlock, block: &HostBlock) -> (r: bool)
    ensures
        r == sets_all(by@.directives, block@.directives),
{
    let ghost ds = block@.directives;
    let mut m: usize = 0;
    while m < block.directives.len()
        invariant
            ds == block@.directives,
            m <= block.directives@.len(),
            forall|x: int| 0 <= x < m ==> sets(by@.directives, (#[trigger] ds[x]).key),
        decreases block.directives@.len() - m,
    {
        let key: &str = block.directives[m].key.as_str();
        proof {
            assert(ds[m as int].key == key@);
            lemma_lookup(by@.directives, key@, 0);
        }
        if by.get(key).is_none() {
            assert(!sets(by@.directives, ds[m as int].key));
            return false;
        }
        m += 1;
    }
    true
}

/// A keyword is found exactly if a directive sets it.
pub proof fn lemma_lookup(ds: Seq<DirectiveView>, key: Seq<char>, from: int)
    requires
        0 <= from <= ds.len(),
    ensures
        lookup(ds, key, from) is Some <==> exists|m: int|
            from <= m < ds.len() && same_word((#[trigger] ds[m]).key, key),
        lookup(ds, key, from) is Some ==> exists|m: int|
            from <= m < ds.len() && lookup(ds, key, from) == Some(#[trigger] ds[m]) && same_word(
                ds[m].key,
                key,
            ),
    decreases ds.len() - from,
{
    if from < ds.len() {
        lemma_lookup(ds, key, from + 1);
        if same_word(ds[from].key, key) {
            assert(lookup(ds, key, from) == Some(ds[from]));
        } else if lookup(ds, key, from + 1) is Some {
            let m = choose|m: int|
                from + 1 <= m < ds.len() && lookup(ds, key, from + 1) == Some(#[trigger] ds[m])
                    && same_word(ds[m].key, key);
            assert(lookup(ds, key, from) == Some(ds[m]));
        }
    }
}

impl Directive {
    /// A directive that says the same.
    pub fn duplicate(&self) -> (r: Directive)
        ensures
            r@ == self@,
    {
        Directive { line: self.line, key: self.key.clone(), value: self.value.clone() }
    }
}

impl HostBlock {
    /// The name the user types after `ssh`.
    pub fn alias(&self) -> (r: &str)
        ensures
            r@ == alias_in(self@.patterns),
    {
        if self.patterns.len() == 0 {
            proof {
                reveal_strlit("");
                assert(""@ =~= Seq::<char>::empty());
            }
            ""
        } else {
            self.patterns[0].as_str()
        }
    }

    /// The directive that counts for `key`.
    pub fn get(&self, key: &str) -> (r: Option<&Directive>)
        ensures
            view_of(r) == lookup(self@.directives, key@, 0),
    {
        let mut i: usize = 0;
        while i < self.directives.len()
            invariant
                i <= self.directives@.len(),
                lookup(self@.directives, key@, 0) == lookup(self@.directives, key@, i as int),
            decreases self.directives@.len() - i,
        {
            assert(self@.directives[i as int] == self.directives@[i as int]@);
            if same_ignoring_case(self.directives[i].key.as_str(), key) {
                return Some(&self.directives[i]);
            }
            i += 1;
        }
        None
    }

    /// The first jump host, from either `ProxyJump` or a legacy `ProxyCommand`.
    pub fn gateway(&self) -> (r: Option<String>)
        ensures
            view_of(r) == gateway_in(self@.directives),
    {
        match self.get("ProxyJump") {
            Some(d) => {
                let pieces: Vec<String> = split(d.value.as_str(), ',');
                assert(views(pieces@)[0] == pieces@[0]@);
                let first: &str = trim(pieces[0].as_str());
                if first.is_empty() {
                    None
                } else {
                    Some(first.to_owned())
                }
            },
            None => match self.get("ProxyCommand") {
                Some(d) => proxy_command_gateway(d.value.as_str()),
                None => None,
            },
        }
    }
}

/// Which word of a command is the jump host.
fn gateway_word(tokens: &[String]) -> (r: Option<usize>)
    ensures
        r is Some <==> views(tokens@).contains("-W"@) && operand(views(tokens@), 1) is Some,
        r matches Some(i) ==> Some(i as int) == operand(views(tokens@), 1) && i < tokens@.len(),
{
    let ghost ts = views(tokens@);
    let mut found: bool = false;
    let mut k: usize = 0;
    while k < tokens.len()
        invariant
            ts == views(tokens@),
            k <= tokens@.len(),
            found <==> exists|m: int| 0 <= m < k && #[trigger] ts[m] == "-W"@,
        decreases tokens@.len() - k,
    {
        assert(ts[k as int] == tokens@[k as int]@);
        if same(tokens[k].as_str(), "-W") {
            found = true;
        }
        k += 1;
    }
    if !found {
        return None;
    }
    let mut i: usize = 1;
    while i < tokens.len()
        invariant
            ts == views(tokens@),
            ts.contains("-W"@),
            1 <= i,
            operand(ts, 1) == operand(ts, i as int),
        decreases tokens@.len() - i,
    {
        let token: &str = tokens[i].as_str();
        assert(ts[i as int] == token@);
        let n: usize = token.unicode_len();
        if n > 0 && token.get_char(0) == '-' {
            let takes: bool = n == 2 && {
                let c: char = token.get_char(1);
                c == 'W' || c == 'o' || c == 'p' || c == 'i' || c == 'l' || c == 'F'
            };
            if takes && i + 1 == tokens.len() {
                assert(operand(ts, i as int) == operand(ts, i + 2));
                return None;
            }
            i = if takes {
                i + 2
            } else {
                i + 1
            };
        } else {
            return Some(i);
        }
    }
    None
}

/// Pull the jump host out of a `ProxyCommand ... -W %h:%p` value. Configs
/// written before `ProxyJump` existed express gateways this way; without this
/// the gateway of such a host reads as unset and its jump chain becomes
/// invisible.
pub(crate) fn proxy_command_gateway(value: &str) -> (r: Option<String>)
    ensures
        view_of(r) == (match command_gateway(value@) {
            Some(i) => Some(words(value@)[i]),
            None => None,
        }),
{
    let tokens: Vec<String> = split_words(value);
    match gateway_word(tokens.as_slice()) {
        Some(i) => {
            assert(words(value@)[i as int] == tokens@[i as int]@);
            Some(tokens[i].clone())
        },
        None => None,
    }
}

/// Where the jump host lies in a `ProxyCommand` value, as the positions of its
/// first character and of the one behind its last.
pub fn proxy_command_gateway_span(value: &str) -> (r: Option<(usize, usize)>)
    ensures
        r is Some <==> command_gateway(value@) is Some,
        r matches Some((a, b)) ==> (a as int, b as int) == word_spans(
            value@,
        )[command_gateway(value@)->0] && a < b <= value@.len(),
{
    let tokens: Vec<String> = split_words(value);
    let cs: Vec<char> = chars(value);
    let at: Vec<(usize, usize)> = spans(cs.as_slice());
    assert(tokens@.len() == words(value@).len());
    match gateway_word(tokens.as_slice()) {
        Some(i) => {
            let span: (usize, usize) = at[i];
            Some((span.0, span.1))
        },
        None => None,
    }
}

/// Mark the blocks that can have no effect.
fn mark_shadowed(hosts: Vec<HostBlock>) -> (r: Vec<HostBlock>)
    requires
        forall|i: int| 0 <= i < hosts@.len() ==> (#[trigger] hosts@[i]).shadowed_by is None,
    ensures
        views(r@) == marked(views(hosts@)),
{
    let ghost hs = views(hosts@);
    let mut marks: Vec<Option<usize>> = Vec::new();
    let mut i: usize = 0;
    while i < hosts.len()
        invariant
            hs == views(hosts@),
            i <= hosts@.len(),
            marks@.len() == i,
            forall|k: int|
                0 <= k < i ==> (match #[trigger] marks@[k] {
                    Some(j) => Some(j as int),
                    None => None,
                }) == shadow(hs, k),
        decreases hosts@.len() - i,
    {
        let mark: Option<usize> = find_shadow(hosts.as_slice(), i);
        marks.push(mark);
        i += 1;
    }
    let mut out: Vec<HostBlock> = hosts;
    let ghost was = out@;
    let mut k: usize = 0;
    while k < out.len()
        invariant
            hs == views(was),
            was.len() == out@.len(),
            marks@.len() == was.len(),
            k <= out@.len(),
            forall|x: int|
                0 <= x < marks@.len() ==> (match #[trigger] marks@[x] {
                    Some(j) => Some(j as int),
                    None => None,
                }) == shadow(hs, x),
            forall|x: int| 0 <= x < k ==> (#[trigger] out@[x])@ == marked(hs)[x],
            forall|x: int| k <= x < out@.len() ==> #[trigger] out@[x] == was[x],
        decreases out@.len() - k,
    {
        assert(out@[k as int] == was[k as int]);
        assert(hs[k as int] == was[k as int]@);
        out[k].shadowed_by = marks[k];
        assert(out@[k as int]@ =~= marked(hs)[k as int]);
        k += 1;
    }
    assert(views(out@) =~= marked(hs));
    out
}

impl SshConfig {
    /// Read the host blocks out of a file's text.
    pub fn parse(path: &str, text: &str) -> (r: SshConfig)
        ensures
            r@ == (SshConfigView {
                path: path@,
                lines: split_on(text@, '\n'),
                hosts: hosts_in(split_on(text@, '\n')),
                read_only: false,
            }),
            r@.wf(),
    {
        let lines: Vec<String> = split(text, '\n');
        let ghost ls = views(lines@);
        let mut blocks: Vec<HostBlock> = Vec::new();
        let mut i: usize = 0;
        assert(views(blocks@) =~= scanned(ls.take(0)));
        while i < lines.len()
            invariant
                ls == views(lines@),
                i <= lines@.len(),
                views(blocks@) == scanned(ls.take(i as int)),
                forall|k: int|
                    0 <= k < blocks@.len() ==> (#[trigger] blocks@[k]).shadowed_by is None,
            decreases lines@.len() - i,
        {
            let ghost before = blocks@;
            let ghost prior = scanned(ls.take(i as int));
            proof {
                assert(ls.take(i + 1).drop_last() =~= ls.take(i as int));
                assert(ls.take(i + 1).last() == lines@[i as int]@);
            }
            match split_directive(lines[i].as_str()) {
                None => {},
                Some((key, value)) => {
                    if same_ignoring_case(key, "host") {
                        blocks.push(open_block(i, split_words(value)));
                        proof {
                            lemma_views_push(before, blocks@.last());
                        }
                    } else if same_ignoring_case(key, "match") {
                        // Conditional blocks are not modelled. Ending the current
                        // block here keeps its directives from swallowing the
                        // conditional block's lines.
                        let none: Vec<String> = Vec::new();
                        assert(views(none@) =~= Seq::<Seq<char>>::empty());
                        blocks.push(open_block(i, none));
                        proof {
                            lemma_views_push(before, blocks@.last());
                        }
                    } else {
                        match blocks.pop() {
                            None => {},
                            Some(last) => {
                                let mut block: HostBlock = last;
                                let ghost b = block@;
                                let ghost held = block.directives@;
                                block.directives.push(
                                    Directive { line: i, key: key.to_owned(), value: value.to_owned() },
                                );
                                block.end = i + 1;
                                proof {
                                    assert(views(before).last() == b);
                                    assert(views(blocks@) =~= prior.drop_last());
                                    lemma_views_push(held, block.directives@.last());
                                    lemma_views_push(blocks@, block);
                                }
                                blocks.push(block);
                            },
                        }
                    }
                },
            }
            i += 1;
        }
        assert(ls.take(i as int) =~= ls);
        // A conditional block is only a fence; drop it so callers never see a
        // patternless entry in the host list.
        let mut hosts: Vec<HostBlock> = Vec::new();
        let ghost kept = blocks@;
        let ghost all = views(kept);
        assert(views(hosts@) =~= named(all.take(0)));
        for b in it: blocks.into_iter()
            invariant
                all == views(kept),
                it.seq() == kept,
                views(hosts@) == named(all.take(it.index() as int)),
                forall|k: int| 0 <= k < kept.len() ==> (#[trigger] kept[k]).shadowed_by is None,
                forall|k: int| 0 <= k < hosts@.len() ==> (#[trigger] hosts@[k]).shadowed_by is None,
        {
            proof {
                let k = it.index() as int;
                assert(all[k] == b@);
                assert(all.take(k + 1).drop_last() =~= all.take(k));
                lemma_views_push(hosts@, b);
            }
            if b.patterns.len() > 0 {
                hosts.push(b);
            }
        }
        assert(all.take(all.len() as int) =~= all);
        let hosts: Vec<HostBlock> = mark_shadowed(hosts);
        let r: SshConfig = SshConfig { path: path.to_owned(), lines, hosts, read_only: false };
        proof {
            law_blocks_apart(ls);
        }
        r
    }

    /// The file's text.
    pub fn to_text(&self) -> (r: String)
        ensures
            r@ == text_of(self@.lines),
    {
        proof {
            reveal_strlit("\n");
            assert("\n"@ =~= seq!['\n']);
        }
        join(self.lines.as_slice(), "\n")
    }
}

fn open_block(start: usize, patterns: Vec<String>) -> (r: HostBlock)
    requires
        start < usize::MAX,
    ensures
        r@ == header(start as int, views(patterns@)),
        r.shadowed_by is None,
{
    let r: HostBlock = HostBlock {
        patterns,
        start,
        end: start + 1,
        directives: Vec::new(),
        shadowed_by: None,
    };
    assert(r@.directives =~= Seq::<DirectiveView>::empty());
    r
}

pub proof fn lemma_scanned(lines: Seq<Seq<char>>)
    ensures
        laid_out(scanned(lines), lines.len() as int),
        forall|i: int|
            0 <= i < scanned(lines).len() ==> words_only((#[trigger] scanned(lines)[i]).patterns),
    decreases lines.len(),
{
    if lines.len() > 0 {
        lemma_scanned(lines.drop_last());
        let before = scanned(lines.drop_last());
        let i = lines.len() - 1;
        let after = scanned(lines);
        match directive(lines.last()) {
            None => {},
            Some((key, value)) => {
                if same_word(key, "host"@) || same_word(key, "match"@) {
                    lemma_word_spans(value);
                    assert forall|x: int| 0 <= x < after.len() implies words_only(
                        (#[trigger] after[x]).patterns,
                    ) by {
                        if x < before.len() {
                            assert(after[x] == before[x]);
                        } else {
                            assert forall|k: int| 0 <= k < after[x].patterns.len() implies (
                            #[trigger] after[x].patterns[k]).len() > 0 by {
                                let w = word_spans(value)[k];
                            }
                        }
                    }
                } else if before.len() > 0 {
                    let b = before.last();
                    assert(block_inside(b, i));
                    let c = after.last();
                    assert(c.directives == b.directives.push(DirectiveView { line: i, key, value }));
                    assert(block_inside(c, i + 1));
                    assert forall|x: int| 0 <= x < after.len() implies words_only(
                        (#[trigger] after[x]).patterns,
                    ) by {
                        assert(after[x].patterns == before[x].patterns);
                    }
                    assert forall|x: int| 0 <= x < after.len() implies block_inside(
                        #[trigger] after[x],
                        i + 1,
                    ) by {
                        if x < after.len() - 1 {
                            assert(after[x] == before[x]);
                        }
                    }
                    assert forall|x: int, y: int| 0 <= x < y < after.len() implies (
                    #[trigger] after[x]).end <= (#[trigger] after[y]).start by {
                        assert(after[x] == before[x]);
                        assert(after[y].start == before[y].start);
                    }
                }
            },
        }
    }
}

proof fn lemma_named(blocks: Seq<HostBlockView>, n: int)
    requires
        laid_out(blocks, n),
        forall|i: int| 0 <= i < blocks.len() ==> words_only((#[trigger] blocks[i]).patterns),
    ensures
        laid_out(named(blocks), n),
        forall|i: int|
            0 <= i < named(blocks).len() ==> (#[trigger] named(blocks)[i]).patterns.len() > 0
                && words_only(named(blocks)[i].patterns),
        named(blocks).len() > 0 ==> blocks.len() > 0 && named(blocks).last().end
            <= blocks.last().end,
    decreases blocks.len(),
{
    if blocks.len() > 0 {
        let init = blocks.drop_last();
        assert forall|i: int| 0 <= i < init.len() implies words_only(
            (#[trigger] init[i]).patterns,
        ) by {
            assert(init[i] == blocks[i]);
        }
        lemma_named(init, n);
        assert(words_only(blocks[blocks.len() - 1].patterns));
        let before = named(init);
        let after = named(blocks);
        assert(block_inside(blocks[blocks.len() - 1], n));
        if init.len() > 0 {
            assert(init.last() == blocks[blocks.len() - 2]);
            assert(blocks[blocks.len() - 2].end <= blocks[blocks.len() - 1].start);
        }
        if blocks.last().patterns.len() > 0 {
            assert forall|x: int, y: int| 0 <= x < y < after.len() implies (#[trigger] after[x]).end
                <= (#[trigger] after[y]).start by {
                if y < before.len() {
                    assert(before[x].end <= before[y].start);
                } else {
                    assert(before.last().end <= init.last().end);
                    if x < before.len() - 1 {
                        assert(before[x].end <= before[before.len() - 1].start);
                        assert(block_inside(before[before.len() - 1], n));
                    }
                }
            }
        }
    }
}

/// No block is malformed or overlaps another: the blocks of a file lie in it in
/// order and apart, and each goes by a name.
pub proof fn law_blocks_apart(lines: Seq<Seq<char>>)
    ensures
        laid_out(hosts_in(lines), lines.len() as int),
        forall|i: int|
            0 <= i < hosts_in(lines).len() ==> alias_in(
                (#[trigger] hosts_in(lines)[i]).patterns,
            ).len() > 0,
{
    lemma_scanned(lines);
    lemma_named(scanned(lines), lines.len() as int);
    let hs = named(scanned(lines));
    let ms = hosts_in(lines);
    assert forall|i: int| 0 <= i < ms.len() implies block_inside(
        #[trigger] ms[i],
        lines.len() as int,
    ) by {
        assert(block_inside(hs[i], lines.len() as int));
    }
    assert forall|i: int, j: int| 0 <= i < j < ms.len() implies (#[trigger] ms[i]).end <= (
    #[trigger] ms[j]).start by {
        assert(hs[i].end <= hs[j].start);
    }
    assert forall|i: int| 0 <= i < ms.len() implies alias_in((#[trigger] ms[i]).patterns).len()
        > 0 by {
        assert(hs[i].patterns.len() > 0);
        assert(words_only(hs[i].patterns));
    }
}

/// None of the texts is empty.
pub open spec fn words_only(s: Seq<Seq<char>>) -> bool {
    forall|k: int| 0 <= k < s.len() ==> (#[trigger] s[k]).len() > 0
}

/// What the file system says of a configuration file.
#[derive(Debug, Clone)]
pub enum FileFacts {
    /// There is none, or nothing can be learned of it.
    Missing,
    /// It is a symbolic link, to `target` if that can be read.
    Link { target: Option<String> },
    /// It is a file of its own.
    File { readonly: bool },
}

/// The names in a path, without the empty ones and `.`.
pub open spec fn names_in(path: Seq<char>) -> Seq<Seq<char>> {
    real_names(split_on(path, '/'))
}

/// The pieces that are neither empty nor `.`.
pub open spec fn real_names(pieces: Seq<Seq<char>>) -> Seq<Seq<char>>
    decreases pieces.len(),
{
    if pieces.len() == 0 {
        Seq::empty()
    } else {
        let before = real_names(pieces.drop_last());
        if pieces.last().len() == 0 || pieces.last() == "."@ {
            before
        } else {
            before.push(pieces.last())
        }
    }
}

/// The path leads into `/nix/store`.
pub open spec fn in_store(path: Seq<char>) -> bool {
    &&& path.len() > 0 && path[0] == '/'
    &&& names_in(path).len() >= 2
    &&& names_in(path)[0] == "nix"@
    &&& names_in(path)[1] == "store"@
}

/// The file must not be written.
pub open spec fn unwritable(facts: FileFacts) -> bool {
    match facts {
        FileFacts::Missing => false,
        FileFacts::Link { target } => target is Some && in_store(target->0@),
        FileFacts::File { readonly } => readonly,
    }
}

/// Whether the path leads into `/nix/store`.
fn leads_into_store(path: &str) -> (r: bool)
    ensures
        r == in_store(path@),
{
    let pieces: Vec<String> = split(path, '/');
    let ghost all = views(pieces@);
    let mut names: Vec<String> = Vec::new();
    let mut i: usize = 0;
    assert(views(names@) =~= real_names(all.take(0)));
    while i < pieces.len()
        invariant
            all == views(pieces@),
            i <= pieces@.len(),
            views(names@) == real_names(all.take(i as int)),
        decreases pieces@.len() - i,
    {
        let ghost before = names@;
        proof {
            assert(all.take(i + 1).drop_last() =~= all.take(i as int));
            assert(all.take(i + 1).last() == pieces@[i as int]@);
        }
        if !pieces[i].as_str().is_empty() && !same(pieces[i].as_str(), ".") {
            names.push(pieces[i].clone());
            proof {
                lemma_views_push(before, names@.last());
            }
        }
        i += 1;
    }
    assert(all.take(i as int) =~= all);
    let n: usize = path.unicode_len();
    if n > 0 && path.get_char(0) == '/' && names.len() >= 2 {
        assert(views(names@)[0] == names@[0]@ && views(names@)[1] == names@[1]@);
        same(names[0].as_str(), "nix") && same(names[1].as_str(), "store")
    } else {
        false
    }
}

/// Whether a file must not be written: it is a symlink into the nix store, or
/// there is no write permission.
pub fn detect_read_only(facts: &FileFacts) -> (r: bool)
    ensures
        r == unwritable(*facts),
{
    match facts {
        FileFacts::Missing => false,
        FileFacts::Link { target } => match target {
            Some(t) => leads_into_store(t.as_str()),
            None => false,
        },
        FileFacts::File { readonly } => *readonly,
    }
}

/// `name` inside the directory `dir`.
pub open spec fn path_in(dir: Seq<char>, name: Seq<char>) -> Seq<char> {
    if dir.len() == 0 || dir.last() == '/' {
        dir + name
    } else {
        dir.push('/') + name
    }
}

/// `name` inside the directory `dir`.
pub fn path_under(dir: &str, name: &str) -> (r: String)
    ensures
        r@ == path_in(dir@, name@),
{
    let mut out: String = dir.to_owned();
    let n: usize = dir.unicode_len();
    if n > 0 && dir.get_char(n - 1) != '/' {
        out.push('/');
    }
    out.append(name);
    out
}

/// Calls `dirs::home_dir`. The home directory is what the environment and the
/// user database say it is, so nothing is claimed of it. A path that is no text
/// counts as none.
#[verifier::external_body]
pub(crate) fn home_dir() -> (r: Option<String>) {
    dirs::home_dir().and_then(|home| home.into_os_string().into_string().ok())
}

/// The configuration file below a home directory.
pub open spec fn config_path(home: Seq<char>) -> Seq<char> {
    path_in(path_in(home, ".ssh"@), "config"@)
}

impl SshConfig {
    /// The configuration file below `home`, if there is a home directory.
    pub fn path_below(home: Option<String>) -> (r: Option<String>)
        ensures
            match home {
                Some(dir) => r is Some && r->0@ == config_path(dir@),
                None => r is None,
            },
    {
        match home {
            Some(dir) => Some(
                path_under(path_under(dir.as_str(), ".ssh").as_str(), "config"),
            ),
            None => None,
        }
    }

    /// The configuration file of the user: what [`SshConfig::path_below`] gives
    /// for the home directory that is found. Whether there is one, and which, is
    /// left to the environment.
    pub fn default_path() -> (r: Option<String>)
        ensures
            r is Some ==> exists|home: Seq<char>| r->0@ == #[trigger] config_path(home),
    {
        SshConfig::path_below(home_dir())
    }

    /// The configuration in a file that holds `text`. A missing file is an empty
    /// config, not an error -- a machine that has never had one is a legitimate
    /// starting state.
    pub fn load_from(path: &str, text: Option<&str>, facts: &FileFacts) -> (r: SshConfig)
        ensures
            ({
                let all = if text is Some {
                    text->0@
                } else {
                    Seq::empty()
                };
                r@ == (SshConfigView {
                    path: path@,
                    lines: split_on(all, '\n'),
                    hosts: hosts_in(split_on(all, '\n')),
                    read_only: unwritable(*facts),
                })
            }),
            r@.wf(),
    {
        let mut config: SshConfig = match text {
            Some(t) => SshConfig::parse(path, t),
            None => {
                proof {
                    reveal_strlit("");
                    assert(""@ =~= Seq::<char>::empty());
                }
                SshConfig::parse(path, "")
            },
        };
        config.read_only = detect_read_only(facts);
        config
    }
}

/// What is read is written back as it was: the text of the lines of a file is
/// the file's text.
pub proof fn law_text_round_trip(text: Seq<char>)
    ensures
        text_of(split_on(text, '\n')) == text,
{
    lemma_join_split(text, '\n');
}

/// A block is marked dead only because of an earlier block that goes by its
/// name, which sets every keyword that it sets wherever a single block does; and
/// never while it sets a keyword that no earlier block with its name sets.
pub proof fn law_shadow(hosts: Seq<HostBlockView>, i: int)
    requires
        0 <= i < hosts.len(),
    ensures
        marked(hosts)[i].shadowed_by matches Some(j) ==> 0 <= j < i && patterns_match(
            hosts[j].patterns,
            alias_in(hosts[i].patterns),
        ),
        marked(hosts)[i].shadowed_by matches Some(j) ==> (exists|k: int|
            0 <= k < i && patterns_match(
                (#[trigger] hosts[k]).patterns,
                alias_in(hosts[i].patterns),
            ) && sets_all(hosts[k].directives, hosts[i].directives)) ==> sets_all(
            hosts[j].directives,
            hosts[i].directives,
        ),
        (exists|m: int|
            0 <= m < hosts[i].directives.len() && !covered(
                hosts,
                i,
                (#[trigger] hosts[i].directives[m]).key,
            )) ==> marked(hosts)[i].shadowed_by is None,
{
    lemma_first_match(hosts, i, 0);
    lemma_first_cover(hosts, i, 0);
}

proof fn lemma_first_cover(hosts: Seq<HostBlockView>, i: int, from: int)
    requires
        0 <= from <= i,
    ensures
        first_cover(hosts, i, from) matches Some(j) ==> from <= j < i && patterns_match(
            hosts[j].patterns,
            alias_in(hosts[i].patterns),
        ) && sets_all(hosts[j].directives, hosts[i].directives),
        first_cover(hosts, i, from) is None ==> !exists|k: int|
            from <= k < i && patterns_match(
                (#[trigger] hosts[k]).patterns,
                alias_in(hosts[i].patterns),
            ) && sets_all(hosts[k].directives, hosts[i].directives),
    decreases i - from,
{
    if from < i {
        lemma_first_cover(hosts, i, from + 1);
    }
}

proof fn lemma_first_match(hosts: Seq<HostBlockView>, i: int, from: int)
    requires
        0 <= from <= i,
    ensures
        first_match(hosts, i, from) matches Some(j) ==> from <= j < i && patterns_match(
            hosts[j].patterns,
            alias_in(hosts[i].patterns),
        ),
    decreases i - from,
{
    if from < i {
        lemma_first_match(hosts, i, from + 1);
    }
}

/// The jump host is found where it stands: the text between the two positions
/// is the jump host.
pub proof fn law_gateway_span(value: Seq<char>)
    requires
        command_gateway(value) is Some,
    ensures
        ({
            let i = command_gateway(value)->0;
            let span = word_spans(value)[i];
            value.subrange(span.0, span.1) == words(value)[i]
        }),
{
    lemma_operand(words(value), 1);
}

proof fn lemma_operand(tokens: Seq<Seq<char>>, from: int)
    requires
        0 <= from,
    ensures
        operand(tokens, from) matches Some(i) ==> from <= i < tokens.len(),
    decreases tokens.len() - from + 1,
{
    if from < tokens.len() && tokens[from].len() > 0 && tokens[from][0] == '-' {
        if takes_word(tokens[from]) {
            lemma_operand(tokens, from + 2);
        } else {
            lemma_operand(tokens, from + 1);
        }
    }
}

} // verus!
