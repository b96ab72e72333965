//! What reading a client configuration comes to: lines, blocks, names, jump hosts
//! and what makes a block dead.

use vstd::prelude::*;
use crate::glob::{glob, law_star_describes_all, lemma_star};
use crate::readback::{
    lemma_key_end_is, lemma_past_blanks_is, lemma_trimmed_is, lemma_value_behind, one_equals,
    writable,
};
use crate::reread::is_header;
use crate::saved::{lemma_named_prefix, lemma_shadow_prefix, lemma_split_append, lemma_split_free};
use crate::split::{split_on, words};
use crate::sshconfig::{
    alias_in, blank, command_gateway, config_path, covered, directive, ends_key, first_cover,
    first_match, gateway_in, header, hosts_in, in_store, lemma_lookup, lookup, marked, named,
    names_in, negated, operand, path_in, patterns_match, real_names, scan_step, scanned, sets,
    sets_all, shadow, takes_word, unwritable, value_in, DirectiveView, FileFacts, HostBlockView,
};
use crate::text::{same_word, trimmed, white};
use crate::text_laws::{gap, law_trimming_takes_the_spaces_off, letter, solid, space};

verus! {

/// One of the options of ssh that take the next word with them in a
/// `ProxyCommand`.
pub open spec fn takes_next(option: Seq<char>) -> bool {
    ||| option == seq!['-', 'W']
    ||| option == seq!['-', 'o']
    ||| option == seq!['-', 'p']
    ||| option == seq!['-', 'i']
    ||| option == seq!['-', 'l']
    ||| option == seq!['-', 'F']
}

/// A word that is an option.
pub open spec fn dashed(word: Seq<char>) -> bool {
    word.len() > 0 && word[0] == '-'
}

proof fn lemma_takes_next(t: Seq<char>)
    requires
        dashed(t),
    ensures
        takes_word(t) <==> takes_next(t),
{
    if takes_word(t) {
        assert(t =~= seq!['-', t[1]]);
    }
}

proof fn lemma_operand_rest(a: Seq<Seq<char>>, i: int, b: Seq<Seq<char>>, j: int)
    requires
        0 <= i <= a.len(),
        0 <= j <= b.len(),
        a.skip(i) == b.skip(j),
    ensures
        operand(a, i) is Some <==> operand(b, j) is Some,
        operand(a, i) is Some ==> operand(a, i)->0 - i == operand(b, j)->0 - j,
    decreases a.len() - i,
{
    assert(a.skip(i).len() == a.len() - i);
    assert(b.skip(j).len() == b.len() - j);
    if i < a.len() {
        assert(a.skip(i)[0] == a[i] && b.skip(j)[0] == b[j]);
        assert(a.skip(i + 1) =~= a.skip(i).skip(1));
        assert(b.skip(j + 1) =~= b.skip(j).skip(1));
        lemma_operand_rest(a, i + 1, b, j + 1);
        if i + 1 < a.len() {
            assert(a.skip(i + 2) =~= a.skip(i).skip(2));
            assert(b.skip(j + 2) =~= b.skip(j).skip(2));
            lemma_operand_rest(a, i + 2, b, j + 2);
        }
    }
}

/// The word that follows an option with a value is never the jump host. For each of
/// the options that take the next word, putting the option and its word behind the
/// program moves the jump host on by the two, whatever the word is.
pub proof fn law_option_word_is_no_jump_host(
    command: Seq<char>,
    longer: Seq<char>,
    option: Seq<char>,
    value: Seq<char>,
)
    requires
        takes_next(option),
        words(command).len() > 0,
        words(longer) == seq![words(command)[0], option, value] + words(command).skip(1),
        words(command).contains("-W"@),
    ensures
        command_gateway(command) matches Some(i) ==> command_gateway(longer) == Some(i + 2)
            && words(longer)[i + 2] == words(command)[i],
        command_gateway(command) is None ==> command_gateway(longer) is None,
{
    let a = words(command);
    let b = words(longer);
    lemma_takes_next(option);
    assert(b[1] == option && b[2] == value);
    assert(b.skip(3) =~= a.skip(1));
    lemma_operand_rest(a, 1, b, 3);
    lemma_operand_at(a, 1);
    assert(operand(b, 1) == operand(b, 3));
    let k = choose|k: int| 0 <= k < a.len() && a[k] == "-W"@;
    if k == 0 {
        assert(b[0] == "-W"@);
    } else {
        assert(b.skip(3)[k - 1] == a.skip(1)[k - 1]);
        assert(b[k + 2] == "-W"@);
    }
    if let Some(i) = command_gateway(command) {
        assert(b.skip(3)[i - 1] == a.skip(1)[i - 1]);
    }
}

/// The operand that is found is a word from there on that is no option.
pub proof fn lemma_operand_at(tokens: Seq<Seq<char>>, from: int)
    requires
        0 <= from,
    ensures
        operand(tokens, from) matches Some(i) ==> from <= i < tokens.len() && !dashed(tokens[i]),
    decreases tokens.len() - from + 1,
{
    if from < tokens.len() && tokens[from].len() > 0 && tokens[from][0] == '-' {
        if takes_word(tokens[from]) {
            lemma_operand_at(tokens, from + 2);
        } else {
            lemma_operand_at(tokens, from + 1);
        }
    }
}

/// Any other option is a switch, and takes no word with it.
pub proof fn law_switch_is_no_jump_host(command: Seq<char>, longer: Seq<char>, switch: Seq<char>)
    requires
        dashed(switch),
        !takes_next(switch),
        words(command).len() > 0,
        words(longer) == seq![words(command)[0], switch] + words(command).skip(1),
        words(command).contains("-W"@),
    ensures
        command_gateway(command) matches Some(i) ==> command_gateway(longer) == Some(i + 1)
            && words(longer)[i + 1] == words(command)[i],
        command_gateway(command) is None ==> command_gateway(longer) is None,
{
    let a = words(command);
    let b = words(longer);
    lemma_takes_next(switch);
    assert(b[1] == switch);
    assert(b.skip(2) =~= a.skip(1));
    lemma_operand_rest(a, 1, b, 2);
    lemma_operand_at(a, 1);
    assert(operand(b, 1) == operand(b, 2));
    let k = choose|k: int| 0 <= k < a.len() && a[k] == "-W"@;
    if k == 0 {
        assert(b[0] == "-W"@);
    } else {
        assert(b.skip(2)[k - 1] == a.skip(1)[k - 1]);
        assert(b[k + 1] == "-W"@);
    }
    if let Some(i) = command_gateway(command) {
        assert(b.skip(2)[i - 1] == a.skip(1)[i - 1]);
    }
}

/// The first word behind the program that is no option is the jump host, of a
/// command that says `-W`; a command that does not say it names none, and neither
/// does one that is nothing but the program.
pub proof fn law_first_plain_word_is_the_jump_host(command: Seq<char>)
    ensures
        words(command).contains("-W"@) && words(command).len() > 1 && !dashed(words(command)[1])
            ==> command_gateway(command) == Some(1int),
        !words(command).contains("-W"@) ==> command_gateway(command) is None,
        words(command).len() <= 1 ==> command_gateway(command) is None,
{
}

/// So `ssh`, any of those options, its word, a host and `-W` with what it takes is
/// a command whose jump host is the host, and not the option's word.
pub proof fn law_jump_host_behind_an_option(
    command: Seq<char>,
    program: Seq<char>,
    option: Seq<char>,
    value: Seq<char>,
    host: Seq<char>,
    rest: Seq<Seq<char>>,
)
    requires
        takes_next(option),
        !dashed(host),
        rest.contains("-W"@),
        words(command) == seq![program, option, value, host] + rest,
    ensures
        command_gateway(command) == Some(3int),
        words(command)[3] == host,
{
    let w = words(command);
    lemma_takes_next(option);
    let k = choose|k: int| 0 <= k < rest.len() && rest[k] == "-W"@;
    assert(w[k + 4] == "-W"@);
    assert(w[1] == option && w[3] == host);
    assert(operand(w, 3) == Some(3int));
    assert(operand(w, 1) == operand(w, 3));
}

/// The directive that counts for a keyword is the first one with that keyword,
/// whatever the case it is written in.
pub proof fn law_first_directive_counts(ds: Seq<DirectiveView>, key: Seq<char>)
    ensures
        match lookup(ds, key, 0) {
            Some(d) => exists|i: int| #[trigger]
                is_first(ds, key, i) && ds[i] == d,
            None => forall|i: int|
                0 <= i < ds.len() ==> !same_word((#[trigger] ds[i]).key, key),
        },
{
    lemma_first_directive(ds, key, 0);
}

/// The `i`-th directive is the first with the keyword.
pub open spec fn is_first(ds: Seq<DirectiveView>, key: Seq<char>, i: int) -> bool {
    &&& 0 <= i < ds.len()
    &&& same_word(ds[i].key, key)
    &&& forall|j: int| 0 <= j < i ==> !same_word((#[trigger] ds[j]).key, key)
}

proof fn lemma_first_directive(ds: Seq<DirectiveView>, key: Seq<char>, from: int)
    requires
        0 <= from <= ds.len(),
        forall|j: int| 0 <= j < from ==> !same_word((#[trigger] ds[j]).key, key),
    ensures
        match lookup(ds, key, from) {
            Some(d) => exists|i: int| #[trigger]
                is_first(ds, key, i) && ds[i] == d,
            None => forall|i: int|
                0 <= i < ds.len() ==> !same_word((#[trigger] ds[i]).key, key),
        },
    decreases ds.len() - from,
{
    if from < ds.len() {
        if same_word(ds[from].key, key) {
            assert(is_first(ds, key, from));
        } else {
            lemma_first_directive(ds, key, from + 1);
        }
    }
}

/// The jump host of a block is the first hop of its `ProxyJump`, spaces left out; a
/// block without one has that of its `ProxyCommand`, and without either it has none.
pub proof fn law_jump_host_of_a_block(
    ds: Seq<DirectiveView>,
    i: int,
    a: Seq<char>,
    hop: Seq<char>,
    b: Seq<char>,
    more: Seq<char>,
)
    requires
        gap(a),
        gap(b),
        hop.len() > 0,
        letter(hop[0]),
        letter(hop.last()),
        !hop.contains(','),
    ensures
        is_first(ds, "ProxyJump"@, i) && ds[i].value == a + hop + b ==> gateway_in(ds) == Some(hop),
        is_first(ds, "ProxyJump"@, i) && ds[i].value == (a + hop + b).push(',') + more
            ==> gateway_in(ds) == Some(hop),
        is_first(ds, "ProxyJump"@, i) && ds[i].value == a ==> gateway_in(ds) is None,
        (forall|j: int| 0 <= j < ds.len() ==> !same_word((#[trigger] ds[j]).key, "ProxyJump"@))
            && is_first(ds, "ProxyCommand"@, i) ==> gateway_in(ds) == match command_gateway(
            ds[i].value,
        ) {
            Some(k) => Some(words(ds[i].value)[k]),
            None => None,
        },
        (forall|j: int|
            0 <= j < ds.len() ==> !same_word((#[trigger] ds[j]).key, "ProxyJump"@) && !same_word(
                ds[j].key,
                "ProxyCommand"@,
            )) ==> gateway_in(ds) is None,
{
    law_first_directive_counts(ds, "ProxyJump"@);
    law_first_directive_counts(ds, "ProxyCommand"@);
    lemma_is_first_unique(ds, "ProxyJump"@, i);
    lemma_is_first_unique(ds, "ProxyCommand"@, i);
    law_trimming_takes_the_spaces_off(a, hop, b);
    let first = a + hop + b;
    assert(!first.contains(',')) by {
        if first.contains(',') {
            let k = choose|k: int| 0 <= k < first.len() && first[k] == ',';
            if k < a.len() {
                assert(space(a[k]));
            } else if k < a.len() + hop.len() {
                assert(hop.contains(hop[k - a.len()]));
            } else {
                assert(space(b[k - a.len() - hop.len()]));
            }
        }
    }
    assert(!a.contains(',')) by {
        if a.contains(',') {
            let k = choose|k: int| 0 <= k < a.len() && a[k] == ',';
            assert(space(a[k]));
        }
    }
    lemma_split_free(first, ',');
    lemma_split_free(a, ',');
    lemma_first_piece(first, more, ',');
}

proof fn lemma_is_first_unique(ds: Seq<DirectiveView>, key: Seq<char>, i: int)
    ensures
        is_first(ds, key, i) ==> lookup(ds, key, 0) == Some(ds[i]),
{
    if is_first(ds, key, i) {
        law_first_directive_counts(ds, key);
        if let Some(d) = lookup(ds, key, 0) {
            let k = choose|k: int| #[trigger] is_first(ds, key, k) && ds[k] == d;
            if k < i {
                assert(!same_word(ds[k].key, key));
            } else if i < k {
                assert(!same_word(ds[i].key, key));
            }
        }
    }
}

/// The first piece of a text is what stands before the first separator.
pub proof fn lemma_first_piece(first: Seq<char>, more: Seq<char>, c: char)
    requires
        !first.contains(c),
    ensures
        split_on(first.push(c) + more, c)[0] == first,
        split_on(first.push(c) + more, c).len() >= 2,
    decreases more.len(),
{
    let s = first.push(c) + more;
    if more.len() == 0 {
        lemma_split_append(first, more, c);
        assert(first + seq![c] + more =~= s);
        lemma_split_free(first, c);
    } else {
        lemma_first_piece(first, more.drop_last(), c);
        assert(s.drop_last() =~= first.push(c) + more.drop_last());
    }
}

/// The keyword of a directive is not a comment, and holds no space and no `=`.
pub open spec fn plain_key(key: Seq<char>) -> bool {
    &&& solid(key)
    &&& key[0] != '#'
    &&& !key.contains('=')
}

/// Spaces and tabs.
pub open spec fn blanks(s: Seq<char>) -> bool {
    forall|i: int| 0 <= i < s.len() ==> #[trigger] s[i] == ' ' || s[i] == '\t'
}

/// A line is a keyword and a value, with spaces or an `=` between them and spaces
/// around; a line that begins with `#`, and one of spaces alone, is neither.
pub proof fn law_line_is_keyword_and_value(
    indent: Seq<char>,
    key: Seq<char>,
    a: Seq<char>,
    b: Seq<char>,
    value: Seq<char>,
    tail: Seq<char>,
    rest: Seq<char>,
)
    requires
        gap(indent),
        gap(tail),
        plain_key(key),
        blanks(a),
        blanks(b),
        value.len() > 0,
        letter(value[0]),
        letter(value.last()),
        value[0] != '=',
    ensures
        a.len() > 0 ==> directive(indent + (key + a + value) + tail) == Some((key, value)),
        directive(indent + (key + (a.push('=') + b) + value) + tail) == Some((key, value)),
        directive(indent + key + tail) == Some((key, Seq::<char>::empty())),
        directive(indent + rest.insert(0, '#')) is None,
        directive(indent) is None,
{
    if a.len() > 0 {
        lemma_key_sep_value(indent, key, a, value, tail);
    }
    let sep = a.push('=') + b;
    lemma_key_sep_value(indent, key, sep, value, tail);
    // The keyword alone.
    assert(letter(key[0]) && letter(key[key.len() - 1]));
    law_trimming_takes_the_spaces_off(indent, key, tail);
    let none = Seq::<char>::empty();
    assert(key.take(key.len() as int) =~= key);
    lemma_key_ends(key, key);
    assert(key.skip(key.len() as int) =~= none);
    lemma_no_value();
    // A comment.
    let comment = rest.insert(0, '#');
    lemma_first_survives(indent, comment);
    law_trimming_takes_the_spaces_off(indent, key, tail);
}

proof fn lemma_no_value()
    ensures
        value_in(Seq::empty()) == Seq::<char>::empty(),
{
    let none = Seq::<char>::empty();
    lemma_past_blanks_is(none, 0, 0);
    assert(none.skip(0) =~= none);
    crate::text::lemma_trimmed(none);
}

proof fn lemma_first_survives(indent: Seq<char>, s: Seq<char>)
    requires
        gap(indent),
        s.len() > 0,
        s[0] == '#',
    ensures
        trimmed(indent + s).len() > 0,
        trimmed(indent + s)[0] == '#',
{
    let t = indent + s;
    let n = indent.len() as int;
    crate::text::lemma_lead(t, 0);
    let lo = crate::text::lead(t, 0);
    assert(t[n] == '#');
    assert(lo == n) by {
        if lo < n {
            assert(space(indent[lo]));
            assert(t[lo] == indent[lo]);
        } else if lo > n {
            assert(white(t[n]));
        }
    }
    let u = t.skip(lo);
    crate::text::lemma_tail(u, u.len() as int);
    let hi = crate::text::tail(u, u.len() as int);
    assert(u[0] == '#');
    assert(hi > 0) by {
        if hi == 0 {
            assert(white(u[0]));
        }
    }
    assert(trimmed(t)[0] == u[0]);
}

proof fn lemma_key_ends(key: Seq<char>, line: Seq<char>)
    requires
        plain_key(key),
        line.len() >= key.len(),
        line.take(key.len() as int) == key,
        line.len() == key.len() || ends_key(line[key.len() as int]),
    ensures
        crate::sshconfig::key_end(line, 0) == key.len(),
{
    let n = key.len() as int;
    assert forall|i: int| 0 <= i < n implies !ends_key(#[trigger] line[i]) by {
        assert(line.take(n)[i] == line[i]);
        assert(letter(key[i]));
        assert(key.contains(key[i]));
    }
    lemma_key_end_is(line, 0, n);
}

proof fn lemma_key_sep_value(
    indent: Seq<char>,
    key: Seq<char>,
    sep: Seq<char>,
    value: Seq<char>,
    tail: Seq<char>,
)
    requires
        gap(indent),
        gap(tail),
        plain_key(key),
        sep.len() > 0,
        forall|i: int| 0 <= i < sep.len() ==> ends_key(#[trigger] sep[i]),
        one_equals(sep),
        value.len() > 0,
        letter(value[0]),
        letter(value.last()),
        value[0] != '=',
    ensures
        directive(indent + (key + sep + value) + tail) == Some((key, value)),
{
    let line = key + sep + value;
    let n = key.len() as int;
    assert(letter(key[0]));
    assert(line[0] == key[0] && line.last() == value.last());
    law_trimming_takes_the_spaces_off(indent, line, tail);
    assert(line.take(n) =~= key);
    assert(line[n] == sep[0]);
    assert(ends_key(sep[0]));
    lemma_key_ends(key, line);
    assert(line.skip(n) =~= sep + value);
    lemma_value_behind(sep, value);
}

/// A line that opens a host's block under the given names.
pub open spec fn opens_host(line: Seq<char>, names: Seq<Seq<char>>) -> bool {
    directive(line) matches Some((key, value)) && same_word(key, "Host"@) && words(value) == names
        && names.len() > 0
}

/// A line that ends the block above it without opening a host's: a `Match`, or a `Host`
/// without a name.
pub open spec fn opens_match(line: Seq<char>) -> bool {
    directive(line) matches Some((key, value)) && (same_word(key, "Match"@) || (same_word(
        key,
        "Host"@,
    ) && words(value).len() == 0))
}

/// A line that sets a keyword of the block it is in.
pub open spec fn sets_keyword(line: Seq<char>) -> bool {
    directive(line) matches Some((key, value)) && !same_word(key, "Host"@) && !same_word(
        key,
        "Match"@,
    )
}

/// None of the lines opens a block.
pub open spec fn no_headers(lines: Seq<Seq<char>>) -> bool {
    forall|i: int| 0 <= i < lines.len() ==> directive(#[trigger] lines[i]) is None || sets_keyword(
        lines[i],
    )
}

proof fn lemma_header_words()
    ensures
        forall|key: Seq<char>| #[trigger]
            same_word(key, "Host"@) <==> same_word(key, "host"@),
        forall|key: Seq<char>| #[trigger]
            same_word(key, "Match"@) <==> same_word(key, "match"@),
        forall|key: Seq<char>|
            !(#[trigger] same_word(key, "Host"@) && same_word(key, "Match"@)),
{
    reveal_strlit("Host");
    reveal_strlit("host");
    reveal_strlit("Match");
    reveal_strlit("match");
    assert(crate::text::folded("Host"@) =~= crate::text::folded("host"@));
    assert(crate::text::folded("Match"@) =~= crate::text::folded("match"@));
    assert(crate::text::folded("Host"@).len() != crate::text::folded("Match"@).len());
}

/// A host's header adds one host at the end of the list, with its names and nothing
/// set, and leaves the others as they are.
pub proof fn law_header_opens_a_host(
    above: Seq<Seq<char>>,
    line: Seq<char>,
    names: Seq<Seq<char>>,
)
    requires
        opens_host(line, names),
    ensures
        hosts_in(above.push(line)) == hosts_in(above).push(
            HostBlockView {
                patterns: names,
                start: above.len() as int,
                end: above.len() as int + 1,
                directives: Seq::empty(),
                shadowed_by: None,
            },
        ),
{
    lemma_header_words();
    let lines = above.push(line);
    assert(lines.drop_last() =~= above);
    let bs = scanned(above);
    let now = scanned(lines);
    let b = header(above.len() as int, names);
    assert(now == bs.push(b));
    assert(now.drop_last() =~= bs);
    assert(named(now) == named(bs).push(b));
    lemma_marked_push(named(bs), b);
}

proof fn lemma_marked_push(hs: Seq<HostBlockView>, b: HostBlockView)
    requires
        b.directives.len() == 0,
        b.shadowed_by is None,
    ensures
        marked(hs.push(b)) == marked(hs).push(b),
{
    let all = hs.push(b);
    let n = hs.len() as int;
    assert(all.take(n) =~= hs);
    assert forall|i: int| 0 <= i < all.len() implies marked(all)[i] == marked(hs).push(b)[i] by {
        if i < n {
            lemma_shadow_prefix(all, n, i);
        }
    }
    assert(marked(all) =~= marked(hs).push(b));
}

/// A line that says nothing changes nothing, and neither does one that opens a
/// `Match` block or a block without a name; and what such a block sets goes to no host,
/// up to the next header.
pub proof fn law_match_block_is_no_hosts(
    above: Seq<Seq<char>>,
    silent: Seq<char>,
    line: Seq<char>,
    body: Seq<Seq<char>>,
)
    requires
        directive(silent) is None,
        opens_match(line),
        no_headers(body),
    ensures
        hosts_in(above.push(silent)) == hosts_in(above),
        hosts_in(above.push(line) + body) == hosts_in(above),
        hosts_in(body).len() == 0,
{
    lemma_header_words();
    assert(above.push(silent).drop_last() =~= above);
    lemma_match_body(above, line, body);
    lemma_headless(body);
}

proof fn lemma_match_body(above: Seq<Seq<char>>, line: Seq<char>, body: Seq<Seq<char>>)
    requires
        opens_match(line),
        no_headers(body),
    ensures
        named(scanned(above.push(line) + body)) == named(scanned(above)),
        scanned(above.push(line) + body).len() > 0,
        scanned(above.push(line) + body).last().patterns.len() == 0,
    decreases body.len(),
{
    lemma_header_words();
    let all = above.push(line) + body;
    if body.len() == 0 {
        assert(all =~= above.push(line));
        assert(all.drop_last() =~= above);
        if let Some((key, value)) = directive(line) {
            if same_word(key, "Match"@) {
                assert(!same_word(key, "Host"@));
                assert(!same_word(key, "host"@));
            }
        }
        assert(scanned(all).drop_last() =~= scanned(above));
    } else {
        let init = body.drop_last();
        assert forall|i: int| 0 <= i < init.len() implies directive(#[trigger] init[i]) is None
            || sets_keyword(init[i]) by {
            assert(init[i] == body[i]);
        }
        lemma_match_body(above, line, init);
        assert(all.drop_last() =~= above.push(line) + init);
        assert(all.last() == body[body.len() - 1]);
        let was = scanned(above.push(line) + init);
        let now = scanned(all);
        if directive(all.last()) is Some {
            assert(now.drop_last() =~= was.drop_last());
        }
    }
}

proof fn lemma_headless(body: Seq<Seq<char>>)
    requires
        no_headers(body),
    ensures
        scanned(body).len() == 0,
    decreases body.len(),
{
    lemma_header_words();
    if body.len() > 0 {
        let init = body.drop_last();
        assert forall|i: int| 0 <= i < init.len() implies directive(#[trigger] init[i]) is None
            || sets_keyword(init[i]) by {
            assert(init[i] == body[i]);
        }
        lemma_headless(init);
        assert(body.last() == body[body.len() - 1]);
    }
}

/// A line that sets a keyword belongs to the host whose header is the last above
/// it: the host has it behind its others, under the line it stands on, and reaches
/// down to it. The other hosts stay as they are.
pub proof fn law_directive_belongs_to_the_host_above(
    above: Seq<Seq<char>>,
    line: Seq<char>,
    names: Seq<Seq<char>>,
    body: Seq<Seq<char>>,
    key: Seq<char>,
    value: Seq<char>,
    more: Seq<char>,
)
    requires
        opens_host(line, names),
        no_headers(body),
        directive(more) == Some((key, value)),
        sets_keyword(more),
    ensures
        ({
            let lines = above.push(line) + body;
            let was = hosts_in(lines);
            let now = hosts_in(lines.push(more));
            let n = was.len() - 1;
            &&& n == hosts_in(above).len()
            &&& now.len() == was.len()
            &&& forall|i: int| 0 <= i < n ==> #[trigger] now[i] == was[i]
            &&& now[n].patterns == names
            &&& now[n].start == above.len()
            &&& now[n].end == lines.len() + 1
            &&& now[n].directives == was[n].directives.push(
                DirectiveView { line: lines.len() as int, key, value },
            )
        }),
{
    lemma_header_words();
    let lines = above.push(line) + body;
    lemma_host_body(above, line, names, body);
    let bs = scanned(lines);
    assert(lines.push(more).drop_last() =~= lines);
    let now = scanned(lines.push(more));
    let b = bs.last();
    let c = now.last();
    assert(now.drop_last() =~= bs.drop_last());
    let hs = named(bs.drop_last());
    assert(named(bs) == hs.push(b));
    assert(named(now) == hs.push(c));
    let n = hs.len() as int;
    assert(hs.push(b).take(n) =~= hs);
    assert(hs.push(c).take(n) =~= hs);
    assert forall|i: int| 0 <= i < n implies #[trigger] hosts_in(lines.push(more))[i] == hosts_in(
        lines,
    )[i] by {
        lemma_shadow_prefix(hs.push(b), n, i);
        lemma_shadow_prefix(hs.push(c), n, i);
    }
}

proof fn lemma_host_body(
    above: Seq<Seq<char>>,
    line: Seq<char>,
    names: Seq<Seq<char>>,
    body: Seq<Seq<char>>,
)
    requires
        opens_host(line, names),
        no_headers(body),
    ensures
        ({
            let bs = scanned(above.push(line) + body);
            &&& bs.len() > 0
            &&& bs.drop_last() == scanned(above)
            &&& bs.last().patterns == names
            &&& bs.last().start == above.len()
        }),
    decreases body.len(),
{
    lemma_header_words();
    let all = above.push(line) + body;
    if body.len() == 0 {
        assert(all =~= above.push(line));
        assert(all.drop_last() =~= above);
        assert(scanned(all).drop_last() =~= scanned(above));
    } else {
        let init = body.drop_last();
        assert forall|i: int| 0 <= i < init.len() implies directive(#[trigger] init[i]) is None
            || sets_keyword(init[i]) by {
            assert(init[i] == body[i]);
        }
        lemma_host_body(above, line, names, init);
        assert(all.drop_last() =~= above.push(line) + init);
        assert(all.last() == body[body.len() - 1]);
        if directive(all.last()) is Some {
            assert(scanned(all).drop_last() =~= scanned(above.push(line) + init).drop_last());
        }
    }
}

/// A pattern is read from its start: `?` takes one character, `*` any run of them,
/// and any other character itself.
pub proof fn law_pattern_is_read_from_its_start(p: Seq<char>, c: char, name: Seq<char>)
    ensures
        glob(p.insert(0, '?'), name) <==> name.len() > 0 && glob(p, name.skip(1)),
        c != '?' && c != '*' ==> (glob(p.insert(0, c), name) <==> name.len() > 0 && name[0] == c
            && glob(p, name.skip(1))),
        glob(p.insert(0, '*'), name) <==> exists|k: int|
            0 <= k <= name.len() && #[trigger] glob(p, name.skip(k)),
        glob(Seq::empty(), name) <==> name.len() == 0,
{
    assert(p.insert(0, '?').skip(1) =~= p);
    assert(p.insert(0, c).skip(1) =~= p);
    let star = p.insert(0, '*');
    assert(star.skip(1) =~= p);
    assert(star[0] == '*');
    lemma_star(star, name);
}

/// A block goes by a name if one of its patterns describes it and none that begins
/// with `!` does: a negated pattern that describes it shuts it out whatever the
/// others say, and one that does not changes nothing.
pub proof fn law_negated_pattern_shuts_out(
    patterns: Seq<Seq<char>>,
    p: Seq<char>,
    name: Seq<char>,
)
    ensures
        glob(p, name) ==> !patterns_match(patterns.push(p.insert(0, '!')), name),
        !glob(p, name) ==> patterns_match(patterns.push(p.insert(0, '!')), name) == patterns_match(
            patterns,
            name,
        ),
        !(p.len() > 0 && p[0] == '!') && !glob(p, name) ==> patterns_match(patterns.push(p), name)
            == patterns_match(patterns, name),
        !(p.len() > 0 && p[0] == '!') && glob(p, name) ==> patterns_match(patterns.push(p), name)
            == patterns_match(patterns.push(seq!['*']), name),
        patterns_match(seq![seq!['*']], name),
        !patterns_match(Seq::empty(), name),
{
    let no = p.insert(0, '!');
    assert(no.skip(1) =~= p);
    assert(negated(no));
    let star = seq!['*'];
    law_star_describes_all(name);
    assert(star[0] == '*');
    lemma_pushed_pattern(patterns, no, name);
    lemma_pushed_pattern(patterns, p, name);
    lemma_pushed_pattern(patterns, star, name);
    let only = seq![star];
    assert(only =~= Seq::<Seq<char>>::empty().push(star));
    lemma_pushed_pattern(Seq::empty(), star, name);
}

spec fn one_describes(patterns: Seq<Seq<char>>, name: Seq<char>) -> bool {
    exists|i: int|
        0 <= i < patterns.len() && !negated(#[trigger] patterns[i]) && glob(patterns[i], name)
}

spec fn one_shuts_out(patterns: Seq<Seq<char>>, name: Seq<char>) -> bool {
    exists|i: int|
        0 <= i < patterns.len() && negated(#[trigger] patterns[i]) && glob(
            patterns[i].skip(1),
            name,
        )
}

proof fn lemma_pushed_pattern(patterns: Seq<Seq<char>>, p: Seq<char>, name: Seq<char>)
    ensures
        one_describes(patterns.push(p), name) <==> one_describes(patterns, name) || (!negated(p)
            && glob(p, name)),
        one_shuts_out(patterns.push(p), name) <==> one_shuts_out(patterns, name) || (negated(p)
            && glob(p.skip(1), name)),
        patterns_match(patterns, name) <==> one_describes(patterns, name) && !one_shuts_out(
            patterns,
            name,
        ),
        patterns_match(patterns.push(p), name) <==> one_describes(patterns.push(p), name)
            && !one_shuts_out(patterns.push(p), name),
{
    let all = patterns.push(p);
    let n = patterns.len() as int;
    assert(all[n] == p);
    if one_describes(patterns, name) {
        let i = choose|i: int|
            0 <= i < n && !negated(#[trigger] patterns[i]) && glob(patterns[i], name);
        assert(all[i] == patterns[i]);
    }
    if one_describes(all, name) {
        let i = choose|i: int|
            0 <= i < all.len() && !negated(#[trigger] all[i]) && glob(all[i], name);
        if i < n {
            assert(all[i] == patterns[i]);
        }
    }
    if one_shuts_out(patterns, name) {
        let i = choose|i: int|
            0 <= i < n && negated(#[trigger] patterns[i]) && glob(patterns[i].skip(1), name);
        assert(all[i] == patterns[i]);
    }
    if one_shuts_out(all, name) {
        let i = choose|i: int|
            0 <= i < all.len() && negated(#[trigger] all[i]) && glob(all[i].skip(1), name);
        if i < n {
            assert(all[i] == patterns[i]);
        }
    }
}

/// The name of a block is the first of its patterns.
pub proof fn law_first_pattern_is_the_name(patterns: Seq<Seq<char>>)
    ensures
        patterns.len() > 0 ==> alias_in(patterns) == patterns[0],
        patterns.len() == 0 ==> alias_in(patterns).len() == 0,
{
}

/// The `j`-th block goes by the name of the `i`-th.
pub open spec fn goes_by(hosts: Seq<HostBlockView>, j: int, i: int) -> bool {
    patterns_match(hosts[j].patterns, alias_in(hosts[i].patterns))
}

/// The block sets the keyword.
pub open spec fn has_key(h: HostBlockView, key: Seq<char>) -> bool {
    exists|m: int| 0 <= m < h.directives.len() && same_word((#[trigger] h.directives[m]).key, key)
}

/// The `j`-th block goes by the name of the `i`-th and sets all that it sets.
pub open spec fn covers(hosts: Seq<HostBlockView>, j: int, i: int) -> bool {
    goes_by(hosts, j, i) && forall|m: int|
        0 <= m < hosts[i].directives.len() ==> has_key(
            hosts[j],
            (#[trigger] hosts[i].directives[m]).key,
        )
}

/// A block is dead if and only if it sets something and each keyword it sets is set
/// by an earlier block that goes by its name. It is dead because of the first block
/// that sets all of them, or, where it takes several, the first that goes by its
/// name.
pub proof fn law_dead_means_set_before(hosts: Seq<HostBlockView>, i: int)
    requires
        0 <= i < hosts.len(),
    ensures
        marked(hosts)[i].shadowed_by is Some <==> hosts[i].directives.len() > 0 && forall|m: int|
            0 <= m < hosts[i].directives.len() ==> exists|j: int|
                0 <= j < i && #[trigger] goes_by(hosts, j, i) && has_key(
                    hosts[j],
                    (#[trigger] hosts[i].directives[m]).key,
                ),
        marked(hosts)[i].shadowed_by matches Some(j) ==> 0 <= j < i && if exists|k: int|
            0 <= k < i && #[trigger] covers(hosts, k, i) {
            covers(hosts, j, i) && forall|k: int|
                0 <= k < j ==> !#[trigger] covers(hosts, k, i)
        } else {
            goes_by(hosts, j, i) && forall|k: int| 0 <= k < j ==> !#[trigger] goes_by(hosts, k, i)
        },
        marked(hosts)[i].patterns == hosts[i].patterns,
        marked(hosts)[i].directives == hosts[i].directives,
        marked(hosts)[i].start == hosts[i].start,
        marked(hosts)[i].end == hosts[i].end,
{
    let ds = hosts[i].directives;
    assert forall|key: Seq<char>| #[trigger] covered(hosts, i, key) <==> exists|j: int|
        0 <= j < i && #[trigger] goes_by(hosts, j, i) && has_key(hosts[j], key) by {
        if covered(hosts, i, key) {
            let j = choose|j: int|
                0 <= j < i && patterns_match(
                    (#[trigger] hosts[j]).patterns,
                    alias_in(hosts[i].patterns),
                ) && sets(hosts[j].directives, key);
            assert(goes_by(hosts, j, i));
        }
        if exists|j: int| 0 <= j < i && #[trigger] goes_by(hosts, j, i) && has_key(hosts[j], key) {
            let j = choose|j: int|
                0 <= j < i && #[trigger] goes_by(hosts, j, i) && has_key(hosts[j], key);
            assert(patterns_match(hosts[j].patterns, alias_in(hosts[i].patterns)));
            assert(sets(hosts[j].directives, key));
        }
    }
    lemma_first_cover_is(hosts, i, 0);
    lemma_first_match_is(hosts, i, 0);
    if ds.len() > 0 && forall|m: int|
        0 <= m < ds.len() ==> covered(hosts, i, (#[trigger] ds[m]).key) {
        assert(covered(hosts, i, ds[0].key));
        let j = choose|j: int| 0 <= j < i && #[trigger] goes_by(hosts, j, i) && has_key(
            hosts[j],
            ds[0].key,
        );
        assert(goes_by(hosts, j, i));
    }
}

proof fn lemma_first_cover_is(hosts: Seq<HostBlockView>, i: int, from: int)
    requires
        0 <= from <= i < hosts.len(),
        forall|k: int| 0 <= k < from ==> !#[trigger] covers(hosts, k, i),
    ensures
        match first_cover(hosts, i, from) {
            Some(j) => 0 <= j < i && covers(hosts, j, i) && forall|k: int|
                0 <= k < j ==> !#[trigger] covers(hosts, k, i),
            None => forall|k: int| 0 <= k < i ==> !#[trigger] covers(hosts, k, i),
        },
    decreases i - from,
{
    if from < i {
        let all = sets_all(hosts[from].directives, hosts[i].directives);
        if all {
            assert forall|m: int| 0 <= m < hosts[i].directives.len() implies has_key(
                hosts[from],
                (#[trigger] hosts[i].directives[m]).key,
            ) by {
                assert(sets(hosts[from].directives, hosts[i].directives[m].key));
            }
        } else {
            let m = choose|m: int|
                0 <= m < hosts[i].directives.len() && !sets(
                    hosts[from].directives,
                    (#[trigger] hosts[i].directives[m]).key,
                );
            assert(!has_key(hosts[from], hosts[i].directives[m].key));
        }
        if goes_by(hosts, from, i) && all {
            assert(covers(hosts, from, i));
        } else {
            assert(!covers(hosts, from, i));
            lemma_first_cover_is(hosts, i, from + 1);
        }
    }
}

proof fn lemma_first_match_is(hosts: Seq<HostBlockView>, i: int, from: int)
    requires
        0 <= from <= i < hosts.len(),
        forall|k: int| 0 <= k < from ==> !#[trigger] goes_by(hosts, k, i),
    ensures
        match first_match(hosts, i, from) {
            Some(j) => 0 <= j < i && goes_by(hosts, j, i) && forall|k: int|
                0 <= k < j ==> !#[trigger] goes_by(hosts, k, i),
            None => forall|k: int| 0 <= k < i ==> !#[trigger] goes_by(hosts, k, i),
        },
    decreases i - from,
{
    if from < i && !goes_by(hosts, from, i) {
        lemma_first_match_is(hosts, i, from + 1);
    }
}

/// A name in a path.
pub open spec fn real_name(s: Seq<char>) -> bool {
    s.len() > 0 && s != "."@ && !s.contains('/')
}

/// A link leads into the store if its path is absolute and its first two names are
/// `nix` and `store`, whatever comes behind; doubled slashes do not count as names.
pub proof fn law_store_is_told_by_two_names(
    a: Seq<char>,
    b: Seq<char>,
    rest: Seq<char>,
    path: Seq<char>,
)
    requires
        real_name(a),
        real_name(b),
    ensures
        in_store(seq!['/'] + a.push('/') + b) <==> a == "nix"@ && b == "store"@,
        in_store(seq!['/'] + a.push('/') + b.push('/') + rest) <==> a == "nix"@ && b == "store"@,
        in_store(seq!['/', '/'] + a.push('/').push('/') + b.push('/') + rest) <==> a == "nix"@ && b
            == "store"@,
        path.len() == 0 || path[0] != '/' ==> !in_store(path),
{
    let none = Seq::<char>::empty();
    let s = '/';
    lemma_split_free(none, s);
    lemma_split_free(a, s);
    lemma_split_free(b, s);
    // "/a/b"
    let p0 = seq!['/'] + a;
    lemma_split_append(none, a, s);
    assert(none + seq![s] + a =~= p0);
    let p1 = seq!['/'] + a.push('/') + b;
    lemma_split_append(p0, b, s);
    assert(p0 + seq![s] + b =~= p1);
    lemma_real_names_push(seq![none], a);
    lemma_real_names_push(seq![none].push(a), b);
    assert(seq![none] =~= Seq::<Seq<char>>::empty().push(none));
    lemma_real_names_push(Seq::empty(), none);
    let two = Seq::<Seq<char>>::empty().push(a).push(b);
    assert(names_in(p1) =~= two);
    // "/a/b/rest"
    lemma_names_behind(p1, rest);
    assert(seq!['/'] + a.push('/') + b.push('/') + rest =~= p1.push('/') + rest);
    // "//a//b/rest"
    let q0 = seq!['/', '/'] + a;
    lemma_split_append(none, none, s);
    assert(none + seq![s] + none =~= seq!['/']);
    lemma_split_append(seq!['/'], a, s);
    assert(seq!['/'] + seq![s] + a =~= q0);
    lemma_split_append(q0, none, s);
    assert(q0 + seq![s] + none =~= q0.push('/'));
    let q1 = seq!['/', '/'] + a.push('/').push('/') + b;
    lemma_split_append(q0.push('/'), b, s);
    assert(q0.push('/') + seq![s] + b =~= q1);
    lemma_real_names_push(seq![none], none);
    lemma_real_names_push(seq![none].push(none), a);
    lemma_real_names_push(seq![none].push(none).push(a), none);
    lemma_real_names_push(seq![none].push(none).push(a).push(none), b);
    assert(names_in(q1) =~= two);
    lemma_names_behind(q1, rest);
    assert(seq!['/', '/'] + a.push('/').push('/') + b.push('/') + rest =~= q1.push('/') + rest);
}

proof fn lemma_real_names_push(pieces: Seq<Seq<char>>, p: Seq<char>)
    ensures
        real_names(pieces.push(p)) == (if p.len() == 0 || p == "."@ {
            real_names(pieces)
        } else {
            real_names(pieces).push(p)
        }),
        real_names(Seq::empty()).len() == 0,
{
    assert(pieces.push(p).drop_last() =~= pieces);
}

/// The names of a longer path begin with those of the shorter.
proof fn lemma_names_behind(path: Seq<char>, rest: Seq<char>)
    ensures
        names_in(path.push('/') + rest).len() >= names_in(path).len(),
        names_in(path.push('/') + rest).take(names_in(path).len() as int) == names_in(path),
        forall|i: int|
            0 <= i < names_in(path).len() ==> #[trigger] names_in(path.push('/') + rest)[i]
                == names_in(path)[i],
{
    let ps = split_on(path, '/');
    lemma_pieces_behind(path, rest);
    let all = split_on(path.push('/') + rest, '/');
    lemma_real_prefix(all, ps.len() as int);
    let n = names_in(path).len() as int;
    assert(all.take(ps.len() as int) =~= ps);
    assert forall|i: int| 0 <= i < n implies #[trigger] names_in(path.push('/') + rest)[i]
        == names_in(path)[i] by {
        assert(names_in(path.push('/') + rest).take(n)[i] == names_in(path)[i]);
    }
}

proof fn lemma_pieces_behind(path: Seq<char>, rest: Seq<char>)
    ensures
        split_on(path.push('/') + rest, '/').len() > split_on(path, '/').len(),
        split_on(path.push('/') + rest, '/').take(split_on(path, '/').len() as int) == split_on(
            path,
            '/',
        ),
    decreases rest.len(),
{
    let s = path.push('/') + rest;
    let n = split_on(path, '/').len() as int;
    if rest.len() == 0 {
        assert(s =~= path.push('/'));
        assert(s.drop_last() =~= path);
        assert(split_on(s, '/').take(n) =~= split_on(path, '/'));
    } else {
        lemma_pieces_behind(path, rest.drop_last());
        let before = split_on(path.push('/') + rest.drop_last(), '/');
        assert(s.drop_last() =~= path.push('/') + rest.drop_last());
        assert(split_on(s, '/').take(n) =~= before.take(n));
    }
}

proof fn lemma_real_prefix(pieces: Seq<Seq<char>>, n: int)
    requires
        0 <= n <= pieces.len(),
    ensures
        real_names(pieces).len() >= real_names(pieces.take(n)).len(),
        real_names(pieces).take(real_names(pieces.take(n)).len() as int) == real_names(
            pieces.take(n),
        ),
    decreases pieces.len(),
{
    let m = real_names(pieces.take(n)).len() as int;
    if n == pieces.len() {
        assert(pieces.take(n) =~= pieces);
        assert(real_names(pieces).take(m) =~= real_names(pieces));
    } else {
        let init = pieces.drop_last();
        lemma_real_prefix(init, n);
        assert(init.take(n) =~= pieces.take(n));
        assert(real_names(pieces).take(m) =~= real_names(init).take(m));
    }
}

/// A file is not written if it is marked so, or if it is a link into the store; one
/// that is not there, and any other link, can be.
pub proof fn law_what_must_not_be_written(target: String, readonly: bool)
    ensures
        unwritable(FileFacts::File { readonly }) == readonly,
        !unwritable(FileFacts::Missing),
        !unwritable(FileFacts::Link { target: None }),
        unwritable(FileFacts::Link { target: Some(target) }) == in_store(target@),
{
}

/// A name in a directory stands behind one slash, and the configuration is the file
/// `config` in `.ssh` below the home.
pub proof fn law_paths_have_one_slash(dir: Seq<char>, name: Seq<char>)
    requires
        dir.len() > 0,
        dir.last() != '/',
    ensures
        path_in(dir, name) == dir.push('/') + name,
        path_in(dir.push('/'), name) == dir.push('/') + name,
        config_path(dir) == dir + "/.ssh/config"@,
{
    reveal_strlit("/.ssh/config");
    reveal_strlit(".ssh");
    reveal_strlit("config");
    let inner = dir.push('/') + ".ssh"@;
    assert(inner.last() == 'h');
    assert(config_path(dir) =~= dir + "/.ssh/config"@);
}

} // verus!
