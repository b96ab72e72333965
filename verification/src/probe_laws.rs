//! What measuring a tunnel comes to, layer by layer.

use vstd::prelude::*;
use vstd::utf8::{decode_utf8, valid_utf8};
use crate::find::{after_last, begins, last_of, lemma_last_of};
use crate::number::{decimal, law_decimal_reads_back, lemma_decimal_digits, read_u16};
use crate::probe::{
    dotted_row_listens, first_step, health_after_connect, lights_of, line_end, listening_in,
    netstat_listens, observed, port_in, reached, row_listens, status_in, step_after_listen,
    symbol_of, table_listens, watched_port, Attempt, FirstRead, HealthView, Light, Reach,
    ReachResult, StepView,
};
use crate::split::{lines_of, words};
use crate::text::trimmed;
use crate::text_laws::{
    gap, hex, law_parts_of_a_text, law_places_of_a_character, law_port_is_read_from_digits,
    law_port_is_read_from_hex, law_trimming_takes_the_spaces_off, space,
};
use crate::tunnels::{ForwardView, Kind, Protocol};

verus! {

/// Whether a socket row counts as a listener on a port depends on its state and on
/// the port of its local column alone, not on the address: a row in the state `0A`
/// counts for the port that it names and for no other, and a row in any other
/// state, or without a state, for none.
pub proof fn law_listener_is_told_by_state_and_port(
    row: Seq<char>,
    address: Seq<char>,
    at: u16,
    port: u16,
)
    ensures
        words(row).len() > 3 && words(row)[3] == "0A"@ && words(row)[1] == address.push(':') + hex(
            at,
        ) ==> (row_listens(row, port) <==> at == port),
        words(row).len() > 3 && words(row)[3] != "0A"@ ==> !row_listens(row, port),
        words(row).len() <= 3 ==> !row_listens(row, port),
{
    law_port_is_read_from_hex(at);
    law_places_of_a_character(address, ':', hex(at));
}

/// Two rows that differ in the address of the local column alone say the same.
pub proof fn law_address_does_not_count(
    a: Seq<char>,
    b: Seq<char>,
    here: Seq<char>,
    there: Seq<char>,
    named: Seq<char>,
    port: u16,
)
    requires
        words(a).len() > 3,
        words(a)[1] == here.push(':') + named,
        words(b) == words(a).update(1, there.push(':') + named),
        !named.contains(':'),
    ensures
        row_listens(a, port) == row_listens(b, port),
{
    law_places_of_a_character(here, ':', named);
    law_places_of_a_character(there, ':', named);
    assert(words(b)[3] == words(a)[3]);
    assert(words(b)[1] == there.push(':') + named);
}

/// A port is listened on if a row below the heading of a table that could be read
/// says so; it is not if none does; and where no table could be read nothing is
/// known. A table that could not be read does not count against one that could.
pub proof fn law_any_readable_table_tells(tables: Seq<Option<String>>, port: u16)
    ensures
        listening_in(tables, port) == Some(true) <==> exists|t: int, i: int|
            0 <= t < tables.len() && tables[t] is Some && 1 <= i < lines_of(tables[t]->0@).len()
                && #[trigger] row_listens(lines_of(tables[t]->0@)[i], port),
        listening_in(tables, port) is None <==> forall|t: int|
            0 <= t < tables.len() ==> (#[trigger] tables[t]) is None,
        listening_in(tables.push(None), port) == listening_in(tables, port),
{
    if exists|t: int, i: int|
        0 <= t < tables.len() && tables[t] is Some && 1 <= i < lines_of(tables[t]->0@).len()
            && #[trigger] row_listens(lines_of(tables[t]->0@)[i], port) {
        let (t, i) = choose|t: int, i: int|
            0 <= t < tables.len() && tables[t] is Some && 1 <= i < lines_of(tables[t]->0@).len()
                && #[trigger] row_listens(lines_of(tables[t]->0@)[i], port);
        assert(table_listens(tables[t]->0@, port));
        assert(tables[t] is Some);
    }
    if listening_in(tables, port) == Some(true) {
        let t = choose|t: int|
            0 <= t < tables.len() && (#[trigger] tables[t]) is Some && table_listens(
                tables[t]->0@,
                port,
            );
        let i = choose|i: int|
            1 <= i < lines_of(tables[t]->0@).len() && row_listens(
                #[trigger] lines_of(tables[t]->0@)[i],
                port,
            );
        assert(row_listens(lines_of(tables[t]->0@)[i], port));
    }
    let more = tables.push(None);
    assert forall|t: int| 0 <= t < tables.len() implies more[t] == #[trigger] tables[t] by {}
    if exists|t: int| 0 <= t < more.len() && (#[trigger] more[t]) is Some {
        let t = choose|t: int| 0 <= t < more.len() && (#[trigger] more[t]) is Some;
        assert(tables[t] is Some);
    }
    if exists|t: int|
        0 <= t < more.len() && (#[trigger] more[t]) is Some && table_listens(more[t]->0@, port) {
        let t = choose|t: int|
            0 <= t < more.len() && (#[trigger] more[t]) is Some && table_listens(more[t]->0@, port);
        assert(tables[t] is Some);
    }
    if exists|t: int| 0 <= t < tables.len() && (#[trigger] tables[t]) is Some {
        let t = choose|t: int| 0 <= t < tables.len() && (#[trigger] tables[t]) is Some;
        assert(more[t] is Some);
    }
    if exists|t: int|
        0 <= t < tables.len() && (#[trigger] tables[t]) is Some && table_listens(
            tables[t]->0@,
            port,
        ) {
        let t = choose|t: int|
            0 <= t < tables.len() && (#[trigger] tables[t]) is Some && table_listens(
                tables[t]->0@,
                port,
            );
        assert(more[t] is Some);
    }
}

/// A row of a BSD listing counts for the port behind the last dot of its local
/// column, whatever the address, if it is a TCP socket's in the state `LISTEN`; a
/// connection's row never counts.
pub proof fn law_bsd_listener_is_told_by_state_and_port(
    row: Seq<char>,
    address: Seq<char>,
    at: u16,
    port: u16,
)
    ensures
        words(row).len() > 3 && words(row).last() == "LISTEN"@ && words(row)[0].len() >= 3
            && words(row)[0].take(3) == "tcp"@ && words(row)[3] == address.push('.') + decimal(
            at as nat,
        ) ==> (dotted_row_listens(row, port) <==> at == port),
        words(row).len() > 3 && words(row).last() != "LISTEN"@ ==> !dotted_row_listens(row, port),
        words(row).len() > 3 && !(words(row)[0].len() >= 3 && words(row)[0].take(3) == "tcp"@)
            ==> !dotted_row_listens(row, port),
        words(row).len() <= 3 ==> !dotted_row_listens(row, port),
        words(row).len() > 3 && !words(row)[3].contains('.') ==> !dotted_row_listens(row, port),
{
    reveal_strlit("tcp");
    if words(row).len() > 3 {
        let local = words(row)[3];
        lemma_last_of(local, '.');
        if last_of(local, '.') >= 0 {
            assert(local.contains(local[last_of(local, '.')]));
        }
    }
    law_decimal_reads_back(at);
    lemma_decimal_digits(at as nat);
    assert(!decimal(at as nat).contains('.')) by {
        if decimal(at as nat).contains('.') {
            let k = choose|k: int|
                0 <= k < decimal(at as nat).len() && decimal(at as nat)[k] == '.';
            assert('0' <= decimal(at as nat)[k]);
        }
    }
    law_places_of_a_character(address, '.', decimal(at as nat));
}

/// Any row of a BSD listing may say that a port is listened on; it has no heading
/// that is left out.
pub proof fn law_any_bsd_row_tells(text: Seq<char>, port: u16)
    ensures
        netstat_listens(text, port) <==> exists|i: int|
            0 <= i < lines_of(text).len() && dotted_row_listens(
                #[trigger] lines_of(text)[i],
                port,
            ),
{
}

/// The port of a bind spec is the number behind its last colon, or all of it where
/// there is none, with spaces around it left out. An address before it does not
/// count, and what is no number is no port.
pub proof fn law_port_of_a_bind_spec(
    address: Seq<char>,
    a: Seq<char>,
    port: u16,
    b: Seq<char>,
    high: nat,
    name: Seq<char>,
    c: char,
    rest: Seq<char>,
)
    requires
        gap(a),
        gap(b),
        high > 65535,
        'a' <= c <= 'z',
        !name.contains(':'),
        !rest.contains(':'),
    ensures
        port_in(a + decimal(port as nat) + b) == Some(port),
        port_in(address.push(':') + (a + decimal(port as nat) + b)) == Some(port),
        port_in(address.push(':') + decimal(high)) is None,
        port_in(Seq::empty()) is None,
        port_in(address.push(':')) is None,
        port_in(address.push(':') + (name.push(c) + rest)) is None,
{
    lemma_port_behind(address, a, port, b);
    lemma_no_port_behind(address, high);
    lemma_word_is_no_port(address, name, c, rest);
}

proof fn lemma_port_behind(address: Seq<char>, a: Seq<char>, port: u16, b: Seq<char>)
    requires
        gap(a),
        gap(b),
    ensures
        port_in(a + decimal(port as nat) + b) == Some(port),
        port_in(address.push(':') + (a + decimal(port as nat) + b)) == Some(port),
{
    let d = decimal(port as nat);
    let number = a + d + b;
    lemma_decimal_digits(port as nat);
    law_decimal_reads_back(port);
    assert('0' <= d[0] <= '9' && '0' <= d[d.len() - 1] <= '9');
    law_trimming_takes_the_spaces_off(a, d, b);
    assert(!number.contains(':')) by {
        if number.contains(':') {
            let k = choose|k: int| 0 <= k < number.len() && number[k] == ':';
            if k < a.len() {
                assert(space(a[k]));
            } else if k < a.len() + d.len() {
                assert('0' <= d[k - a.len()] <= '9');
            } else {
                assert(space(b[k - a.len() - d.len()]));
            }
        }
    }
    law_places_of_a_character(address, ':', number);
}

proof fn lemma_no_port_behind(address: Seq<char>, high: nat)
    requires
        high > 65535,
    ensures
        port_in(address.push(':') + decimal(high)) is None,
        port_in(Seq::empty()) is None,
        port_in(address.push(':')) is None,
{
    let h = decimal(high);
    let none = Seq::<char>::empty();
    lemma_decimal_digits(high);
    assert('0' <= h[0] <= '9' && '0' <= h[h.len() - 1] <= '9');
    assert(!h.contains(':')) by {
        if h.contains(':') {
            let k = choose|k: int| 0 <= k < h.len() && h[k] == ':';
            assert('0' <= h[k] <= '9');
        }
    }
    law_places_of_a_character(address, ':', h);
    law_trimming_takes_the_spaces_off(none, h, none);
    assert(none + h + none =~= h);
    law_port_is_read_from_digits(0, high, none, 'x', none);
    law_places_of_a_character(address, ':', none);
    assert(address.push(':') + none =~= address.push(':'));
    crate::text::lemma_trimmed(none);
}

proof fn lemma_word_is_no_port(
    address: Seq<char>,
    name: Seq<char>,
    c: char,
    rest: Seq<char>,
)
    requires
        'a' <= c <= 'z',
        !name.contains(':'),
        !rest.contains(':'),
    ensures
        port_in(address.push(':') + (name.push(c) + rest)) is None,
{
    let word = name.push(c) + rest;
    assert(!word.contains(':')) by {
        if word.contains(':') {
            let k = choose|k: int| 0 <= k < word.len() && word[k] == ':';
            if k < name.len() {
                assert(name.contains(name[k]));
            } else if k > name.len() {
                assert(rest.contains(rest[k - name.len() - 1]));
            }
        }
    }
    law_places_of_a_character(address, ':', word);
    lemma_letter_survives(word, name.len() as int);
}

/// A letter inside a text keeps it from being a number, trimmed or not.
proof fn lemma_letter_survives(word: Seq<char>, at: int)
    requires
        0 <= at < word.len(),
        'a' <= word[at] <= 'z',
    ensures
        read_u16(trimmed(word), 10) is None,
{
    let lo = crate::text::lead(word, 0);
    crate::text::lemma_lead(word, 0);
    let t0 = word.skip(lo);
    crate::text::lemma_tail(t0, t0.len() as int);
    let hi = crate::text::tail(t0, t0.len() as int);
    let t = trimmed(word);
    assert(lo <= at) by {
        if lo > at {
            assert(crate::text::white(word[at]));
        }
    }
    assert(t0[at - lo] == word[at]);
    assert(at - lo < hi) by {
        if hi <= at - lo {
            assert(crate::text::white(t0[at - lo]));
        }
    }
    let k = at - lo;
    assert(t[k] == word[at]);
    assert(t =~= t.take(k).push(t[k]) + t.skip(k + 1));
    law_port_is_read_from_digits(0, 65536, t.take(k), t[k], t.skip(k + 1));
}

/// The status is read from the first line of an answer: what comes behind the line
/// does not count.
pub proof fn law_status_is_in_the_first_line(line: Seq<u8>, rest: Seq<u8>)
    requires
        forall|i: int| 0 <= i < line.len() ==> #[trigger] line[i] != 13u8 && line[i] != 10u8,
    ensures
        status_in(line.push(13u8) + rest) == status_in(line),
        status_in(line.push(10u8) + rest) == status_in(line),
{
    lemma_line_end(line.push(13u8) + rest, 0, line.len() as int);
    lemma_line_end(line.push(10u8) + rest, 0, line.len() as int);
    lemma_line_end(line, 0, line.len() as int);
    assert((line.push(13u8) + rest).take(line.len() as int) =~= line);
    assert((line.push(10u8) + rest).take(line.len() as int) =~= line);
    assert(line.take(line.len() as int) =~= line);
}

proof fn lemma_line_end(bytes: Seq<u8>, from: int, end: int)
    requires
        0 <= from <= end <= bytes.len(),
        forall|i: int| from <= i < end ==> #[trigger] bytes[i] != 13u8 && bytes[i] != 10u8,
        end == bytes.len() || bytes[end] == 13u8 || bytes[end] == 10u8,
    ensures
        line_end(bytes, from) == end,
    decreases end - from,
{
    if from < end {
        assert(bytes[from] != 13u8 && bytes[from] != 10u8);
        lemma_line_end(bytes, from + 1, end);
    }
}

/// The status is the second word of the line, and only an HTTP answer has one:
/// the first word says so, in version 1.0 or 1.1.
pub proof fn law_status_is_the_second_word(line: Seq<u8>, code: u16)
    requires
        forall|i: int| 0 <= i < line.len() ==> #[trigger] line[i] != 13u8 && line[i] != 10u8,
    ensures
        ({
            let said = words(decode_utf8(line));
            let http = said.len() >= 2 && (said[0] == "HTTP/1.0"@ || said[0] == "HTTP/1.1"@);
            &&& valid_utf8(line) && http && said[1] == decimal(code as nat) ==> status_in(line)
                == Some(code)
            &&& valid_utf8(line) && http ==> status_in(line) == read_u16(said[1], 10)
            &&& !valid_utf8(line) || !http ==> status_in(line) is None
        }),
{
    lemma_line_end(line, 0, line.len() as int);
    assert(line.take(line.len() as int) =~= line);
    law_decimal_reads_back(code);
}

/// A connection that nothing accepted is refused. One that was accepted is open if
/// something was read from it or it stayed silent in time, and closed if the far
/// side hung up or it broke. Only an HTTP rule has a status, whatever was read.
pub proof fn law_open_means_it_stayed(response: Vec<u8>, protocol: Protocol)
    ensures
        reached(Attempt::NotConnected, protocol).reach == Reach::Refused,
        reached(Attempt::Unbounded, protocol).reach == Reach::Open,
        reached(Attempt::Read { ended: FirstRead::Something, response }, protocol).reach
            == Reach::Open,
        reached(Attempt::Read { ended: FirstRead::TimedOut, response }, protocol).reach
            == Reach::Open,
        reached(Attempt::Read { ended: FirstRead::Nothing, response }, protocol).reach
            == Reach::Closed,
        reached(Attempt::Read { ended: FirstRead::Failed, response }, protocol).reach
            == Reach::Closed,
        forall|ended: FirstRead| #[trigger]
            reached(Attempt::Read { ended, response }, protocol).http_status == (if protocol
                == Protocol::Http {
                status_in(response@)
            } else {
                None
            }),
        reached(Attempt::NotConnected, protocol).http_status is None,
        reached(Attempt::Unbounded, protocol).http_status is None,
{
}

/// A local rule is measured at the port that it listens on, and its path by a
/// connection to that port on this machine; a remote rule by a connection to its
/// exit. What is spoken through the tunnel changes nothing about that, except that
/// UDP is not measured.
pub proof fn law_where_a_rule_is_measured(
    f: ForwardView,
    address: Seq<char>,
    port: u16,
    bound: Option<bool>,
)
    requires
        f.protocol != Protocol::Udp,
    ensures
        f.kind == Kind::Local && f.bind == address.push(':') + decimal(port as nat) ==> first_step(
            f,
        ) == StepView::Listen(port),
        f.kind == Kind::Local && f.bind == decimal(port as nat) ==> first_step(f)
            == StepView::Listen(port),
        f.kind == Kind::Remote ==> first_step(f) == StepView::Connect(f.target),
        bound != Some(false) ==> step_after_listen(port, bound) == StepView::Connect(
            "127.0.0.1:"@ + decimal(port as nat),
        ),
        step_after_listen(port, Some(false)) == StepView::Done(
            HealthView {
                process: Light::Good,
                port: Light::Bad,
                path: Light::Off,
                detail: "running but nothing is listening on "@ + decimal(port as nat),
                http_status: None,
            },
        ),
        f.kind == Kind::Local && port_in(f.bind) is None ==> (first_step(f) matches StepView::Done(
            h,
        ) && h.process == Light::Good && h.port == Light::Unknown && h.path == Light::Unknown
            && h.detail == "cannot read a port out of `"@ + f.bind + "`"@),
        first_step(ForwardView { protocol: Protocol::Tcp, ..f }) == first_step(
            ForwardView { protocol: Protocol::Http, ..f },
        ),
{
    let none = Seq::<char>::empty();
    law_port_of_a_bind_spec(address, none, port, none, 65536, none, 'x', none);
    assert(none + decimal(port as nat) + none =~= decimal(port as nat));
}

/// What each light says once a connection was tried: the process is up; the port is
/// what was seen of it, or unknown; the path is good if and only if the connection
/// stayed open; and an open path leaves nothing to explain for a local rule, while
/// a broken one says what broke. The status of an HTTP answer is kept.
pub proof fn law_lights_after_a_connection(
    f: ForwardView,
    bound: Option<bool>,
    result: ReachResult,
)
    ensures
        ({
            let h = health_after_connect(f, bound, result);
            &&& h.process == Light::Good
            &&& f.kind == Kind::Local && bound is Some ==> h.port == Light::Good
            &&& f.kind == Kind::Local && bound is None ==> h.port == Light::Unknown
            &&& f.kind == Kind::Remote ==> h.port == Light::Unknown
            &&& h.path == Light::Good <==> result.reach == Reach::Open
            &&& h.path == Light::Bad <==> result.reach != Reach::Open
            &&& f.kind == Kind::Local && result.reach == Reach::Open ==> h.detail.len() == 0
                && h.http_status == result.http_status
            &&& f.kind == Kind::Local && result.reach == Reach::Closed ==> h.detail
                == "tunnel is up but "@ + f.target + " refused it"@
            &&& f.kind == Kind::Local && result.reach == Reach::Refused ==> h.detail
                == "nothing accepted a connection on "@ + decimal(port_in(f.bind)->0 as nat)
            &&& f.kind == Kind::Remote || result.reach != Reach::Open ==> h.http_status is None
            &&& f.kind == Kind::Remote && result.reach != Reach::Open ==> h.detail
                == "nothing is serving "@ + f.target + " on this machine"@
            &&& f.kind == Kind::Remote && result.reach == Reach::Open ==> h.detail
                == "remote bind is not visible from here; needs GatewayPorts to reach it from a third machine"@
        }),
{
}

/// A look at this machine alone says that the process is up and what its port is,
/// and nothing of its path. Only the port of a local rule can be seen.
pub proof fn law_a_look_says_nothing_of_the_path(f: ForwardView, listening: Option<bool>)
    ensures
        ({
            let h = observed(f, listening);
            let seen = f.kind == Kind::Local && f.protocol != Protocol::Udp && port_in(f.bind)
                is Some;
            &&& h.process == Light::Good
            &&& h.path == Light::Unknown
            &&& h.http_status is None
            &&& h.port == Light::Good <==> seen && listening == Some(true)
            &&& h.port == Light::Bad <==> seen && listening == Some(false)
            &&& h.port == Light::Good ==> h.detail.len() == 0
            &&& h.port == Light::Bad ==> h.detail == "running but nothing is listening on "@
                + f.bind
            &&& f.protocol == Protocol::Udp ==> h.detail
                == "UDP cannot be verified through SSH TCP forwarding"@ && first_step(f)
                == StepView::Done(h)
            &&& f.protocol != Protocol::Udp && f.kind == Kind::Remote ==> h.detail
                == "remote bind is not visible from this machine"@
            &&& f.protocol != Protocol::Udp && f.kind == Kind::Local && h.port == Light::Unknown
                ==> h.detail == "cannot read a port out of `"@ + f.bind + "`"@
            &&& watched_port(f) == (if seen {
                port_in(f.bind)
            } else {
                None
            })
        }),
{
}

/// Each light has a sign of its own, of one character, and the three signs stand in
/// the order process, port, path with a space between.
pub proof fn law_signs_tell_the_lights_apart(a: Light, b: Light, h: HealthView)
    ensures
        a != b ==> symbol_of(a) != symbol_of(b),
        symbol_of(Light::Good) == seq!['*'],
        symbol_of(Light::Bad) == seq!['x'],
        symbol_of(Light::Off) == seq!['o'],
        symbol_of(Light::Unknown) == seq!['-'],
        lights_of(h) == symbol_of(h.process).push(' ') + symbol_of(h.port).push(' ') + symbol_of(
            h.path,
        ),
{
    reveal_strlit("*");
    reveal_strlit("x");
    reveal_strlit("o");
    reveal_strlit("-");
    reveal_strlit(" ");
    lemma_signs(a);
    lemma_signs(b);
    assert(symbol_of(Light::Good) =~= seq!['*']);
    assert(symbol_of(Light::Bad) =~= seq!['x']);
    assert(symbol_of(Light::Off) =~= seq!['o']);
    assert(symbol_of(Light::Unknown) =~= seq!['-']);
    assert(lights_of(h) =~= symbol_of(h.process).push(' ') + symbol_of(h.port).push(' ')
        + symbol_of(h.path));
}

proof fn lemma_signs(a: Light)
    ensures
        symbol_of(a).len() == 1,
        symbol_of(a)[0] == (match a {
            Light::Good => '*',
            Light::Bad => 'x',
            Light::Off => 'o',
            Light::Unknown => '-',
        }),
{
    reveal_strlit("*");
    reveal_strlit("x");
    reveal_strlit("o");
    reveal_strlit("-");
}

} // verus!
