//! What a listing of ports comes to: which lines count, how a binding is read, and
//! what is said of a port.

use vstd::prelude::*;
use crate::argv_laws::lemma_behind_last;
use crate::discover::{
    addresses, before_brackets, binding, bindings, bound, bracket, endpoint, endpoint_at, first_line,
    listener_on, listing, loopback, past_brackets, ranks_before, unbracketed, ListenerView,
};
use crate::find::{begins, last_of, lemma_last_of};
use crate::number::{decimal, law_decimal_reads_back, lemma_decimal_digits, read_u16};
use crate::config_laws::lemma_first_piece;
use crate::split::{joined, strip_return, words};
use crate::text_laws::{law_lines_end_in_line_feeds, law_places_of_a_character, lemma_no_digits};

verus! {

/// Only the machine itself can be reached at the address: it is `localhost`, `::1`,
/// or one that begins with `127.`.
pub open spec fn own_address(a: Seq<char>) -> bool {
    ||| a == "localhost"@
    ||| a == "::1"@
    ||| a.len() >= 4 && a[0] == '1' && a[1] == '2' && a[2] == '7' && a[3] == '.'
}

/// A port is said to be reachable from its machine alone if and only if every
/// address it is bound to is one of those; a single other address, such as one of
/// the local network or one that stands for all, is enough to say that it is not.
pub proof fn law_loopback_means_every_address(
    bs: Seq<(Seq<char>, u16)>,
    list: Seq<ListenerView>,
    i: int,
)
    requires
        listing(bs, list),
        0 <= i < list.len(),
    ensures
        list[i].loopback <==> forall|k: int|
            0 <= k < bs.len() && (#[trigger] bs[k]).1 == list[i].port ==> own_address(bs[k].0),
{
    assert(list[i] == listener_on(bs, list[i].port));
    assert forall|a: Seq<char>| #[trigger] loopback(a) <==> own_address(a) by {
        lemma_own_address(a);
    }
    if list[i].loopback {
        assert forall|k: int|
            0 <= k < bs.len() && (#[trigger] bs[k]).1 == list[i].port implies own_address(
            bs[k].0,
        ) by {
            assert(loopback(bs[k].0));
        }
    } else {
        let k = choose|k: int|
            0 <= k < bs.len() && (#[trigger] bs[k]).1 == list[i].port && !loopback(bs[k].0);
        assert(!own_address(bs[k].0));
    }
}

proof fn lemma_own_address(a: Seq<char>)
    ensures
        loopback(a) <==> own_address(a),
{
    reveal_strlit("127.0.0.1");
    reveal_strlit("127.");
    reveal_strlit("::1");
    reveal_strlit("localhost");
    if begins(a, "127."@) {
        assert(a.take(4)[0] == a[0] && a.take(4)[1] == a[1] && a.take(4)[2] == a[2] && a.take(4)[3]
            == a[3]);
    }
    if a.len() >= 4 && a[0] == '1' && a[1] == '2' && a[2] == '7' && a[3] == '.' {
        assert(a.take(4) =~= "127."@);
    }
}

/// The port is in the list.
pub open spec fn lists(list: Seq<ListenerView>, port: u16) -> bool {
    exists|i: int| 0 <= i < list.len() && (#[trigger] list[i]).port == port
}

/// One of the bindings is of the port.
pub open spec fn binds(bs: Seq<(Seq<char>, u16)>, port: u16) -> bool {
    exists|k: int| 0 <= k < bs.len() && (#[trigger] bs[k]).1 == port
}

/// Every bound port is listed and no other; those that only their machine can reach
/// come first, and within either kind the lower port does.
pub proof fn law_every_bound_port_is_listed_in_order(
    bs: Seq<(Seq<char>, u16)>,
    list: Seq<ListenerView>,
)
    requires
        listing(bs, list),
    ensures
        forall|port: u16| #[trigger] lists(list, port) <==> binds(bs, port),
        forall|i: int, j: int|
            0 <= i < j < list.len() && (#[trigger] list[i]).loopback == (#[trigger] list[j]).loopback
                ==> list[i].port < list[j].port,
        forall|i: int, j: int|
            0 <= i < j < list.len() && (#[trigger] list[j]).loopback ==> (
            #[trigger] list[i]).loopback,
{
    assert forall|port: u16| #[trigger] lists(list, port) <==> binds(bs, port) by {
        if lists(list, port) {
            let i = choose|i: int| 0 <= i < list.len() && (#[trigger] list[i]).port == port;
            assert(bound(bs, list[i].port));
        }
        if binds(bs, port) {
            assert(bound(bs, port));
        }
    }
    assert forall|i: int, j: int|
        0 <= i < j < list.len() && (#[trigger] list[i]).loopback == (
        #[trigger] list[j]).loopback implies list[i].port < list[j].port by {
        assert(ranks_before(list[i], list[j]));
    }
    assert forall|i: int, j: int|
        0 <= i < j < list.len() && (#[trigger] list[j]).loopback implies (
    #[trigger] list[i]).loopback by {
        assert(ranks_before(list[i], list[j]));
    }
}

/// The addresses of a port are shown one behind the other with a comma between:
/// each that it is bound to, once, in the order they were first seen.
pub proof fn law_addresses_are_shown_once(
    bs: Seq<(Seq<char>, u16)>,
    list: Seq<ListenerView>,
    i: int,
)
    requires
        listing(bs, list),
        0 <= i < list.len(),
    ensures
        exists|shown: Seq<Seq<char>>| {
            &&& list[i].address == #[trigger] joined(shown, ", "@)
            &&& forall|a: Seq<char>| #[trigger]
                shown.contains(a) <==> exists|k: int|
                    0 <= k < bs.len() && #[trigger] bs[k] == (a, list[i].port)
            &&& forall|x: int, y: int|
                0 <= x < y < shown.len() ==> #[trigger] shown[x] != #[trigger] shown[y]
                    && seen_before(bs, list[i].port, shown[x], shown[y])
        },
{
    let port = list[i].port;
    assert(list[i] == listener_on(bs, port));
    let shown = addresses(bs, port);
    lemma_addresses(bs, port);
    assert(list[i].address == joined(shown, ", "@));
}

/// The port was seen bound to `a` before it was seen bound to `b`.
pub open spec fn seen_before(
    bs: Seq<(Seq<char>, u16)>,
    port: u16,
    a: Seq<char>,
    b: Seq<char>,
) -> bool {
    exists|k: int|
        0 <= k < bs.len() && #[trigger] bs[k] == (a, port) && forall|m: int|
            0 <= m <= k ==> #[trigger] bs[m] != (b, port)
}

proof fn lemma_addresses(bs: Seq<(Seq<char>, u16)>, port: u16)
    ensures
        forall|a: Seq<char>| #[trigger]
            addresses(bs, port).contains(a) <==> exists|k: int|
                0 <= k < bs.len() && #[trigger] bs[k] == (a, port),
        forall|x: int, y: int|
            0 <= x < y < addresses(bs, port).len() ==> #[trigger] addresses(bs, port)[x]
                != #[trigger] addresses(bs, port)[y] && seen_before(
                bs,
                port,
                addresses(bs, port)[x],
                addresses(bs, port)[y],
            ),
    decreases bs.len(),
{
    if bs.len() > 0 {
        let init = bs.drop_last();
        lemma_addresses(init, port);
        let before = addresses(init, port);
        let all = addresses(bs, port);
        let last = bs.last();
        assert forall|a: Seq<char>| #[trigger] all.contains(a) <==> exists|k: int|
            0 <= k < bs.len() && #[trigger] bs[k] == (a, port) by {
            if all.contains(a) {
                let x = choose|x: int| 0 <= x < all.len() && all[x] == a;
                if x < before.len() {
                    assert(before[x] == a);
                    assert(before.contains(a));
                    let k = choose|k: int| 0 <= k < init.len() && #[trigger] init[k] == (a, port);
                    assert(bs[k] == (a, port));
                } else {
                    assert(bs[bs.len() - 1] == (a, port));
                }
            }
            if exists|k: int| 0 <= k < bs.len() && #[trigger] bs[k] == (a, port) {
                let k = choose|k: int| 0 <= k < bs.len() && #[trigger] bs[k] == (a, port);
                if k < init.len() {
                    assert(init[k] == (a, port));
                    assert(before.contains(a));
                    let x = choose|x: int| 0 <= x < before.len() && before[x] == a;
                    assert(all[x] == a);
                } else if before.contains(a) {
                    let x = choose|x: int| 0 <= x < before.len() && before[x] == a;
                    assert(all[x] == a);
                } else {
                    assert(all[before.len() as int] == a);
                }
            }
        }
        assert forall|x: int, y: int| 0 <= x < y < all.len() implies #[trigger] all[x]
            != #[trigger] all[y] && seen_before(bs, port, all[x], all[y]) by {
            assert(all[x] == before[x]);
            assert(before.contains(before[x]));
            let k = if y < before.len() {
                assert(before[x] != before[y]);
                assert(seen_before(init, port, before[x], before[y]));
                choose|k: int|
                    0 <= k < init.len() && #[trigger] init[k] == (before[x], port) && forall|m: int|
                        0 <= m <= k ==> #[trigger] init[m] != (before[y], port)
            } else {
                assert(!before.contains(all[y]));
                choose|k: int| 0 <= k < init.len() && #[trigger] init[k] == (before[x], port)
            };
            assert(bs[k] == (all[x], port));
            assert forall|m: int| 0 <= m <= k implies #[trigger] bs[m] != (all[y], port) by {
                assert(init[m] == bs[m]);
            }
        }
    }
}

/// The bindings of more lines are those of the lines before, and then what the last
/// line tells of.
pub proof fn law_each_line_is_read_by_itself(above: Seq<Seq<char>>, line: Seq<char>)
    ensures
        binding(line) is None ==> bindings(above.push(line)) == bindings(above),
        binding(line) matches Some(b) ==> bindings(above.push(line)) == bindings(above).push(b),
        bindings(Seq::empty()).len() == 0,
{
    assert(above.push(line).drop_last() =~= above);
}

/// The first line of a text is what stands before its first line end.
pub proof fn law_first_line_ends_at_the_first_break(line: Seq<char>, rest: Seq<char>)
    requires
        line.len() > 0,
        !line.contains('\n'),
        line.last() != '\r',
    ensures
        first_line(line) == line,
        first_line(line.push('\n') + rest) == line,
        first_line(line.push('\r').push('\n') + rest) == line,
        first_line(Seq::empty()).len() == 0,
{
    law_lines_end_in_line_feeds(line, line);
    lemma_first_piece(line, rest, '\n');
    let returned = line.push('\r');
    assert(!returned.contains('\n')) by {
        if returned.contains('\n') {
            let k = choose|k: int| 0 <= k < returned.len() && returned[k] == '\n';
            assert(line[k] == '\n');
        }
    }
    lemma_first_piece(returned, rest, '\n');
    assert(strip_return(returned) =~= line);
}

/// An address that is written without brackets around it.
pub open spec fn unwrapped(a: Seq<char>) -> bool {
    a.len() > 0 && a[0] != '[' && a[0] != ']' && a.last() != '[' && a.last() != ']'
}

/// The line of a listening socket tells of the address and port in its fourth
/// column: the line begins with `LISTEN`, or with `tcp` and ends in `LISTEN`. The
/// port stands behind the last colon, or behind the last dot, and the address
/// before it loses the brackets around it. Any other line tells of nothing.
pub proof fn law_listening_lines_tell_of_bindings(
    line: Seq<char>,
    address: Seq<char>,
    port: u16,
)
    requires
        unwrapped(address),
    ensures
        ({
            let ws = words(line);
            let listens = ws.len() > 3 && (ws[0] == "LISTEN"@ || (ws[0].len() >= 3 && ws[0].take(3)
                == "tcp"@ && ws.last() == "LISTEN"@));
            let number = decimal(port as nat);
            &&& !listens ==> binding(line) is None
            &&& listens && ws[3] == address.push(':') + number ==> binding(line) == Some(
                (address, port),
            )
            &&& listens && ws[3] == (seq!['['] + address).push(']').push(':') + number ==> binding(
                line,
            ) == Some((address, port))
            &&& listens && ws[3] == address.push('.') + number ==> binding(line) == Some(
                (address, port),
            )
            &&& listens && !ws[3].contains(':') && !ws[3].contains('.') ==> binding(line) is None
            &&& listens && ws[3].len() > 0 && !('0' <= ws[3].last() <= '9') ==> binding(line) is None
        }),
{
    reveal_strlit("tcp");
    let number = decimal(port as nat);
    law_decimal_reads_back(port);
    lemma_decimal_digits(port as nat);
    lemma_free_of(number, ':');
    lemma_free_of(number, '.');
    let wrapped = (seq!['['] + address).push(']');
    lemma_endpoint_at(address, ':', port);
    lemma_endpoint_at(wrapped, ':', port);
    lemma_endpoint_at(address, '.', port);
    lemma_unwrapped(address);
    lemma_wrapped(address);
    let dotted = address.push('.') + number;
    // The colon is tried first, and what is behind it is no number.
    lemma_last_of(dotted, ':');
    let i = last_of(dotted, ':');
    if i >= 0 {
        assert(dotted[address.len() as int] == '.');
        assert(i < address.len()) by {
            if i > address.len() {
                assert(dotted[i] == number[i - address.len() - 1]);
                assert(number.contains(':'));
            }
        }
        let behind = dotted.skip(i + 1);
        let k = address.len() - i - 1;
        assert(behind[k] == '.');
        lemma_no_digits(behind, 10, k);
        if behind.len() > 1 && behind[0] == '+' {
            assert(k > 0);
            assert(behind.skip(1)[k - 1] == '.');
            lemma_no_digits(behind.skip(1), 10, k - 1);
        }
    }
    let ws = words(line);
    if ws.len() > 3 && ws[3].len() > 0 && !('0' <= ws[3].last() <= '9') {
        lemma_no_port(ws[3], ':');
        lemma_no_port(ws[3], '.');
    }
    if ws.len() > 3 && !ws[3].contains(':') && !ws[3].contains('.') {
        lemma_last_of(ws[3], ':');
        lemma_last_of(ws[3], '.');
        if last_of(ws[3], ':') >= 0 {
            assert(ws[3].contains(ws[3][last_of(ws[3], ':')]));
        }
        if last_of(ws[3], '.') >= 0 {
            assert(ws[3].contains(ws[3][last_of(ws[3], '.')]));
        }
    }
}

proof fn lemma_free_of(number: Seq<char>, c: char)
    requires
        forall|i: int| 0 <= i < number.len() ==> '0' <= #[trigger] number[i] <= '9',
        c == ':' || c == '.',
    ensures
        !number.contains(c),
{
    if number.contains(c) {
        let k = choose|k: int| 0 <= k < number.len() && number[k] == c;
        assert('0' <= number[k] <= '9');
    }
}

proof fn lemma_endpoint_at(head: Seq<char>, c: char, port: u16)
    requires
        c == ':' || c == '.',
    ensures
        endpoint_at(head.push(c) + decimal(port as nat), c) == Some((unbracketed(head), port)),
{
    let number = decimal(port as nat);
    law_decimal_reads_back(port);
    lemma_decimal_digits(port as nat);
    lemma_free_of(number, c);
    lemma_behind_last(head, number, c);
    let local = head.push(c) + number;
    assert(local.skip(head.len() as int + 1) =~= number);
    assert(local.take(head.len() as int) =~= head);
}

proof fn lemma_no_port(local: Seq<char>, c: char)
    requires
        local.len() > 0,
        !('0' <= local.last() <= '9'),
    ensures
        endpoint_at(local, c) is None,
{
    lemma_last_of(local, c);
    let i = last_of(local, c);
    let behind = local.skip(i + 1);
    let n = behind.len() as int;
    if i >= 0 && n > 0 {
        assert(behind[n - 1] == local.last());
        lemma_no_digits(behind, 10, n - 1);
        if n > 1 && behind[0] == '+' {
            assert(behind.skip(1)[n - 2] == local.last());
            lemma_no_digits(behind.skip(1), 10, n - 2);
        }
    }
}

proof fn lemma_unwrapped(a: Seq<char>)
    requires
        unwrapped(a),
    ensures
        unbracketed(a) == a,
{
    assert(past_brackets(a, 0) == 0);
    assert(before_brackets(a, 0, a.len() as int) == a.len());
    assert(a.subrange(0, a.len() as int) =~= a);
}

proof fn lemma_wrapped(a: Seq<char>)
    requires
        unwrapped(a),
    ensures
        unbracketed((seq!['['] + a).push(']')) == a,
{
    let s = (seq!['['] + a).push(']');
    let n = s.len() as int;
    assert(s[0] == '[' && s[1] == a[0] && s[n - 1] == ']' && s[n - 2] == a.last());
    assert(past_brackets(s, 1) == 1);
    assert(past_brackets(s, 0) == 1);
    assert(before_brackets(s, 1, n - 1) == n - 1);
    assert(before_brackets(s, 1, n) == n - 1);
    assert(s.subrange(1, n - 1) =~= a);
}

} // verus!
