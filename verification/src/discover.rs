//! What a host is listening on.

use vstd::prelude::*;
use crate::command::CommandOutput;
use crate::find::{begins, last_of, rfind, starts_with};
use crate::number::{parse_u16, read_u16};
use crate::split::{join, joined, lines, lines_of, split_words, words};
use crate::text::{chars, lemma_views_push, same, trim, trimmed, views};

verus! {

/// A port something is listening on, on the far side.
#[derive(Debug, Clone, PartialEq, Eq)]
pub struct Listener {
    pub port: u16,
    /// The addresses it was seen bound to, joined for display.
    pub address: String,
    /// True only when *every* binding of this port is a loopback address.
    ///
    /// These are the ones worth forwarding: nothing outside that machine can
    /// reach them, which is the entire reason `-L` exists. A port also bound to
    /// `0.0.0.0` is already reachable directly.
    pub loopback: bool,
}

/// What a [`Listener`] says.
#[verifier::ext_equal]
pub struct ListenerView {
    pub port: u16,
    pub address: Seq<char>,
    pub loopback: bool,
}

impl View for Listener {
    type V = ListenerView;

    open spec fn view(&self) -> ListenerView {
        ListenerView { port: self.port, address: self.address@, loopback: self.loopback }
    }
}

/// The command that lists listening sockets on the far side.
///
/// `ss` is not on every machine, so the fallback is wrapped in `sh -c` rather
/// than sent as a bare `a || b`: a login shell may be fish, whose syntax differs
/// enough that shell one-liners are a standing trap. `sh -c '<one argument>'`
/// parses identically in both.
///
/// The third form is for a BSD host (macOS): `ss` is absent there and BSD
/// netstat takes neither `-t` nor `-l`. It prints a different listing, which
/// [`parse`] has to tell apart -- see there.
pub const REMOTE: &'static str =
    "sh -c 'ss -tlnH 2>/dev/null || netstat -tln 2>/dev/null || netstat -an -p tcp'";

/// Arguments for the `ssh` that asks `host` what it is listening on.
pub fn listener_args(host: &str) -> (r: Vec<String>)
    ensures
        views(r@) == seq![
            "-o"@,
            "BatchMode=yes"@,
            "-o"@,
            "ConnectTimeout=10"@,
            host@,
            REMOTE@,
        ],
{
    let mut out: Vec<String> = Vec::new();
    out.push("-o".to_owned());
    out.push("BatchMode=yes".to_owned());
    out.push("-o".to_owned());
    out.push("ConnectTimeout=10".to_owned());
    out.push(host.to_owned());
    out.push(REMOTE.to_owned());
    assert(views(out@) =~= seq![
        "-o"@,
        "BatchMode=yes"@,
        "-o"@,
        "ConnectTimeout=10"@,
        host@,
        REMOTE@,
    ]);
    out
}

/// A bracket around an address.
pub open spec fn bracket(c: char) -> bool {
    c == '[' || c == ']'
}

/// The first position at or after `from` that holds no bracket.
pub open spec fn past_brackets(s: Seq<char>, from: int) -> int
    decreases s.len() - from,
{
    if from >= s.len() {
        s.len() as int
    } else if bracket(s[from]) {
        past_brackets(s, from + 1)
    } else {
        from
    }
}

/// One past the last position before `to`, and not before `from`, that holds no
/// bracket.
pub open spec fn before_brackets(s: Seq<char>, from: int, to: int) -> int
    decreases to - from,
{
    if to <= from {
        from
    } else if bracket(s[to - 1]) {
        before_brackets(s, from, to - 1)
    } else {
        to
    }
}

/// An address without the brackets around it.
pub open spec fn unbracketed(s: Seq<char>) -> Seq<char> {
    let from = past_brackets(s, 0);
    s.subrange(from, before_brackets(s, from, s.len() as int))
}

/// The address and port around the last `separator`.
pub open spec fn endpoint_at(local: Seq<char>, separator: char) -> Option<(Seq<char>, u16)> {
    let i = last_of(local, separator);
    if i < 0 {
        None
    } else {
        match read_u16(local.skip(i + 1), 10) {
            Some(port) => Some((unbracketed(local.take(i)), port)),
            None => None,
        }
    }
}

/// The address and port of `127.0.0.1:8080`, `[::1]:631` or, from BSD netstat,
/// `127.0.0.1.6022`.
pub open spec fn endpoint(local: Seq<char>) -> Option<(Seq<char>, u16)> {
    match endpoint_at(local, ':') {
        Some(e) => Some(e),
        None => endpoint_at(local, '.'),
    }
}

/// An address that only the machine itself can reach.
pub open spec fn loopback(address: Seq<char>) -> bool {
    ||| address == "127.0.0.1"@
    ||| address == "::1"@
    ||| address == "localhost"@
    ||| begins(address, "127."@)
}

/// The binding that a line of a listing tells of: the address and port in its
/// fourth column, if it is a listener's.
pub open spec fn binding(line: Seq<char>) -> Option<(Seq<char>, u16)> {
    let fields = words(line);
    if fields.len() > 3 && (fields[0] == "LISTEN"@ || (begins(fields[0], "tcp"@) && fields.last()
        == "LISTEN"@)) {
        endpoint(fields[3])
    } else {
        None
    }
}

/// The bindings that the lines tell of, in order.
pub open spec fn bindings(ls: Seq<Seq<char>>) -> Seq<(Seq<char>, u16)>
    decreases ls.len(),
{
    if ls.len() == 0 {
        Seq::empty()
    } else {
        let before = bindings(ls.drop_last());
        match binding(ls.last()) {
            Some(b) => before.push(b),
            None => before,
        }
    }
}

/// The port is bound.
pub open spec fn bound(bs: Seq<(Seq<char>, u16)>, port: u16) -> bool {
    exists|i: int| 0 <= i < bs.len() && (#[trigger] bs[i]).1 == port
}

/// The addresses a port is bound to, each once, in the order first seen.
pub open spec fn addresses(bs: Seq<(Seq<char>, u16)>, port: u16) -> Seq<Seq<char>>
    decreases bs.len(),
{
    if bs.len() == 0 {
        Seq::empty()
    } else {
        let before = addresses(bs.drop_last(), port);
        if bs.last().1 == port && !before.contains(bs.last().0) {
            before.push(bs.last().0)
        } else {
            before
        }
    }
}

/// Every binding of the port is a loopback address.
pub open spec fn only_loopback(bs: Seq<(Seq<char>, u16)>, port: u16) -> bool {
    forall|i: int| 0 <= i < bs.len() && (#[trigger] bs[i]).1 == port ==> loopback(bs[i].0)
}

/// What there is to say of a port.
pub open spec fn listener_on(bs: Seq<(Seq<char>, u16)>, port: u16) -> ListenerView {
    ListenerView {
        port,
        address: joined(addresses(bs, port), ", "@),
        loopback: only_loopback(bs, port),
    }
}

/// `a` comes before `b`: what is loopback only comes first, then the lower
/// port.
pub open spec fn ranks_before(a: ListenerView, b: ListenerView) -> bool {
    if a.loopback != b.loopback {
        a.loopback
    } else {
        a.port < b.port
    }
}

/// `list` holds what there is to say of each bound port, once, in order.
pub open spec fn listing(bs: Seq<(Seq<char>, u16)>, list: Seq<ListenerView>) -> bool {
    &&& forall|i: int|
        0 <= i < list.len() ==> bound(bs, (#[trigger] list[i]).port) && list[i] == listener_on(
            bs,
            list[i].port,
        )
    &&& forall|port: u16| #[trigger]
        bound(bs, port) ==> exists|i: int| 0 <= i < list.len() && (#[trigger] list[i]).port == port
    &&& forall|i: int, j: int|
        0 <= i < j < list.len() ==> ranks_before(#[trigger] list[i], #[trigger] list[j])
}

/// The address and port around the last `separator`.
fn split_at_last(cs: &[char], local: &str, separator: char) -> (r: Option<(String, u16)>)
    requires
        cs@ == local@,
    ensures
        (match r {
            Some((a, p)) => Some((a@, p)),
            None => None,
        }) == endpoint_at(local@, separator),
{
    match rfind(cs, separator) {
        Some(i) => {
            let n: usize = cs.len();
            assert(local@.subrange(i + 1, n as int) =~= local@.skip(i + 1));
            match parse_u16(local.substring_char(i + 1, n), 10) {
                Some(port) => {
                    let ghost head = local@.take(i as int);
                    let mut lo: usize = 0;
                    while lo < i && (cs[lo] == '[' || cs[lo] == ']')
                        invariant
                            cs@ == local@,
                            lo <= i < cs@.len(),
                            head == local@.take(i as int),
                            past_brackets(head, 0) == past_brackets(head, lo as int),
                        decreases i - lo,
                    {
                        lo += 1;
                    }
                    let mut hi: usize = i;
                    while hi > lo && (cs[hi - 1] == '[' || cs[hi - 1] == ']')
                        invariant
                            cs@ == local@,
                            lo <= hi <= i < cs@.len(),
                            head == local@.take(i as int),
                            before_brackets(head, lo as int, i as int) == before_brackets(
                                head,
                                lo as int,
                                hi as int,
                            ),
                        decreases hi,
                    {
                        hi -= 1;
                    }
                    proof {
                        assert(past_brackets(head, 0) == lo);
                        assert(before_brackets(head, lo as int, i as int) == hi);
                        assert(local@.subrange(lo as int, hi as int) =~= unbracketed(head));
                    }
                    Some((local.substring_char(lo, hi).to_owned(), port))
                },
                None => None,
            }
        },
        None => None,
    }
}

/// The address and port of a local endpoint.
///
/// The colon is tried first and rejected on the port not parsing, which is what
/// keeps `::1.6022` from splitting into `::` and `1.6022`.
fn split_endpoint(local: &str) -> (r: Option<(String, u16)>)
    ensures
        (match r {
            Some((a, p)) => Some((a@, p)),
            None => None,
        }) == endpoint(local@),
{
    let cs: Vec<char> = chars(local);
    match split_at_last(cs.as_slice(), local, ':') {
        Some(found) => Some(found),
        None => split_at_last(cs.as_slice(), local, '.'),
    }
}

/// Whether only the machine itself can reach the address.
fn is_loopback(address: &str) -> (r: bool)
    ensures
        r == loopback(address@),
{
    same(address, "127.0.0.1") || same(address, "::1") || same(address, "localhost") || starts_with(
        address,
        "127.",
    )
}

/// The binding that a line tells of.
fn read_binding(line: &str) -> (r: Option<(String, u16)>)
    ensures
        (match r {
            Some((a, p)) => Some((a@, p)),
            None => None,
        }) == binding(line@),
{
    let fields: Vec<String> = split_words(line);
    let n: usize = fields.len();
    let ghost all = words(line@);
    assert(all.len() == n);
    if n <= 3 {
        return None;
    }
    proof {
        assert(all[0] == fields@[0]@);
        assert(all[3] == fields@[3]@);
        assert(all.last() == fields@[n - 1]@);
    }
    let first: &str = fields[0].as_str();
    if same(first, "LISTEN") || (starts_with(first, "tcp") && same(
        fields[n - 1].as_str(),
        "LISTEN",
    )) {
        split_endpoint(fields[3].as_str())
    } else {
        None
    }
}

/// What the bindings say.
spec fn rows_view(rows: Seq<(String, u16)>) -> Seq<(Seq<char>, u16)> {
    Seq::new(rows.len(), |i: int| (rows[i].0@, rows[i].1))
}

/// Whether one of the texts is `x`.
fn among(list: &[String], x: &str) -> (r: bool)
    ensures
        r == views(list@).contains(x@),
{
    let mut i: usize = 0;
    while i < list.len()
        invariant
            i <= list@.len(),
            forall|k: int| 0 <= k < i ==> #[trigger] views(list@)[k] != x@,
        decreases list@.len() - i,
    {
        assert(views(list@)[i as int] == list@[i as int]@);
        if same(list[i].as_str(), x) {
            return true;
        }
        i += 1;
    }
    false
}

/// What there is to say of a port.
fn describe(rows: &[(String, u16)], port: u16) -> (r: Listener)
    ensures
        r@ == listener_on(rows_view(rows@), port),
{
    let ghost bs = rows_view(rows@);
    let mut list: Vec<String> = Vec::new();
    let mut local: bool = true;
    let mut i: usize = 0;
    assert(views(list@) =~= addresses(bs.take(0), port));
    while i < rows.len()
        invariant
            bs == rows_view(rows@),
            i <= rows@.len(),
            views(list@) == addresses(bs.take(i as int), port),
            local == (forall|k: int|
                0 <= k < i && (#[trigger] bs[k]).1 == port ==> loopback(bs[k].0)),
        decreases rows@.len() - i,
    {
        let ghost before = list@;
        proof {
            assert(bs.take(i + 1).drop_last() =~= bs.take(i as int));
            assert(bs.take(i + 1).last() == bs[i as int]);
            assert(bs[i as int].0 == rows@[i as int].0@);
        }
        if rows[i].1 == port {
            // One non-loopback binding is enough to make the port directly
            // reachable, so this can only ever be turned off.
            if !is_loopback(rows[i].0.as_str()) {
                local = false;
            }
            if !among(list.as_slice(), rows[i].0.as_str()) {
                list.push(rows[i].0.clone());
                proof {
                    lemma_views_push(before, list@.last());
                }
            }
        }
        i += 1;
    }
    assert(bs.take(i as int) =~= bs);
    Listener { port, address: join(list.as_slice(), ", "), loopback: local }
}

/// Whether `a` comes before `b`.
fn goes_first(a: &Listener, b: &Listener) -> (r: bool)
    ensures
        r == ranks_before(a@, b@),
{
    if a.loopback != b.loopback {
        a.loopback
    } else {
        a.port < b.port
    }
}

/// Put a listener where it belongs.
fn insert_ranked(list: &mut Vec<Listener>, item: Listener)
    requires
        forall|i: int, j: int|
            0 <= i < j < old(list)@.len() ==> ranks_before(
                (#[trigger] old(list)@[i])@,
                (#[trigger] old(list)@[j])@,
            ),
        forall|i: int| 0 <= i < old(list)@.len() ==> (#[trigger] old(list)@[i])@.port != item@.port,
    ensures
        exists|at: int|
            0 <= at <= old(list)@.len() && final(list)@ == #[trigger] old(list)@.insert(at, item),
        forall|i: int, j: int|
            0 <= i < j < final(list)@.len() ==> ranks_before(
                (#[trigger] final(list)@[i])@,
                (#[trigger] final(list)@[j])@,
            ),
{
    let ghost was = list@;
    let mut at: usize = 0;
    while at < list.len() && goes_first(&list[at], &item)
        invariant
            list@ == was,
            at <= list@.len(),
            forall|i: int| 0 <= i < at ==> ranks_before((#[trigger] was[i])@, item@),
        decreases list@.len() - at,
    {
        at += 1;
    }
    let ghost x = item@;
    list.insert(at, item);
    proof {
        let now = list@;
        assert(now == was.insert(at as int, item));
        assert forall|i: int, j: int| 0 <= i < j < now.len() implies ranks_before(
            (#[trigger] now[i])@,
            (#[trigger] now[j])@,
        ) by {
            if j == at {
                assert(now[i] == was[i]);
            } else if i == at {
                assert(now[j] == was[j - 1]);
                assert(!ranks_before(was[at as int]@, x));
                if j - 1 > at {
                    assert(ranks_before(was[at as int]@, was[j - 1]@));
                }
            } else {
                let a = if i < at {
                    i
                } else {
                    i - 1
                };
                let b = if j < at {
                    j
                } else {
                    j - 1
                };
                assert(now[i] == was[a]);
                assert(now[j] == was[b]);
            }
        }
    }
}

/// Pull the listening ports out of any of the three tools' output.
///
/// All of them put the local address in the fourth column, so the difference is
/// which lines count: `ss -tlnH` emits `LISTEN ...` with no header, GNU
/// `netstat -tln` emits two header lines and rows starting `tcp`/`tcp6`, and
/// BSD `netstat -an -p tcp` starts its rows `tcp4`/`tcp6`/`tcp46`.
///
/// **BSD rows have to be filtered by the state column.** `-an` lists every
/// connection, not only listeners; without that check the far port of every
/// outbound connection is offered as a port to forward.
///
/// Ports are merged across address families -- `127.0.0.1:631` and `[::1]:631`
/// are one service, and listing them twice would have you forward the same
/// thing twice. Loopback-only ports come first: they are the ones that cannot
/// be reached any other way.
pub fn parse(text: &str) -> (r: Vec<Listener>)
    ensures
        listing(bindings(lines_of(text@)), views(r@)),
{
    let ls: Vec<String> = lines(text);
    let ghost all = views(ls@);
    let mut rows: Vec<(String, u16)> = Vec::new();
    let mut i: usize = 0;
    assert(rows_view(rows@) =~= bindings(all.take(0)));
    while i < ls.len()
        invariant
            all == views(ls@),
            i <= ls@.len(),
            rows_view(rows@) == bindings(all.take(i as int)),
        decreases ls@.len() - i,
    {
        let ghost before = rows_view(rows@);
        proof {
            assert(all.take(i + 1).drop_last() =~= all.take(i as int));
            assert(all.take(i + 1).last() == ls@[i as int]@);
        }
        match read_binding(ls[i].as_str()) {
            Some((address, port)) => {
                rows.push((address, port));
                assert(rows_view(rows@) =~= before.push((address@, port)));
            },
            None => {},
        }
        i += 1;
    }
    assert(all.take(i as int) =~= all);
    let ghost bs = rows_view(rows@);
    let mut out: Vec<Listener> = Vec::new();
    let mut k: usize = 0;
    while k < rows.len()
        invariant
            bs == rows_view(rows@),
            k <= rows@.len(),
            forall|x: int|
                0 <= x < out@.len() ==> bound(bs, (#[trigger] out@[x])@.port) && out@[x]@
                    == listener_on(bs, out@[x]@.port),
            forall|x: int|
                0 <= x < k ==> exists|y: int|
                    0 <= y < out@.len() && (#[trigger] out@[y])@.port == (#[trigger] bs[x]).1,
            forall|x: int, y: int|
                0 <= x < y < out@.len() ==> ranks_before(
                    (#[trigger] out@[x])@,
                    (#[trigger] out@[y])@,
                ),
        decreases rows@.len() - k,
    {
        let port: u16 = rows[k].1;
        assert(bs[k as int].1 == port);
        let mut known: bool = false;
        let mut j: usize = 0;
        while j < out.len()
            invariant
                j <= out@.len(),
                known == (exists|y: int| 0 <= y < j && (#[trigger] out@[y])@.port == port),
            decreases out@.len() - j,
        {
            if out[j].port == port {
                assert(out@[j as int]@.port == port);
                known = true;
            }
            j += 1;
        }
        let ghost before = out@;
        if !known {
            let item: Listener = describe(rows.as_slice(), port);
            assert(bound(bs, port));
            insert_ranked(&mut out, item);
            proof {
                let at = choose|at: int|
                    0 <= at <= before.len() && out@ == #[trigger] before.insert(at, item);
                assert forall|x: int| 0 <= x < k + 1 implies exists|y: int|
                    0 <= y < out@.len() && (#[trigger] out@[y])@.port == (#[trigger] bs[x]).1 by {
                    if x < k {
                        let y = choose|y: int|
                            0 <= y < before.len() && (#[trigger] before[y])@.port == bs[x].1;
                        if y < at {
                            assert(out@[y] == before[y]);
                        } else {
                            assert(out@[y + 1] == before[y]);
                        }
                    } else {
                        assert(out@[at]@.port == port);
                    }
                }
                assert forall|x: int| 0 <= x < out@.len() implies bound(
                    bs,
                    (#[trigger] out@[x])@.port,
                ) && out@[x]@ == listener_on(bs, out@[x]@.port) by {
                    if x < at {
                        assert(out@[x] == before[x]);
                    } else if x > at {
                        assert(out@[x] == before[x - 1]);
                    }
                }
            }
        }
        k += 1;
    }
    proof {
        let list = views(out@);
        assert forall|i: int| 0 <= i < list.len() implies bound(bs, (#[trigger] list[i]).port)
            && list[i] == listener_on(bs, list[i].port) by {
            assert(list[i] == out@[i]@);
        }
        assert forall|port: u16| #[trigger] bound(bs, port) implies exists|i: int|
            0 <= i < list.len() && (#[trigger] list[i]).port == port by {
            let x = choose|x: int| 0 <= x < bs.len() && (#[trigger] bs[x]).1 == port;
            let y = choose|y: int| 0 <= y < out@.len() && (#[trigger] out@[y])@.port == bs[x].1;
            assert(list[y].port == port);
        }
        assert forall|i: int, j: int| 0 <= i < j < list.len() implies ranks_before(
            #[trigger] list[i],
            #[trigger] list[j],
        ) by {
            assert(ranks_before(out@[i]@, out@[j]@));
        }
    }
    out
}

/// What `host` is listening on, once the listing command has ended.
pub fn listeners(host: &str, output: &CommandOutput) -> (r: Result<Vec<Listener>, String>)
    ensures
        r is Ok <==> output.success,
        r matches Ok(list) ==> listing(bindings(lines_of(output.stdout@)), views(list@)),
        r matches Err(e) ==> e@ == (if trimmed(output.stderr@).len() == 0 {
            "ssh "@ + host@ + " exited with "@ + output.status@
        } else {
            first_line(trimmed(output.stderr@))
        }),
{
    if output.success {
        return Ok(parse(output.stdout.as_str()));
    }
    let stderr: &str = trim(output.stderr.as_str());
    if stderr.is_empty() {
        let mut message: String = "ssh ".to_owned();
        message.append(host);
        message.append(" exited with ");
        message.append(output.status.as_str());
        return Err(message);
    }
    let ls: Vec<String> = lines(stderr);
    if ls.len() == 0 {
        Err(String::new())
    } else {
        assert(lines_of(stderr@)[0] == ls@[0]@);
        Err(ls[0].clone())
    }
}

/// The first line of a text.
pub open spec fn first_line(s: Seq<char>) -> Seq<char> {
    if lines_of(s).len() == 0 {
        Seq::empty()
    } else {
        lines_of(s)[0]
    }
}

/// A listing says one thing of a text: any two lists that it allows are equal.
pub proof fn law_listing_is_one(
    bs: Seq<(Seq<char>, u16)>,
    a: Seq<ListenerView>,
    b: Seq<ListenerView>,
)
    requires
        listing(bs, a),
        listing(bs, b),
    ensures
        a == b,
{
    lemma_listing_within(bs, a, b);
    lemma_listing_within(bs, b, a);
    lemma_ranked_unique(a, b);
}

proof fn lemma_listing_within(
    bs: Seq<(Seq<char>, u16)>,
    a: Seq<ListenerView>,
    b: Seq<ListenerView>,
)
    requires
        listing(bs, a),
        listing(bs, b),
    ensures
        forall|i: int| 0 <= i < a.len() ==> b.contains(#[trigger] a[i]),
{
    assert forall|i: int| 0 <= i < a.len() implies b.contains(#[trigger] a[i]) by {
        assert(bound(bs, a[i].port));
        let j = choose|j: int| 0 <= j < b.len() && (#[trigger] b[j]).port == a[i].port;
        assert(b[j] == a[i]);
    }
}

proof fn lemma_ranked_unique(a: Seq<ListenerView>, b: Seq<ListenerView>)
    requires
        forall|i: int, j: int|
            0 <= i < j < a.len() ==> ranks_before(#[trigger] a[i], #[trigger] a[j]),
        forall|i: int, j: int|
            0 <= i < j < b.len() ==> ranks_before(#[trigger] b[i], #[trigger] b[j]),
        forall|i: int| 0 <= i < a.len() ==> b.contains(#[trigger] a[i]),
        forall|i: int| 0 <= i < b.len() ==> a.contains(#[trigger] b[i]),
    ensures
        a == b,
    decreases a.len(),
{
    if a.len() == 0 {
        if b.len() > 0 {
            assert(a.contains(b[0]));
        }
        assert(a =~= b);
    } else {
        assert(b.contains(a[a.len() - 1]));
        let j = choose|j: int| 0 <= j < b.len() && b[j] == a.last();
        assert(a.contains(b[b.len() - 1]));
        let i = choose|i: int| 0 <= i < a.len() && a[i] == b.last();
        if j < b.len() - 1 {
            assert(ranks_before(b[j], b[b.len() - 1]));
            if i < a.len() - 1 {
                assert(ranks_before(a[i], a[a.len() - 1]));
            }
        }
        assert(a.last() == b.last());
        let a1 = a.drop_last();
        let b1 = b.drop_last();
        assert forall|x: int| 0 <= x < a1.len() implies b1.contains(#[trigger] a1[x]) by {
            assert(b.contains(a[x]));
            let y = choose|y: int| 0 <= y < b.len() && b[y] == a[x];
            assert(ranks_before(a[x], a[a.len() - 1]));
            assert(b1[y] == a1[x]);
        }
        assert forall|x: int| 0 <= x < b1.len() implies a1.contains(#[trigger] b1[x]) by {
            assert(a.contains(b[x]));
            let y = choose|y: int| 0 <= y < a.len() && a[y] == b[x];
            assert(ranks_before(b[x], b[b.len() - 1]));
            assert(a1[y] == b1[x]);
        }
        lemma_ranked_unique(a1, b1);
        assert(a =~= a1.push(a.last()));
        assert(b =~= b1.push(b.last()));
    }
}

/// A port is listed once, however many addresses it is bound to, and what only
/// the machine itself can reach comes before what can be reached directly.
pub proof fn law_ports_listed_once(bs: Seq<(Seq<char>, u16)>, list: Seq<ListenerView>)
    requires
        listing(bs, list),
    ensures
        forall|i: int, j: int|
            0 <= i < j < list.len() ==> (#[trigger] list[i]).port != (#[trigger] list[j]).port,
        forall|i: int, j: int|
            0 <= i < j < list.len() && (#[trigger] list[j]).loopback ==> (
            #[trigger] list[i]).loopback,
{
    assert forall|i: int, j: int| 0 <= i < j < list.len() implies (#[trigger] list[i]).port != (
    #[trigger] list[j]).port by {
        assert(ranks_before(list[i], list[j]));
        assert(list[i] == listener_on(bs, list[i].port));
        assert(list[j] == listener_on(bs, list[j].port));
    }
    assert forall|i: int, j: int|
        0 <= i < j < list.len() && (#[trigger] list[j]).loopback implies (
    #[trigger] list[i]).loopback by {
        assert(ranks_before(list[i], list[j]));
    }
}

} // verus!
