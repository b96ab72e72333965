//! Measuring a tunnel, layer by layer.

use vstd::prelude::*;
use vstd::utf8::{decode_utf8, valid_utf8};
use crate::command::CommandOutput;
use crate::find::{after_last, begins, last_of, last_piece, rfind, starts_with};
use crate::number::{decimal, parse_u16, read_u16, to_decimal};
use crate::split::{lines, lines_of, split_words, words};
use crate::text::{chars, same, trim, trimmed, view_of, views};
use crate::tunnels::{Forward, ForwardView, Kind, Protocol};

verus! {

/// How one layer of a tunnel is.
#[derive(Debug, Clone, Copy, PartialEq, Eq, Structural)]
pub enum Light {
    /// Nothing running.
    Off,
    Good,
    Bad,
    /// Cannot be answered from this machine.
    Unknown,
}

/// The character that stands for a light.
pub open spec fn symbol_of(light: Light) -> Seq<char> {
    match light {
        Light::Off => "o"@,
        Light::Good => "*"@,
        Light::Bad => "x"@,
        Light::Unknown => "-"@,
    }
}

impl Light {
    /// The character that stands for the light.
    pub fn symbol(self) -> (r: &'static str)
        ensures
            r@ == symbol_of(self),
    {
        match self {
            Light::Off => "o",
            Light::Good => "*",
            Light::Bad => "x",
            Light::Unknown => "-",
        }
    }
}

/// What can be observed about one rule, layer by layer.
///
/// The layers are separated because the interesting failures live between them:
/// a live process with nothing listening is a forward that never took effect,
/// and a bound port whose path fails is a tunnel to a service that is down.
#[derive(Debug, Clone)]
pub struct Health {
    /// Is the ssh process up.
    pub process: Light,
    /// Is the port actually listening. Only observable for `-L`: a `-R` rule
    /// opens its port on the far side, which nothing here can see.
    pub port: Light,
    /// For `-L`, whether a connection through the tunnel survives; for `-R`,
    /// whether the thing being exposed is up on this machine.
    pub path: Light,
    pub detail: String,
    pub http_status: Option<u16>,
}

/// What a [`Health`] says.
#[verifier::ext_equal]
pub struct HealthView {
    pub process: Light,
    pub port: Light,
    pub path: Light,
    pub detail: Seq<char>,
    pub http_status: Option<u16>,
}

impl View for Health {
    type V = HealthView;

    open spec fn view(&self) -> HealthView {
        HealthView {
            process: self.process,
            port: self.port,
            path: self.path,
            detail: self.detail@,
            http_status: self.http_status,
        }
    }
}

/// A live process with these lights behind it.
pub open spec fn up(port: Light, path: Light, detail: Seq<char>) -> HealthView {
    HealthView { process: Light::Good, port, path, detail, http_status: None }
}

/// The three lights in a row.
pub open spec fn lights_of(h: HealthView) -> Seq<char> {
    symbol_of(h.process) + " "@ + symbol_of(h.port) + " "@ + symbol_of(h.path)
}

impl Health {
    /// A rule whose process is up but whose measurement has not landed yet.
    pub fn measuring() -> (r: Health)
        ensures
            r@ == up(Light::Unknown, Light::Unknown, Seq::empty()),
    {
        Health::live(Light::Unknown, Light::Unknown, String::new())
    }

    /// A rule without a process.
    pub fn stopped() -> (r: Health)
        ensures
            r@ == (HealthView {
                process: Light::Off,
                port: Light::Off,
                path: Light::Off,
                detail: Seq::empty(),
                http_status: None,
            }),
    {
        Health {
            process: Light::Off,
            port: Light::Off,
            path: Light::Off,
            detail: String::new(),
            http_status: None,
        }
    }

    /// The three lights in a row.
    pub fn lights(&self) -> (r: String)
        ensures
            r@ == lights_of(self@),
    {
        let mut out: String = self.process.symbol().to_owned();
        out.append(" ");
        out.append(self.port.symbol());
        out.append(" ");
        out.append(self.path.symbol());
        out
    }

    /// A measurement that says the same.
    pub fn duplicate(&self) -> (r: Health)
        ensures
            r@ == self@,
    {
        Health {
            process: self.process,
            port: self.port,
            path: self.path,
            detail: self.detail.clone(),
            http_status: self.http_status,
        }
    }

    fn live(port: Light, path: Light, detail: String) -> (r: Health)
        ensures
            r@ == up(port, path, detail@),
    {
        Health { process: Light::Good, port, path, detail, http_status: None }
    }
}

/// The port in a bind spec: what stands behind the last colon.
pub open spec fn port_in(bind: Seq<char>) -> Option<u16> {
    read_u16(trimmed(after_last(bind, ':')), 10)
}

/// The port out of a bind spec: `29001` or `0.0.0.0:29001`.
pub fn bind_port(bind: &str) -> (r: Option<u16>)
    ensures
        r == port_in(bind@),
{
    parse_u16(trim(last_piece(bind, ':')), 10)
}

/// What a connection attempt came to.
#[derive(Debug, Clone, Copy, PartialEq, Eq, Structural)]
pub enum Reach {
    /// Connected and stayed connected.
    Open,
    /// Connected, then the far side hung up -- the tunnel exists but its target
    /// did not answer.
    Closed,
    /// Nothing accepted at all.
    Refused,
}

/// What a connection attempt came to, and the status that an HTTP server
/// answered with.
#[derive(Debug, Clone, Copy, PartialEq, Eq, Structural)]
pub struct ReachResult {
    pub reach: Reach,
    pub http_status: Option<u16>,
}

/// How the first read from a connection ended.
#[derive(Debug, Clone, Copy, PartialEq, Eq, Structural)]
pub enum FirstRead {
    /// The far side had closed the connection.
    Nothing,
    /// Something arrived.
    Something,
    /// Nothing arrived in time.
    TimedOut,
    /// The connection broke.
    Failed,
}

/// How far a connection attempt got.
#[derive(Debug, Clone)]
pub enum Attempt {
    /// No address, or nothing accepted.
    NotConnected,
    /// Connected, but no time limit could be set on reading.
    Unbounded,
    /// Connected and read from; `response` is the buffer that was read into.
    Read { ended: FirstRead, response: Vec<u8> },
}

/// The next thing to do in measuring a rule.
#[derive(Debug, Clone)]
pub enum Step {
    /// The measurement is complete.
    Done(Health),
    /// Ask whether anything is listening on the port.
    Listen(u16),
    /// Try to connect to the address.
    Connect(String),
}

/// What a [`Step`] says.
#[verifier::ext_equal]
pub enum StepView {
    Done(HealthView),
    Listen(u16),
    Connect(Seq<char>),
}

impl View for Step {
    type V = StepView;

    open spec fn view(&self) -> StepView {
        match self {
            Step::Done(health) => StepView::Done(health@),
            Step::Listen(port) => StepView::Listen(*port),
            Step::Connect(address) => StepView::Connect(address@),
        }
    }
}

/// The measurement of a rule that carries UDP.
pub open spec fn udp_health() -> HealthView {
    up(
        Light::Unknown,
        Light::Unknown,
        "UDP cannot be verified through SSH TCP forwarding"@,
    )
}

/// The measurement of a rule whose bind spec holds no port.
pub open spec fn portless_health(f: ForwardView) -> HealthView {
    up(Light::Unknown, Light::Unknown, "cannot read a port out of `"@ + f.bind + "`"@)
}

/// The first step in measuring a rule.
pub open spec fn first_step(f: ForwardView) -> StepView {
    if f.protocol == Protocol::Udp {
        StepView::Done(udp_health())
    } else {
        match f.kind {
            Kind::Local => match port_in(f.bind) {
                Some(port) => StepView::Listen(port),
                None => StepView::Done(portless_health(f)),
            },
            // The listening port is on the far side. What is checkable here is
            // the exit: whether the service being exposed is actually up.
            Kind::Remote => StepView::Connect(f.target),
        }
    }
}

/// The step after it was asked whether anything listens on `port`.
pub open spec fn step_after_listen(port: u16, bound: Option<bool>) -> StepView {
    if bound == Some(false) {
        StepView::Done(
            up(
                Light::Bad,
                Light::Off,
                "running but nothing is listening on "@ + decimal(port as nat),
            ),
        )
    } else {
        StepView::Connect("127.0.0.1:"@ + decimal(port as nat))
    }
}

/// The measurement after a connection was tried. `bound` is what was learned of
/// the port before.
pub open spec fn health_after_connect(
    f: ForwardView,
    bound: Option<bool>,
    result: ReachResult,
) -> HealthView {
    match f.kind {
        Kind::Local => {
            let port = if bound is Some {
                Light::Good
            } else {
                Light::Unknown
            };
            match result.reach {
                Reach::Open => HealthView {
                    http_status: result.http_status,
                    ..up(port, Light::Good, Seq::empty())
                },
                Reach::Closed => up(
                    port,
                    Light::Bad,
                    "tunnel is up but "@ + f.target + " refused it"@,
                ),
                Reach::Refused => up(
                    port,
                    Light::Bad,
                    "nothing accepted a connection on "@ + decimal(port_in(f.bind)->0 as nat),
                ),
            }
        },
        Kind::Remote => match result.reach {
            Reach::Open => up(
                Light::Unknown,
                Light::Good,
                "remote bind is not visible from here; needs GatewayPorts to reach it from a third machine"@,
            ),
            _ => up(
                Light::Unknown,
                Light::Bad,
                "nothing is serving "@ + f.target + " on this machine"@,
            ),
        },
    }
}

/// Measure a rule that has a live process behind it: the first step. The next
/// ones are [`check_port`] and [`check_path`].
pub fn check(forward: &Forward) -> (r: Step)
    ensures
        r@ == first_step(forward@),
{
    if forward.protocol == Protocol::Udp {
        return Step::Done(udp());
    }
    match forward.kind {
        Kind::Local => match bind_port(forward.bind.as_str()) {
            Some(port) => Step::Listen(port),
            None => Step::Done(
                Health::live(Light::Unknown, Light::Unknown, portless(forward)),
            ),
        },
        Kind::Remote => Step::Connect(forward.target.clone()),
    }
}

fn udp() -> (r: Health)
    ensures
        r@ == udp_health(),
{
    Health::live(
        Light::Unknown,
        Light::Unknown,
        "UDP cannot be verified through SSH TCP forwarding".to_owned(),
    )
}

fn portless(forward: &Forward) -> (r: String)
    ensures
        r@ == portless_health(forward@).detail,
{
    let mut out: String = "cannot read a port out of `".to_owned();
    out.append(forward.bind.as_str());
    out.append("`");
    out
}

/// The step after it was asked whether anything listens on `port`. A live
/// process with nothing listening is what `ExitOnForwardFailure` is meant to
/// prevent, seen from the other side.
pub fn check_port(port: u16, bound: Option<bool>) -> (r: Step)
    ensures
        r@ == step_after_listen(port, bound),
{
    let number: String = to_decimal(port as u128);
    match bound {
        Some(false) => {
            let mut detail: String = "running but nothing is listening on ".to_owned();
            detail.append(number.as_str());
            Step::Done(Health::live(Light::Bad, Light::Off, detail))
        },
        _ => {
            let mut address: String = "127.0.0.1:".to_owned();
            address.append(number.as_str());
            Step::Connect(address)
        },
    }
}

/// The measurement after a connection was tried.
pub fn check_path(forward: &Forward, bound: Option<bool>, result: ReachResult) -> (r: Health)
    requires
        forward@.kind == Kind::Local ==> port_in(forward@.bind) is Some,
    ensures
        r@ == health_after_connect(forward@, bound, result),
{
    match forward.kind {
        Kind::Local => {
            let port: Light = if bound.is_some() {
                Light::Good
            } else {
                Light::Unknown
            };
            match result.reach {
                Reach::Open => Health {
                    process: Light::Good,
                    port,
                    path: Light::Good,
                    detail: String::new(),
                    http_status: result.http_status,
                },
                Reach::Closed => {
                    let mut detail: String = "tunnel is up but ".to_owned();
                    detail.append(forward.target.as_str());
                    detail.append(" refused it");
                    Health::live(port, Light::Bad, detail)
                },
                Reach::Refused => {
                    let mut detail: String = "nothing accepted a connection on ".to_owned();
                    match bind_port(forward.bind.as_str()) {
                        Some(number) => {
                            detail.append(to_decimal(number as u128).as_str());
                        },
                        None => {},
                    }
                    Health::live(port, Light::Bad, detail)
                },
            }
        },
        Kind::Remote => match result.reach {
            Reach::Open => Health::live(
                Light::Unknown,
                Light::Good,
                "remote bind is not visible from here; needs GatewayPorts to reach it from a third machine".to_owned(),
            ),
            _ => {
                let mut detail: String = "nothing is serving ".to_owned();
                detail.append(forward.target.as_str());
                detail.append(" on this machine");
                Health::live(Light::Unknown, Light::Bad, detail)
            },
        },
    }
}

/// The local port whose state tells something of a rule, if there is one.
pub open spec fn watched_port(f: ForwardView) -> Option<u16> {
    if f.protocol != Protocol::Udp && f.kind == Kind::Local {
        port_in(f.bind)
    } else {
        None
    }
}

/// What local state alone says of a rule.
pub open spec fn observed(f: ForwardView, listening: Option<bool>) -> HealthView {
    if f.protocol == Protocol::Udp {
        udp_health()
    } else {
        let seen = if watched_port(f) is Some {
            listening
        } else {
            None
        };
        match seen {
            Some(true) => up(Light::Good, Light::Unknown, Seq::empty()),
            Some(false) => up(
                Light::Bad,
                Light::Unknown,
                "running but nothing is listening on "@ + f.bind,
            ),
            None => if f.kind == Kind::Remote {
                up(
                    Light::Unknown,
                    Light::Unknown,
                    "remote bind is not visible from this machine"@,
                )
            } else {
                portless_health(f)
            },
        }
    }
}

/// The local port to ask after before [`observe`], if any.
pub fn port_to_watch(forward: &Forward) -> (r: Option<u16>)
    ensures
        r == watched_port(forward@),
{
    if forward.protocol != Protocol::Udp && forward.kind == Kind::Local {
        bind_port(forward.bind.as_str())
    } else {
        None
    }
}

/// Observe only local state. This deliberately performs no network I/O: the
/// process scan and local socket table are enough to tell whether a forward
/// was established without touching the service behind it. `listening` is what
/// is known of the port to watch.
pub fn observe(forward: &Forward, listening: Option<bool>) -> (r: Health)
    ensures
        r@ == observed(forward@, listening),
{
    if forward.protocol == Protocol::Udp {
        return udp();
    }
    let seen: Option<bool> = match port_to_watch(forward) {
        Some(_) => listening,
        None => None,
    };
    match seen {
        Some(true) => Health::live(Light::Good, Light::Unknown, String::new()),
        Some(false) => {
            let mut detail: String = "running but nothing is listening on ".to_owned();
            detail.append(forward.bind.as_str());
            Health::live(Light::Bad, Light::Unknown, detail)
        },
        None => if forward.kind == Kind::Remote {
            Health::live(
                Light::Unknown,
                Light::Unknown,
                "remote bind is not visible from this machine".to_owned(),
            )
        } else {
            Health::live(Light::Unknown, Light::Unknown, portless(forward))
        },
    }
}

/// What to send on a fresh connection before reading from it.
pub fn greeting(protocol: Protocol) -> (r: Option<&'static str>)
    ensures
        view_of(r) == (if protocol == Protocol::Http {
            Some("HEAD / HTTP/1.0\r\nHost: localhost\r\nConnection: close\r\n\r\n"@)
        } else {
            None
        }),
{
    if protocol == Protocol::Http {
        Some("HEAD / HTTP/1.0\r\nHost: localhost\r\nConnection: close\r\n\r\n")
    } else {
        None
    }
}

/// What a connection attempt came to.
pub open spec fn reached(attempt: Attempt, protocol: Protocol) -> ReachResult {
    match attempt {
        Attempt::NotConnected => ReachResult { reach: Reach::Refused, http_status: None },
        Attempt::Unbounded => ReachResult { reach: Reach::Open, http_status: None },
        Attempt::Read { ended, response } => ReachResult {
            reach: if ended == FirstRead::Something || ended == FirstRead::TimedOut {
                Reach::Open
            } else {
                Reach::Closed
            },
            http_status: if protocol == Protocol::Http {
                status_in(response@)
            } else {
                None
            },
        },
    }
}

/// What a connection attempt came to.
///
/// ssh accepts locally first and only then opens the channel to the far side,
/// so a forward whose target is down looks like an immediate end of file. A read
/// that times out, or that returns a banner, both mean the far side answered.
pub fn reachable(attempt: &Attempt, protocol: Protocol) -> (r: ReachResult)
    ensures
        r == reached(*attempt, protocol),
{
    match attempt {
        Attempt::NotConnected => ReachResult { reach: Reach::Refused, http_status: None },
        Attempt::Unbounded => ReachResult { reach: Reach::Open, http_status: None },
        Attempt::Read { ended, response } => {
            let reach: Reach = match ended {
                FirstRead::Something | FirstRead::TimedOut => Reach::Open,
                FirstRead::Nothing | FirstRead::Failed => Reach::Closed,
            };
            let http_status: Option<u16> = if protocol == Protocol::Http {
                parse_http_status(response.as_slice())
            } else {
                None
            };
            ReachResult { reach, http_status }
        },
    }
}

/// The first position at or after `from` that ends a line.
pub open spec fn line_end(bytes: Seq<u8>, from: int) -> int
    decreases bytes.len() - from,
{
    if from >= bytes.len() {
        bytes.len() as int
    } else if bytes[from] == 13u8 || bytes[from] == 10u8 {
        from
    } else {
        line_end(bytes, from + 1)
    }
}

/// The status in the first line of an HTTP response.
pub open spec fn status_in(response: Seq<u8>) -> Option<u16> {
    let line = response.take(line_end(response, 0));
    if !valid_utf8(line) {
        None
    } else {
        let fields = words(decode_utf8(line));
        if fields.len() >= 2 && (fields[0] == "HTTP/1.0"@ || fields[0] == "HTTP/1.1"@) {
            read_u16(fields[1], 10)
        } else {
            None
        }
    }
}

/// Calls `std::str::from_utf8`: the text that the bytes encode, if they are
/// valid UTF-8.
#[verifier::external_body]
fn text_from(bytes: &[u8]) -> (r: Option<String>)
    ensures
        r is Some <==> valid_utf8(bytes@),
        r matches Some(s) ==> s@ == decode_utf8(bytes@),
{
    std::str::from_utf8(bytes).ok().map(|s| s.to_owned())
}

/// The status in the first line of an HTTP response.
pub fn parse_http_status(response: &[u8]) -> (r: Option<u16>)
    ensures
        r == status_in(response@),
{
    let mut line: Vec<u8> = Vec::new();
    let mut i: usize = 0;
    while i < response.len() && response[i] != 13 && response[i] != 10
        invariant
            i <= response@.len(),
            line@ == response@.take(i as int),
            line_end(response@, 0) == line_end(response@, i as int),
        decreases response@.len() - i,
    {
        line.push(response[i]);
        i += 1;
        assert(line@ =~= response@.take(i as int));
    }
    match text_from(line.as_slice()) {
        Some(text) => {
            let fields: Vec<String> = split_words(text.as_str());
            assert(words(text@).len() == fields@.len());
            if fields.len() < 2 {
                return None;
            }
            assert(words(text@)[0] == fields@[0]@ && words(text@)[1] == fields@[1]@);
            if same(fields[0].as_str(), "HTTP/1.0") || same(fields[0].as_str(), "HTTP/1.1") {
                parse_u16(fields[1].as_str(), 10)
            } else {
                None
            }
        },
        None => None,
    }
}

/// The row says that something listens on the port: field 1 is
/// `HEXADDR:HEXPORT`, field 3 is the state, and `0A` is LISTEN.
pub open spec fn row_listens(line: Seq<char>, port: u16) -> bool {
    let fields = words(line);
    &&& fields.len() > 3
    &&& fields[3] == "0A"@
    &&& read_u16(after_last(fields[1], ':'), 16) == Some(port)
}

/// A row below the heading says that something listens on the port.
pub open spec fn table_listens(text: Seq<char>, port: u16) -> bool {
    exists|i: int| 1 <= i < lines_of(text).len() && row_listens(#[trigger] lines_of(text)[i], port)
}

/// One of the tables that could be read says that something listens.
pub open spec fn listening_in(tables: Seq<Option<String>>, port: u16) -> Option<bool> {
    if exists|i: int|
        0 <= i < tables.len() && (#[trigger] tables[i]) is Some && table_listens(
            tables[i]->0@,
            port,
        ) {
        Some(true)
    } else if exists|i: int| 0 <= i < tables.len() && (#[trigger] tables[i]) is Some {
        Some(false)
    } else {
        None
    }
}

/// A `/proc/net/tcp` row that listens on `port`.
///
/// Matched on the port alone, not the address: a tunnel binds loopback and v6
/// separately, and `ExitOnForwardFailure` means a live ssh really does own the
/// port it asked for.
pub fn listens_on(line: &str, port: u16) -> (r: bool)
    ensures
        r == row_listens(line@, port),
{
    let fields: Vec<String> = split_words(line);
    assert(words(line@).len() == fields@.len());
    if fields.len() <= 3 {
        return false;
    }
    assert(words(line@)[1] == fields@[1]@ && words(line@)[3] == fields@[3]@);
    same(fields[3].as_str(), "0A") && match parse_u16(last_piece(fields[1].as_str(), ':'), 16) {
        Some(found) => found == port,
        None => false,
    }
}

/// Whether anything is listening on `port`, or `None` where that cannot be
/// read. `tables` are the texts of `/proc/net/tcp` and `/proc/net/tcp6`, as far
/// as they could be read.
pub fn listening(port: u16, tables: &[Option<String>]) -> (r: Option<bool>)
    ensures
        r == listening_in(tables@, port),
{
    let mut readable: bool = false;
    let mut t: usize = 0;
    while t < tables.len()
        invariant
            t <= tables@.len(),
            readable == (exists|i: int| 0 <= i < t && (#[trigger] tables@[i]) is Some),
            forall|i: int|
                0 <= i < t && (#[trigger] tables@[i]) is Some ==> !table_listens(
                    tables@[i]->0@,
                    port,
                ),
        decreases tables@.len() - t,
    {
        match &tables[t] {
            Some(text) => {
                assert(tables@[t as int] is Some);
                readable = true;
                let ls: Vec<String> = lines(text.as_str());
                let mut i: usize = 1;
                while i < ls.len()
                    invariant
                        t < tables@.len(),
                        tables@[t as int] == Some(*text),
                        views(ls@) == lines_of(text@),
                        1 <= i,
                        forall|k: int|
                            1 <= k < i && k < ls@.len() ==> !row_listens(
                                #[trigger] lines_of(text@)[k],
                                port,
                            ),
                    decreases ls@.len() - i,
                {
                    assert(lines_of(text@)[i as int] == ls@[i as int]@);
                    if listens_on(ls[i].as_str(), port) {
                        assert(table_listens(tables@[t as int]->0@, port));
                        return Some(true);
                    }
                    i += 1;
                }
            },
            None => {},
        }
        t += 1;
    }
    if readable {
        Some(false)
    } else {
        None
    }
}

/// The row of a BSD listing says that something listens on the port.
pub open spec fn dotted_row_listens(line: Seq<char>, port: u16) -> bool {
    let fields = words(line);
    &&& fields.len() > 3
    &&& begins(fields[0], "tcp"@)
    &&& fields.last() == "LISTEN"@
    &&& last_of(fields[3], '.') >= 0
    &&& read_u16(after_last(fields[3], '.'), 10) == Some(port)
}

/// A row of a BSD listing says that something listens on the port.
pub open spec fn netstat_listens(text: Seq<char>, port: u16) -> bool {
    exists|i: int|
        0 <= i < lines_of(text).len() && dotted_row_listens(#[trigger] lines_of(text)[i], port)
}

/// Whether a BSD `netstat -an -p tcp` listing has `port` in LISTEN.
///
/// Two things differ from the Linux side and both fail silently if missed: the
/// address separator is `.`, not `:`, and this listing includes every
/// connection rather than only listeners, so an established connection to the
/// same port would otherwise read as a bound one.
pub fn listens_in_netstat(text: &str, port: u16) -> (r: bool)
    ensures
        r == netstat_listens(text@, port),
{
    let ls: Vec<String> = lines(text);
    let mut i: usize = 0;
    while i < ls.len()
        invariant
            views(ls@) == lines_of(text@),
            i <= ls@.len(),
            forall|k: int|
                0 <= k < i ==> !dotted_row_listens(#[trigger] lines_of(text@)[k], port),
        decreases ls@.len() - i,
    {
        assert(lines_of(text@)[i as int] == ls@[i as int]@);
        let fields: Vec<String> = split_words(ls[i].as_str());
        let n: usize = fields.len();
        let ghost all = words(ls@[i as int]@);
        assert(all.len() == n);
        if n > 3 {
            proof {
                assert(all[0] == fields@[0]@ && all[3] == fields@[3]@);
                assert(all.last() == fields@[n - 1]@);
            }
            if starts_with(fields[0].as_str(), "tcp") && same(fields[n - 1].as_str(), "LISTEN") {
                let local: &str = fields[3].as_str();
                let cs: Vec<char> = chars(local);
                if rfind(cs.as_slice(), '.').is_some() {
                    match parse_u16(last_piece(local, '.'), 10) {
                        Some(found) => {
                            if found == port {
                                return true;
                            }
                        },
                        None => {},
                    }
                }
            }
        }
        i += 1;
    }
    false
}

/// Whether anything is listening on `port`, from the BSD listing; `None` where
/// the command did not succeed.
pub fn listening_by_netstat(port: u16, output: &CommandOutput) -> (r: Option<bool>)
    ensures
        r == (if output.success {
            Some(netstat_listens(output.stdout@, port))
        } else {
            None
        }),
{
    if output.success {
        Some(listens_in_netstat(output.stdout.as_str(), port))
    } else {
        None
    }
}

/// A rule that carries UDP is never measured: nothing is asked or connected,
/// and no light claims to know.
pub proof fn law_udp_is_not_measured(f: ForwardView, listening: Option<bool>)
    requires
        f.protocol == Protocol::Udp,
    ensures
        first_step(f) == StepView::Done(udp_health()),
        observed(f, listening) == udp_health(),
        udp_health().port == Light::Unknown && udp_health().path == Light::Unknown,
{
}

/// The light of the port is dark or unknown for `-R`, whatever was seen: its
/// port is on the far side, which nothing here can see.
pub proof fn law_remote_port_is_unseen(
    f: ForwardView,
    bound: Option<bool>,
    result: ReachResult,
    listening: Option<bool>,
)
    requires
        f.kind == Kind::Remote,
    ensures
        health_after_connect(f, bound, result).port == Light::Unknown,
        observed(f, listening).port == Light::Unknown,
        !(first_step(f) is Listen),
{
}

/// Only when the process is up, the port listens and the connection stays open
/// do all three lights of a `-L` rule shine: a port that nothing listens on, and
/// a connection that does not last, both show.
pub proof fn law_failures_show(f: ForwardView, port: u16, bound: Option<bool>, result: ReachResult)
    requires
        f.kind == Kind::Local,
    ensures
        bound == Some(false) ==> (step_after_listen(port, bound) matches StepView::Done(h)
            && h.port == Light::Bad && h.path == Light::Off),
        health_after_connect(f, bound, result).path == Light::Good <==> result.reach == Reach::Open,
        health_after_connect(f, bound, result).path == Light::Bad <==> result.reach != Reach::Open,
{
}

} // verus!
