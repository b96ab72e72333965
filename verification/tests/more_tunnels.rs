use excalibur::command::CommandOutput;
use excalibur::discover::{listener_args, listeners, REMOTE};
use excalibur::forward_form::{ForwardField, ForwardForm};
use excalibur::probe::{
    check, check_path, check_port, greeting, listening, listening_by_netstat, observe,
    parse_http_status, port_to_watch, reachable, Attempt, FirstRead, Health, Light, Reach,
    ReachResult, Step,
};
use excalibur::sshconfig::SshConfig;
use excalibur::edit::Editing;
use excalibur::supervisor::{
    parse_argv, scan, start, started_at, stop, usage, Process, Running,
};
use excalibur::tunnels::{Forward, Kind, Profile, Protocol, Tunnels};

fn rule(kind: Kind, bind: &str, target: &str) -> Forward {
    Forward {
        host: "kami".into(),
        kind,
        bind: bind.into(),
        target: target.into(),
        protocol: Protocol::Tcp,
        note: String::new(),
    }
}

fn output(success: bool, stdout: &str, stderr: &str) -> CommandOutput {
    CommandOutput {
        success,
        status: "exit status: 255".into(),
        stdout: stdout.into(),
        stderr: stderr.into(),
    }
}

fn words(line: &str) -> Vec<String> {
    line.split(' ').map(str::to_string).collect()
}

#[test]
fn a_rule_says_what_it_lacks() {
    assert_eq!(rule(Kind::Local, "22", "a:1").problem(), None);
    let mut nowhere = rule(Kind::Local, "22", "a:1");
    nowhere.host = " ".into();
    assert_eq!(nowhere.problem().unwrap(), "incomplete: pick a host");
    assert_eq!(
        rule(Kind::Local, "here", "a:1").problem().unwrap(),
        "incomplete: listen on a port, or address:port"
    );
    assert_eq!(
        rule(Kind::Local, "22", "6022").problem().unwrap(),
        "incomplete: exit at host:port, like localhost:6022 -- any address kami can reach"
    );
    assert_eq!(
        rule(Kind::Remote, "22", ":80").problem().unwrap(),
        "incomplete: exit at host:port, like localhost:22 -- any address this machine can reach"
    );
    assert!(rule(Kind::Local, "22", "host:").problem().is_some());
    assert_eq!(Forward::normalise_target("80"), "localhost:80");
    assert_eq!(Forward::normalise_target("localhost:80"), "localhost:80");
    assert_eq!(Forward::normalise_target(""), "");
}

#[test]
fn summaries_have_one_shape() {
    let forward = rule(Kind::Remote, "8080", "localhost:3000");
    assert_eq!(forward.summary(), "-R 8080:localhost:3000 kami");
    let running =
        Running { pid: 1, kind: Kind::Remote, spec: forward.spec(), host: "kami".into() };
    assert_eq!(running.summary(), forward.summary());
    assert_eq!(
        Tunnels::path_below(Some("/home/me/.config".to_string())).unwrap(),
        "/home/me/.config/excalibur/tunnels.yaml"
    );
    assert_eq!(Tunnels::path_below(None), None);
    if let Some(path) = Tunnels::path() {
        assert!(path.ends_with("excalibur/tunnels.yaml"), "got: {path}");
    }
    assert_eq!(Kind::ALL.map(Kind::label), ["local", "remote"]);
}

#[test]
fn a_started_tunnel_is_recognised_again() {
    for kind in Kind::ALL {
        let forward = rule(kind, "0.0.0.0:29001", "10.0.0.5:9001");
        let mut argv = vec!["/usr/bin/ssh".to_string()];
        argv.extend(forward.ssh_args());
        assert_eq!(parse_argv(&argv), Some((kind, forward.spec(), "kami".into())));
    }
    // A host that reads as an option is taken for one.
    let mut odd = rule(Kind::Local, "1", "h:2");
    odd.host = "-v".into();
    let mut argv = vec!["ssh".to_string()];
    argv.extend(odd.ssh_args());
    assert_eq!(parse_argv(&argv), None);
    assert_eq!(parse_argv(&[]), None);
    assert_eq!(parse_argv(&words("ssh - -L 1:h:2")).unwrap().2, "-");
    assert_eq!(parse_argv(&words("ssh -L 1:h:2 -R 3:h:4 a b")).unwrap().1, "1:h:2");
}

#[test]
fn only_our_own_tunnels_are_listed() {
    let process = |pid: i64, uid: Option<u32>, line: Option<&str>| Process {
        pid,
        uid,
        argv: line.map(words),
    };
    let all = vec![
        process(10, Some(1000), Some("ssh -N -L 1:h:2 a")),
        process(11, Some(0), Some("ssh -N -L 1:h:3 a")),
        process(12, None, Some("ssh -N -L 1:h:4 a")),
        process(-1, Some(1000), Some("ssh -N -L 1:h:5 a")),
        process(13, Some(1000), None),
        process(14, Some(1000), Some("bash")),
    ];
    let pids = |me: Option<u32>| scan(&all, me).iter().map(|r| r.pid).collect::<Vec<_>>();
    assert_eq!(pids(Some(1000)), [10]);
    assert_eq!(pids(None), [10, 11, 12]);
}

#[test]
fn starting_and_stopping_report_why_they_failed() {
    assert_eq!(start(&output(true, "", "warning")), Ok(()));
    assert_eq!(start(&output(false, "", " refused \n")), Err("refused".into()));
    assert_eq!(
        start(&output(false, "", "\n")),
        Err("ssh exited with exit status: 255".into())
    );
    assert_eq!(stop(7, &output(true, "", "")), Ok(()));
    assert_eq!(stop(7, &output(false, "", "")), Err("kill 7 exited with exit status: 255".into()));
}

#[test]
fn uptime_counts_from_the_start_and_never_below_zero() {
    assert_eq!(started_at(1000, 250, 100), 1002);
    assert_eq!(usage(1002, 1062, Some(5)).uptime, 60);
    assert_eq!(usage(1002, 1000, None).uptime, 0);
    assert_eq!(usage(1002, 1062, None).read, None);
    assert_eq!(usage(1, 2, Some(0)).read, Some(0));
}

#[test]
fn a_host_is_asked_for_its_listeners_in_batch_mode() {
    assert_eq!(
        listener_args("db"),
        ["-o", "BatchMode=yes", "-o", "ConnectTimeout=10", "db", REMOTE]
    );
    let found = listeners("db", &output(true, "LISTEN 0 1 [::1]:631 [::]:*\n", "")).unwrap();
    assert_eq!((found[0].port, found[0].address.as_str(), found[0].loopback), (631, "::1", true));
    assert_eq!(
        listeners("db", &output(false, "", "first\nsecond\n")).unwrap_err(),
        "first"
    );
    assert_eq!(
        listeners("db", &output(false, "", " ")).unwrap_err(),
        "ssh db exited with exit status: 255"
    );
}

#[test]
fn addresses_are_listed_once_in_the_order_seen() {
    let text = "LISTEN 0 1 127.0.0.2:80 x\nLISTEN 0 1 [::1]:80 x\nLISTEN 0 1 127.0.0.2:80 x\n\
                LISTEN 0 1 0.0.0.0:22 x\nLISTEN 0 1 *:nope x\n";
    let found = listeners("db", &output(true, text, "")).unwrap();
    assert_eq!(found.len(), 2);
    assert_eq!(found[0].address, "127.0.0.2, ::1");
    assert_eq!((found[1].port, found[1].loopback), (22, false));
}

fn lights(health: &Health) -> String {
    health.lights()
}

#[test]
fn measuring_asks_for_what_it_needs() {
    let local = rule(Kind::Local, "127.0.0.1:6022", "localhost:22");
    assert!(matches!(check(&local), Step::Listen(6022)));
    let Step::Done(dead) = check_port(6022, Some(false)) else { panic!("connected anyway") };
    assert_eq!(lights(&dead), "* x o");
    assert_eq!(dead.detail, "running but nothing is listening on 6022");
    for bound in [Some(true), None] {
        let Step::Connect(address) = check_port(6022, bound) else { panic!("gave up") };
        assert_eq!(address, "127.0.0.1:6022");
    }
    let result = |reach: Reach, http_status: Option<u16>| ReachResult { reach, http_status };
    let open = check_path(&local, Some(true), result(Reach::Open, Some(200)));
    assert_eq!((lights(&open).as_str(), open.http_status), ("* * *", Some(200)));
    let closed = check_path(&local, None, result(Reach::Closed, Some(200)));
    assert_eq!((lights(&closed).as_str(), closed.http_status), ("* - x", None));
    assert_eq!(closed.detail, "tunnel is up but localhost:22 refused it");
    let refused = check_path(&local, Some(true), result(Reach::Refused, None));
    assert_eq!(refused.detail, "nothing accepted a connection on 6022");

    let remote = rule(Kind::Remote, "8080", "localhost:3000");
    let Step::Connect(address) = check(&remote) else { panic!("asked after a far port") };
    assert_eq!(address, "localhost:3000");
    assert_eq!(lights(&check_path(&remote, None, result(Reach::Open, None))), "* - *");
    let down = check_path(&remote, None, result(Reach::Closed, None));
    assert_eq!(lights(&down), "* - x");
    assert_eq!(down.detail, "nothing is serving localhost:3000 on this machine");

    let Step::Done(odd) = check(&rule(Kind::Local, "here", "a:1")) else { panic!("no port") };
    assert_eq!(odd.detail, "cannot read a port out of `here`");
    let mut udp = rule(Kind::Local, "53", "a:53");
    udp.protocol = Protocol::Udp;
    let Step::Done(unknown) = check(&udp) else { panic!("UDP was measured") };
    assert_eq!(lights(&unknown), "* - -");
    assert_eq!(unknown.detail, "UDP cannot be verified through SSH TCP forwarding");
}

#[test]
fn observing_looks_at_the_local_port_only() {
    let local = rule(Kind::Local, "6022", "localhost:22");
    assert_eq!(port_to_watch(&local), Some(6022));
    assert_eq!(lights(&observe(&local, Some(true))), "* * -");
    assert_eq!(observe(&local, Some(true)).detail, "");
    assert_eq!(lights(&observe(&local, Some(false))), "* x -");
    assert_eq!(observe(&local, Some(false)).detail, "running but nothing is listening on 6022");
    assert_eq!(observe(&local, None).detail, "cannot read a port out of `6022`");
    let remote = rule(Kind::Remote, "8080", "localhost:3000");
    assert_eq!(port_to_watch(&remote), None);
    assert_eq!(lights(&observe(&remote, Some(true))), "* - -");
    assert_eq!(observe(&remote, None).detail, "remote bind is not visible from this machine");
    let mut udp = rule(Kind::Local, "53", "a:53");
    udp.protocol = Protocol::Udp;
    assert_eq!(port_to_watch(&udp), None);
    assert_eq!(lights(&observe(&udp, Some(true))), "* - -");
    assert_eq!(lights(&Health::measuring()), "* - -");
    assert_eq!(Light::Bad.symbol(), "x");
}

#[test]
fn an_attempt_is_judged_by_how_the_first_read_ended() {
    let read = |ended: FirstRead, bytes: &[u8]| {
        let mut response = bytes.to_vec();
        response.resize(16, 0);
        Attempt::Read { ended, response }
    };
    let reach = |a: &Attempt| reachable(a, Protocol::Tcp).reach;
    assert_eq!(reach(&Attempt::Unbounded), Reach::Open);
    assert_eq!(reach(&read(FirstRead::Nothing, b"")), Reach::Closed);
    assert_eq!(reach(&read(FirstRead::Something, b"SSH-2.0")), Reach::Open);
    assert_eq!(reach(&read(FirstRead::TimedOut, b"")), Reach::Open);
    assert_eq!(reach(&read(FirstRead::Failed, b"")), Reach::Closed);
    let http = read(FirstRead::Something, b"HTTP/1.1 204 No\r");
    assert_eq!(reachable(&http, Protocol::Http).http_status, Some(204));
    assert_eq!(reachable(&http, Protocol::Tcp).http_status, None);
    assert_eq!(greeting(Protocol::Tcp), None);
    assert!(greeting(Protocol::Http).unwrap().starts_with("HEAD / HTTP/1.0\r\n"));
}

#[test]
fn a_status_is_read_from_the_first_line() {
    assert_eq!(parse_http_status(b"HTTP/1.0 301 Moved\r\nx"), Some(301));
    assert_eq!(parse_http_status(b"HTTP/2 200"), None);
    assert_eq!(parse_http_status(b"HTTP/1.1"), None);
    assert_eq!(parse_http_status(b"HTTP/1.1 two"), None);
    assert_eq!(parse_http_status(b"\nHTTP/1.1 200"), None);
    assert_eq!(parse_http_status("HTTP/1.1\u{a0}200\r".as_bytes()), Some(200));
    assert_eq!(parse_http_status(b"HTTP/1.1 200 \xff\r"), None);
    assert_eq!(parse_http_status(b""), None);
}

#[test]
fn listening_needs_one_table_that_can_be_read() {
    let head = "  sl  local_address rem_address   st\n";
    let row = "   0: 0100007F:1F90 00000000:0000 0A 0\n";
    let with = Some(format!("{head}{row}"));
    let without = Some(head.to_string());
    assert_eq!(listening(8080, &[without.clone(), with.clone()]), Some(true));
    assert_eq!(listening(8081, &[without.clone(), with]), Some(false));
    assert_eq!(listening(8080, &[None, without]), Some(false));
    assert_eq!(listening(8080, &[None, None]), None);
    // The heading is no row, whatever it says.
    assert_eq!(listening(8080, &[Some(row.to_string())]), Some(false));
    let bsd = "tcp4 0 0 127.0.0.1.6022 *.* LISTEN\n";
    assert_eq!(listening_by_netstat(6022, &output(true, bsd, "")), Some(true));
    assert_eq!(listening_by_netstat(22, &output(true, bsd, "")), Some(false));
    assert_eq!(listening_by_netstat(6022, &output(false, bsd, "")), None);
}

fn two_groups() -> Tunnels {
    Tunnels {
        profiles: vec![
            Profile {
                name: "daily".into(),
                forwards: vec![
                    rule(Kind::Local, "39001", "a:1"),
                    rule(Kind::Local, "0.0.0.0:39002", "a:2"),
                ],
            },
            Profile { name: "lab".into(), forwards: vec![rule(Kind::Local, "65535", "a:3")] },
        ],
    }
}

#[test]
fn rules_are_put_in_taken_out_and_replaced() {
    let mut tunnels = two_groups();
    tunnels.remove(0, 0);
    assert_eq!(tunnels.count(), 2);
    assert_eq!(tunnels.get(0, 0).unwrap().bind, "0.0.0.0:39002");
    tunnels.remove(1, 0);
    assert_eq!(tunnels.profiles.len(), 1, "an empty group was left");
    tunnels.insert("daily", rule(Kind::Remote, "1", "b:1"));
    tunnels.insert("new", rule(Kind::Remote, "2", "b:2"));
    assert_eq!(tunnels.all(), [(0, 0), (0, 1), (1, 0)]);
    tunnels.replace(0, 1, rule(Kind::Local, "3", "b:3"));
    assert_eq!(tunnels.get(0, 1).unwrap().bind, "3");
    assert!(tunnels.get(2, 0).is_none());
    assert!(tunnels.get(0, 2).is_none());
    assert_eq!(Tunnels::default().count(), 0);
}

#[test]
fn a_copy_takes_the_next_port_that_is_free() {
    let tunnels = two_groups();
    assert_eq!(tunnels.next_bind("39001"), "39003");
    assert_eq!(tunnels.next_bind("127.0.0.1:39000"), "127.0.0.1:39003");
    assert_eq!(tunnels.next_bind("65534"), "65534");
    assert_eq!(tunnels.next_bind("here"), "here");
}

#[test]
fn a_rule_in_the_form_is_the_rule() {
    let mut forward = rule(Kind::Remote, "1", "b:1");
    forward.protocol = Protocol::Http;
    forward.note = "why".into();
    let mut form = ForwardForm::new(3, Some(1), &forward, " lab ");
    assert_eq!(form.to_forward(), forward);
    assert_eq!(form.group(), "lab");
    assert_eq!(form.field(), ForwardField::Group);
    form.previous_field();
    assert_eq!(form.field(), ForwardField::Note);
    form.next_field();
    form.next_field();
    let config = SshConfig::parse("/c", "Host b\n Port 1\nHost a\n Port 1\nHost b\n User x\n");
    form.begin_edit(&config, &[]);
    let Some(Editing::Pick { options, index }) = &form.editing else { panic!("no picker") };
    assert_eq!((options.as_slice(), *index), (["a".to_string(), "b".to_string()].as_slice(), 0));
    form.cancel_edit();
    form.cursor = 2;
    form.begin_edit(&config, &[]);
    assert_eq!(form.editing.as_ref().unwrap().value(), "remote");
    form.commit_edit();
    form.values[2] = "sideways".into();
    assert_eq!(form.to_forward().kind, Kind::Local);
    assert_eq!(ForwardField::Target.placeholder(), "(host:port, resolved from the far side)");
    assert_eq!(ForwardField::Kind.label(), "Direction");
}
