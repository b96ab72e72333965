use excalibur::supervisor::{find, parse_argv, Running};
use excalibur::tunnels::{Forward, Kind, Protocol};

fn argv(line: &str) -> Vec<String> {
    line.split(' ').map(str::to_string).collect()
}

#[test]
fn reads_back_a_tunnel_this_tool_started() {
    // Exactly the cmdline observed for a live tunnel.
    let parsed = parse_argv(&argv(
        "ssh -f -N -o BatchMode=yes -o ExitOnForwardFailure=yes \
         -L 39997:127.0.0.1:22 kami",
    ));
    assert_eq!(
        parsed,
        Some((Kind::Local, "39997:127.0.0.1:22".into(), "kami".into()))
    );
}

#[test]
fn reads_back_a_hand_written_tunnel_with_the_flags_in_another_order() {
    // The shape from the author's shell history: host before `-N`.
    let parsed = parse_argv(&argv("ssh -L 29001:0.0.0.0:9001 xx-database-1 -N"));
    assert_eq!(
        parsed,
        Some((
            Kind::Local,
            "29001:0.0.0.0:9001".into(),
            "xx-database-1".into()
        ))
    );
}

#[test]
fn accepts_a_value_attached_to_its_flag() {
    let parsed = parse_argv(&argv("ssh -N -L8080:localhost:80 kami"));
    assert_eq!(
        parsed,
        Some((Kind::Local, "8080:localhost:80".into(), "kami".into()))
    );
}

#[test]
fn accepts_a_cluster_of_booleans_before_the_flag() {
    let parsed = parse_argv(&argv("ssh -fN -R 8080:localhost:3000 kami"));
    assert_eq!(
        parsed,
        Some((Kind::Remote, "8080:localhost:3000".into(), "kami".into()))
    );
}

#[test]
fn an_option_value_is_not_mistaken_for_the_host() {
    // `-p 2222` and `-o Foo=bar` both consume the next word; the host is the
    // first bare word that is left.
    let parsed = parse_argv(&argv(
        "ssh -p 2222 -o ServerAliveInterval=30 -L 1:2:3 realhost",
    ));
    assert_eq!(parsed.unwrap().2, "realhost");
}

#[test]
fn a_proxycommand_helper_is_not_a_tunnel() {
    // Every jump host spawns one of these; matching it would invent tunnels.
    assert_eq!(
        parse_argv(&argv("/run/current-system/sw/bin/ssh lxb@kami -W %h:%p")),
        None
    );
}

#[test]
fn a_plain_session_is_not_a_tunnel() {
    assert_eq!(parse_argv(&argv("ssh kami")), None);
}

#[test]
fn a_dynamic_forward_is_not_claimed() {
    // SOCKS is out of scope, so `-D` must not be reported as a forward.
    assert_eq!(parse_argv(&argv("ssh -N -D 1080 kami")), None);
}

#[test]
fn another_program_is_ignored_even_with_matching_flags() {
    assert_eq!(parse_argv(&argv("sshpass -L 1:2:3 kami")), None);
}

#[test]
fn an_absolute_ssh_path_is_still_ssh() {
    let parsed = parse_argv(&argv("/usr/bin/ssh -N -L 1:h:2 kami"));
    assert_eq!(parsed.unwrap().0, Kind::Local);
}

#[test]
fn a_flag_with_no_value_at_the_end_is_not_a_tunnel() {
    assert_eq!(parse_argv(&argv("ssh -N kami -L")), None);
}

#[test]
fn find_matches_only_on_all_three_fields() {
    let running = vec![Running {
        pid: 1,
        kind: Kind::Local,
        spec: "29001:0.0.0.0:9001".into(),
        host: "db".into(),
    }];
    let mut forward = Forward {
        host: "db".into(),
        kind: Kind::Local,
        bind: "29001".into(),
        target: "0.0.0.0:9001".into(),
        protocol: Protocol::Tcp,
        note: String::new(),
    };
    assert!(find(&running, &forward).is_some());

    forward.kind = Kind::Remote;
    assert!(find(&running, &forward).is_none(), "direction ignored");

    forward.kind = Kind::Local;
    forward.target = "0.0.0.0:9002".into();
    assert!(find(&running, &forward).is_none(), "target ignored");

    forward.target = "0.0.0.0:9001".into();
    forward.host = "other".into();
    assert!(find(&running, &forward).is_none(), "host ignored");
}
