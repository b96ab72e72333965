use excalibur::probe::{
    bind_port, listens_in_netstat, listens_on, reachable, Attempt, Health, Reach,
};
use excalibur::tunnels::Protocol;

#[test]
fn a_bind_spec_yields_its_port_with_or_without_an_address() {
    assert_eq!(bind_port("29001"), Some(29001));
    assert_eq!(bind_port("0.0.0.0:29001"), Some(29001));
    assert_eq!(bind_port("127.0.0.1:8080"), Some(8080));
    assert_eq!(bind_port("not-a-port"), None);
}

#[test]
fn a_listen_row_is_recognised_by_port_and_state() {
    // Copied from /proc/net/tcp with a live tunnel on 39995 (0x9C3B).
    let row = "  20: 0100007F:9C3B 00000000:0000 0A 00000000:00000000 \
               00:00000000 00000000  1002        0 8910121 1";
    assert!(listens_on(row, 39995));
    assert!(!listens_on(row, 39996), "matched the wrong port");
}

#[test]
fn an_established_row_is_not_a_listener() {
    // Same port, state 01 (ESTABLISHED). Counting it would report a forward
    // as bound because something merely connected to it once.
    let row = "  20: 0100007F:9C3B 0100007F:1234 01 00000000:00000000 \
               00:00000000 00000000  1002        0 8910121 1";
    assert!(!listens_on(row, 39995));
}

/// Real `netstat -an -p tcp` output from macOS, with a tunnel on 6022 bound
/// on both families and an established connection to 443.
const NETSTAT: &str = "\
Active Internet connections (including servers)
Proto Recv-Q Send-Q  Local Address          Foreign Address        (state)
tcp4       0      0  127.0.0.1.6022         *.*                    LISTEN
tcp6       0      0  ::1.6022               *.*                    LISTEN
tcp46      0      0  *.22                   *.*                    LISTEN
tcp4       0      0  192.168.1.5.52134      17.253.144.10.443      ESTABLISHED
";

#[test]
fn a_bsd_listen_row_is_recognised_through_its_dotted_port() {
    assert!(listens_in_netstat(NETSTAT, 6022));
    assert!(
        listens_in_netstat(NETSTAT, 22),
        "the wildcard row was missed"
    );
    assert!(!listens_in_netstat(NETSTAT, 60), "matched a partial port");
}

#[test]
fn a_bsd_established_row_is_not_a_listener() {
    // `netstat -an` lists every connection, not only listeners. Without the
    // state column the far port of this row reports 443 as bound here.
    assert!(!listens_in_netstat(NETSTAT, 443));
    assert!(!listens_in_netstat(NETSTAT, 52134));
}

#[test]
fn bsd_headers_are_not_listeners() {
    assert!(!listens_in_netstat(NETSTAT, 0));
    assert!(!listens_in_netstat("", 6022));
}

#[test]
fn a_port_nobody_serves_is_not_reachable() {
    assert!(matches!(
        reachable(&Attempt::NotConnected, Protocol::Tcp).reach,
        Reach::Refused
    ));
}

#[test]
fn a_stopped_rule_shows_three_dark_lights() {
    assert_eq!(Health::stopped().lights(), "o o o");
}
