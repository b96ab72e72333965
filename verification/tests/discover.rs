use excalibur::discover::parse;

/// Real `ss -tlnH` output, including the `[::1]` form and a port bound on
/// both families.
const SS: &str = "\
LISTEN 0      4096       127.0.0.1:8080       0.0.0.0:*
LISTEN 0      511          0.0.0.0:80         0.0.0.0:*
LISTEN 0      128            [::1]:631           [::]:*
LISTEN 0      128        127.0.0.1:631        0.0.0.0:*
LISTEN 0      128             [::]:80            [::]:*
";

const NETSTAT: &str = "\
Active Internet connections (only servers)
Proto Recv-Q Send-Q Local Address           Foreign Address         State
tcp        0      0 127.0.0.1:8080          0.0.0.0:*               LISTEN
tcp        0      0 0.0.0.0:22              0.0.0.0:*               LISTEN
tcp6       0      0 ::1:631                 :::*                    LISTEN
";

#[test]
fn loopback_only_ports_come_first() {
    // They are the point of the feature: nothing outside that machine can
    // reach them, so they are the ones `-L` exists for.
    let ports: Vec<u16> = parse(SS).iter().map(|l| l.port).collect();
    assert_eq!(ports, [631, 8080, 80]);
}

#[test]
fn a_port_bound_on_both_families_is_listed_once() {
    // 631 appears as 127.0.0.1 and [::1]. Listing it twice would have you
    // forward the same service twice.
    let found = parse(SS);
    assert_eq!(found.iter().filter(|l| l.port == 631).count(), 1);
    let cups = found.iter().find(|l| l.port == 631).unwrap();
    assert!(cups.loopback);
    assert!(cups.address.contains("::1"), "got: {}", cups.address);
    assert!(cups.address.contains("127.0.0.1"), "got: {}", cups.address);
}

#[test]
fn one_public_binding_makes_the_whole_port_public() {
    // 80 is on 0.0.0.0 and [::]; either way it is already reachable and
    // forwarding it would be pointless.
    let found = parse(SS);
    assert!(!found.iter().find(|l| l.port == 80).unwrap().loopback);
}

#[test]
fn netstat_output_parses_the_same_way() {
    // The fallback for machines without `ss`. Its header rows must not turn
    // into ports.
    let found = parse(NETSTAT);
    let ports: Vec<u16> = found.iter().map(|l| l.port).collect();
    assert_eq!(ports, [631, 8080, 22]);
    assert!(found[0].loopback && found[1].loopback);
    assert!(!found[2].loopback);
}

/// BSD `netstat -an -p tcp`, the third fallback: dotted ports, `tcp4`/`tcp46`
/// protocols, and rows that are not listeners at all.
const BSD: &str = "\
Active Internet connections (including servers)
Proto Recv-Q Send-Q  Local Address          Foreign Address        (state)
tcp4       0      0  127.0.0.1.8080         *.*                    LISTEN
tcp46      0      0  *.80                   *.*                    LISTEN
tcp6       0      0  ::1.631                *.*                    LISTEN
tcp4       0      0  127.0.0.1.631          *.*                    LISTEN
tcp4       0      0  192.168.1.5.52134      17.253.144.10.443      ESTABLISHED
";

#[test]
fn bsd_netstat_output_parses_the_same_way() {
    // Same shape as SS: 631 on both families, 80 public, 8080 loopback.
    let found = parse(BSD);
    let ports: Vec<u16> = found.iter().map(|l| l.port).collect();
    assert_eq!(ports, [631, 8080, 80]);
    assert!(
        found[0].address.contains("::1"),
        "got: {}",
        found[0].address
    );
    assert!(!found[2].loopback, "the wildcard row read as loopback");
}

#[test]
fn a_bsd_connection_does_not_become_a_forwardable_port() {
    // `-an` lists everything. 443 is what this machine is *talking to*;
    // offering it as a port to forward would be an invented service.
    let ports: Vec<u16> = parse(BSD).iter().map(|l| l.port).collect();
    assert!(
        !ports.contains(&443),
        "an outbound connection became a port"
    );
    assert!(!ports.contains(&52134));
}

#[test]
fn noise_does_not_become_a_port() {
    assert!(parse("").is_empty());
    assert!(parse("bash: ss: command not found\n").is_empty());
    assert!(parse("LISTEN 0 128\n").is_empty(), "a short row was read");
}
