use excalibur::tunnels::{Forward, Kind, Profile, Protocol, Tunnels};

fn local() -> Forward {
    Forward {
        host: "xx-database-1".into(),
        kind: Kind::Local,
        bind: "29001".into(),
        target: "0.0.0.0:9001".into(),
        protocol: Protocol::Tcp,
        note: "minio console".into(),
    }
}

fn remote() -> Forward {
    Forward {
        host: "xx-database-1".into(),
        kind: Kind::Remote,
        bind: "8080".into(),
        target: "localhost:3000".into(),
        protocol: Protocol::Tcp,
        note: String::new(),
    }
}

#[test]
fn a_local_forward_matches_what_the_shell_history_shows() {
    assert_eq!(
        local().command_line(),
        "ssh -f -N -o BatchMode=yes -o ExitOnForwardFailure=yes \
         -L 29001:0.0.0.0:9001 xx-database-1"
    );
}

#[test]
fn a_remote_forward_uses_the_r_flag() {
    assert!(remote().command_line().contains("-R 8080:localhost:3000"));
}

#[test]
fn the_listening_side_swaps_between_the_two_directions() {
    // The one thing that has to be right: -L opens the port here, -R opens
    // it on the far side.
    let (listen, exit) = local().explain();
    assert!(listen.contains("this machine"));
    assert!(exit.contains("xx-database-1"));

    let (listen, exit) = remote().explain();
    assert!(listen.contains("xx-database-1"));
    assert!(exit.contains("this machine"));
}

#[test]
fn all_walks_every_profile() {
    let tunnels = Tunnels {
        profiles: vec![
            Profile {
                name: "a".into(),
                forwards: vec![local()],
            },
            Profile {
                name: "b".into(),
                forwards: vec![local(), remote()],
            },
        ],
    };
    assert_eq!(tunnels.all(), [(0, 0), (1, 0), (1, 1)]);
    assert_eq!(tunnels.count(), 3);
}
