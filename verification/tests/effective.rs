use excalibur::effective::{match_exec_line, resolve, Effective, Query};

fn lines(text: &str) -> Vec<String> {
    text.lines().map(str::to_string).collect()
}

#[test]
fn agrees_only_when_the_written_value_is_the_one_in_use() {
    let effective = Effective {
        values: vec![
            ("port".into(), "22".into()),
            ("identityfile".into(), "~/.ssh/id_rsa".into()),
            ("identityfile".into(), "~/.ssh/id_ed25519".into()),
        ],
        error: None,
    };
    assert!(effective.agrees("Port", "22"));
    assert!(!effective.agrees("Port", "9999"));
    // A repeated key agrees with any of its values.
    assert!(effective.agrees("IdentityFile", "~/.ssh/id_ed25519"));
    assert_eq!(effective.first("Port"), Some("22"));
    assert_eq!(effective.first("User"), None);
}

#[test]
fn a_match_exec_block_is_refused_rather_than_run() {
    let Query::Answer(result) = resolve("anything", &lines("Host a\nMatch exec \"true\"\n  Port 22"))
    else {
        panic!("ssh was to be run");
    };
    assert!(result.values.is_empty());
    assert!(result.error.unwrap().contains("line 2"));
}

#[test]
fn a_plain_match_block_does_not_block_resolution() {
    assert!(match_exec_line(&lines("Host a\nMatch user root\n  Port 22")).is_none());
}
