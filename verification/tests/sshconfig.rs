use excalibur::sshconfig::{FileFacts, HostBlock, SshConfig};

/// Mirrors the quirks of the author's real file: one-space and two-space
/// indentation, `Hostname` next to `HostName`, a trailing space inside a
/// `Host` pattern, a whitespace-only line, and a duplicated alias.
const FIXTURE: &str = "Host github.com\n\
     \x20Hostname ssh.github.com\n\
     \x20Port 443\n\
     \x20ProxyCommand /run/current-system/sw/bin/ssh lxb@kami -W %h:%p\n\
     \n\
     \x20Host kami\n\
     \x20\x20Hostname 192.168.110.134\n\
     \x20\x20User lxb\n\
     \x20\x20Port 22\n\
     \x20\x20\n\
     Host xx-trade-wsl1 \n\
     \x20\x20HostName sisyphus\n\
     \x20\x20Port 12221\n\
     \x20\x20User nixos\n\
     \n\
     Host kami\n\
     \x20\x20Hostname 192.168.110.134\n\
     \x20\x20User lxb\n\
     \x20\x20Port 22\n";

fn parse(text: &str) -> SshConfig {
    SshConfig::parse("/tmp/config", text)
}

fn find<'a>(config: &'a SshConfig, alias: &str) -> Option<&'a HostBlock> {
    config.hosts.iter().find(|b| b.alias() == alias)
}

#[test]
fn round_trips_byte_for_byte() {
    assert_eq!(parse(FIXTURE).to_text(), FIXTURE);
}

#[test]
fn round_trips_crlf_and_a_missing_final_newline() {
    let text = "Host a\r\n  Port 22\r\nHost b\r\n  Port 23";
    assert_eq!(parse(text).to_text(), text);
}

#[test]
fn finds_every_host_block_in_order() {
    let config = parse(FIXTURE);
    let aliases: Vec<&str> = config.hosts.iter().map(HostBlock::alias).collect();
    assert_eq!(aliases, ["github.com", "kami", "xx-trade-wsl1", "kami"]);
}

#[test]
fn indented_host_header_still_starts_a_block() {
    // ` Host kami` is indented by one space in the real file.
    assert!(find(&parse(FIXTURE), "kami").is_some());
}

#[test]
fn trailing_space_in_a_host_pattern_is_trimmed() {
    let block = find(&parse(FIXTURE), "xx-trade-wsl1").cloned();
    assert!(block.is_some(), "pattern with a trailing space was not found");
}

#[test]
fn key_lookup_ignores_case_but_the_written_key_is_kept() {
    let config = parse(FIXTURE);
    let wsl = find(&config, "xx-trade-wsl1").unwrap();
    assert_eq!(wsl.get("hostname").unwrap().key, "HostName");
    let gh = find(&config, "github.com").unwrap();
    assert_eq!(gh.get("HOSTNAME").unwrap().key, "Hostname");
}

#[test]
fn gateway_is_recovered_from_a_legacy_proxycommand() {
    let config = parse(FIXTURE);
    assert_eq!(
        find(&config, "github.com").unwrap().gateway().as_deref(),
        Some("lxb@kami")
    );
}

#[test]
fn gateway_is_recovered_when_the_host_follows_the_w_flag() {
    let config = parse("Host a\n  ProxyCommand ssh -W %h:%p bastion\n");
    assert_eq!(config.hosts[0].gateway().as_deref(), Some("bastion"));
}

#[test]
fn proxyjump_takes_the_first_hop_of_a_chain() {
    let config = parse("Host a\n  ProxyJump g1,g2\n");
    assert_eq!(config.hosts[0].gateway().as_deref(), Some("g1"));
}

#[test]
fn a_host_without_a_gateway_reports_none() {
    assert_eq!(parse(FIXTURE).hosts[1].gateway(), None);
}

#[test]
fn a_duplicate_block_adding_nothing_new_is_shadowed() {
    let config = parse(FIXTURE);
    assert_eq!(config.hosts[3].alias(), "kami");
    assert_eq!(config.hosts[3].shadowed_by, Some(1));
    assert_eq!(config.hosts[1].shadowed_by, None);
}

#[test]
fn a_duplicate_block_introducing_a_new_keyword_is_not_shadowed() {
    // OpenSSH takes the first value per keyword, so `User` here still wins.
    let config = parse("Host a\n  Port 22\nHost a\n  User lxb\n");
    assert_eq!(config.hosts[1].shadowed_by, None);
}

#[test]
fn a_wildcard_block_shadows_a_later_literal_block() {
    let config = parse("Host *\n  Port 22\nHost kami\n  Port 2222\n");
    assert_eq!(config.hosts[1].shadowed_by, Some(0));
}

#[test]
fn a_negated_pattern_does_not_shadow() {
    let config = parse("Host * !kami\n  Port 22\nHost kami\n  Port 2222\n");
    assert_eq!(config.hosts[1].shadowed_by, None);
}

#[test]
fn block_end_excludes_trailing_blank_lines() {
    let config = parse(FIXTURE);
    let kami = &config.hosts[1];
    // Header at 5, directives at 6..=8, whitespace-only line 9 stays outside.
    assert_eq!((kami.start, kami.end), (5, 9));
}

#[test]
fn a_match_block_fences_off_the_preceding_host() {
    let config = parse("Host a\n  Port 22\nMatch user root\n  Port 23\n");
    assert_eq!(config.hosts.len(), 1);
    assert_eq!(config.hosts[0].directives.len(), 1);
}

#[test]
fn key_equals_value_is_accepted() {
    let config = parse("Host=a\n  Port=22\n");
    assert_eq!(config.hosts[0].alias(), "a");
    assert_eq!(config.hosts[0].get("Port").unwrap().value, "22");
}

#[test]
fn a_missing_file_parses_as_an_empty_config() {
    let config = SshConfig::load_from("/tmp/definitely-not-here", None, &FileFacts::Missing);
    assert!(config.hosts.is_empty());
}
