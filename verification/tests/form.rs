use excalibur::form::{candidates, write_config, Field, HostForm};
use excalibur::sshconfig::SshConfig;

const FIXTURE: &str = "Host web\n\
     \x20\x20HostName 52.82.106.84\n\
     \x20\x20User root\n\
     \x20\x20Port 22\n\
     \x20\x20IdentityFile ~/AWS/key.pem\n\
     \x20\x20ServerAliveInterval 30\n\
     \x20\x20ServerAliveCountMax 7200\n\
     \n\
     Host jumped\n\
     \x20\x20HostName 127.0.0.1\n\
     \x20\x20Port 6022\n\
     \x20\x20ProxyCommand /run/current-system/sw/bin/ssh wonder@db -W %h:%p\n";

fn config(text: &str) -> SshConfig {
    SshConfig::parse("/tmp/config", text)
}

fn form(config: &SshConfig, alias: &str) -> HostForm {
    let index = config
        .hosts
        .iter()
        .position(|h| h.alias() == alias)
        .expect("host in fixture");
    HostForm::new(config, index).unwrap()
}

fn set(form: &mut HostForm, field: Field, value: &str) {
    let i = Field::ALL.iter().position(|f| *f == field).unwrap();
    form.values[i] = value.to_string();
}

#[test]
fn reads_the_six_fields_off_a_block() {
    let config = config(FIXTURE);
    let form = form(&config, "web");
    assert_eq!(form.value(Field::Alias), "web");
    assert_eq!(form.value(Field::HostName), "52.82.106.84");
    assert_eq!(form.value(Field::User), "root");
    assert_eq!(form.value(Field::Port), "22");
    assert_eq!(form.value(Field::IdentityFile), "~/AWS/key.pem");
    assert_eq!(form.value(Field::Gateway), "");
}

#[test]
fn directives_outside_the_six_fields_are_listed_not_swallowed() {
    let config = config(FIXTURE);
    assert_eq!(
        form(&config, "web").other,
        ["ServerAliveInterval 30", "ServerAliveCountMax 7200"]
    );
}

#[test]
fn an_unedited_form_changes_nothing() {
    let config = config(FIXTURE);
    let plan = form(&config, "web").plan(&config);
    assert!(plan.changes.is_empty());
    assert_eq!(plan.lines.join("\n"), FIXTURE);
}

#[test]
fn editing_a_port_touches_exactly_one_line() {
    let config = config(FIXTURE);
    let mut form = form(&config, "web");
    set(&mut form, Field::Port, "2222");
    let plan = form.plan(&config);

    assert_eq!(plan.changes.len(), 1);
    assert_eq!(plan.lines.len(), config.lines.len());
    let differing: Vec<usize> = (0..config.lines.len())
        .filter(|i| config.lines[*i] != plan.lines[*i])
        .collect();
    assert_eq!(differing, [3]);
    assert_eq!(plan.lines[3], "  Port 2222");
}

#[test]
fn unmodelled_directives_survive_an_edit() {
    // The whole point: `windows-via-reverse` style blocks must not lose
    // their extra directives when the form saves.
    let config = config(FIXTURE);
    let mut form = form(&config, "web");
    set(&mut form, Field::Port, "2222");
    let text = form.plan(&config).lines.join("\n");
    assert!(text.contains("  ServerAliveInterval 30"));
    assert!(text.contains("  ServerAliveCountMax 7200"));
}

#[test]
fn a_new_directive_is_inserted_with_the_blocks_indentation() {
    let config = config("Host a\n    Port 22\n");
    let mut form = form(&config, "a");
    set(&mut form, Field::User, "lxb");
    assert_eq!(
        form.plan(&config).lines,
        ["Host a", "    Port 22", "    User lxb", ""]
    );
}

#[test]
fn clearing_a_field_removes_its_line() {
    let config = config(FIXTURE);
    let mut form = form(&config, "web");
    set(&mut form, Field::IdentityFile, "");
    let text = form.plan(&config).lines.join("\n");
    assert!(!text.contains("IdentityFile"));
    assert!(text.contains("  ServerAliveInterval 30"));
}

#[test]
fn changing_a_gateway_keeps_the_rest_of_the_proxycommand() {
    let config = config(FIXTURE);
    let mut form = form(&config, "jumped");
    set(&mut form, Field::Gateway, "kami");
    let text = form.plan(&config).lines.join("\n");
    assert!(
        text.contains("  ProxyCommand /run/current-system/sw/bin/ssh kami -W %h:%p"),
        "got: {text}"
    );
}

#[test]
fn adding_a_gateway_to_a_plain_host_writes_proxyjump() {
    let config = config(FIXTURE);
    let mut form = form(&config, "web");
    set(&mut form, Field::Gateway, "kami");
    assert!(
        form.plan(&config)
            .lines
            .join("\n")
            .contains("  ProxyJump kami")
    );
}

#[test]
fn clearing_a_gateway_drops_the_proxycommand() {
    let config = config(FIXTURE);
    let mut form = form(&config, "jumped");
    set(&mut form, Field::Gateway, "");
    assert!(!form.plan(&config).lines.join("\n").contains("ProxyCommand"));
}

#[test]
fn renaming_writes_the_host_header() {
    let config = config(FIXTURE);
    let mut form = form(&config, "web");
    set(&mut form, Field::Alias, "www");
    assert_eq!(form.plan(&config).lines[0], "Host www");
}

#[test]
fn a_multi_pattern_header_is_not_renamed() {
    let config = config("Host a b\n  Port 22\n");
    let mut form = form(&config, "a");
    assert!(form.alias_locked);
    set(&mut form, Field::Alias, "z");
    assert_eq!(form.plan(&config).lines[0], "Host a b");
}

#[test]
fn odd_indentation_and_key_spelling_are_preserved() {
    let config = config("Host a\n\tHostname old\n");
    let mut form = form(&config, "a");
    set(&mut form, Field::HostName, "new");
    assert_eq!(form.plan(&config).lines[1], "\tHostname new");
}

#[test]
fn an_equals_separator_is_preserved() {
    let config = config("Host a\n  Port=22\n");
    let mut form = form(&config, "a");
    set(&mut form, Field::Port, "23");
    assert_eq!(form.plan(&config).lines[1], "  Port=23");
}

#[test]
fn two_edits_at_once_stay_aligned() {
    let config = config(FIXTURE);
    let mut form = form(&config, "web");
    set(&mut form, Field::User, "lxb");
    set(&mut form, Field::IdentityFile, "");
    let lines = form.plan(&config).lines;
    assert!(lines.contains(&"  User lxb".to_string()));
    assert!(!lines.iter().any(|l| l.contains("IdentityFile")));
    assert!(lines.contains(&"  ServerAliveInterval 30".to_string()));
}

#[test]
fn gateway_candidates_exclude_the_host_being_edited() {
    let config = config(FIXTURE);
    let options = candidates(&config, Field::Gateway, 0, &[]);
    assert!(options.contains(&"jumped".to_string()));
    assert!(!options.contains(&"web".to_string()));
}

#[test]
fn a_read_only_config_refuses_to_save() {
    let mut config = config(FIXTURE);
    config.read_only = true;
    let lines = config.lines.clone();
    assert!(write_config(&config, &lines).is_err());
}

#[test]
fn user_candidates_come_from_the_config() {
    let config = config("Host a\n  User root\nHost b\n  User lxb\nHost c\n  User lxb\n");
    assert_eq!(candidates(&config, Field::User, 0, &[]), ["lxb", "root"]);
}
