use excalibur::command::CommandOutput;
use excalibur::effective::{match_exec_line, not_run, read_answer, resolve, Effective, Query};
use excalibur::key::{KeyCode, KeyEvent};
use excalibur::module::ModuleAction;
use excalibur::paint::{Color, Row, Style};
use excalibur::probe::{Health, Light};
use excalibur::proctrace::{
    Answer, FoundProcess, InputMode, ProcessTracerModule, Reaction,
};
use excalibur::rhythm::{poll, Poll, Rhythm};
use excalibur::ssh::{SshModule, World};
use excalibur::sshconfig::SshConfig;
use excalibur::state::{narrow, Request, Screen};
use excalibur::supervisor::Running;
use excalibur::systemd::{fetch_systemd_metadata, parse_systemctl_output};
use excalibur::tunnels::{Forward, Kind, Profile, Protocol, Tunnels};
use excalibur::ui;
use excalibur::worker::{Job, Outcome};

fn output(success: bool, stdout: &str, stderr: &str) -> CommandOutput {
    CommandOutput {
        success,
        status: "exit status: 1".into(),
        stdout: stdout.into(),
        stderr: stderr.into(),
    }
}

fn lines(text: &str) -> Vec<String> {
    text.lines().map(str::to_string).collect()
}

fn world() -> World {
    World { now: 7, ssh_files: vec!["id_rsa".into(), "id_rsa.pub".into()] }
}

fn press(module: &mut SshModule, code: KeyCode) -> ModuleAction {
    module.handle_key_event(KeyEvent::plain(code), &world())
}

fn save(module: &mut SshModule) {
    let key = KeyEvent { code: KeyCode::Char('s'), ctrl: true, alt: false, shift: false };
    assert_eq!(module.handle_key_event(key, &world()), ModuleAction::Stay);
}

fn on_hosts(text: &str) -> SshModule {
    let mut module = SshModule::new();
    module.init(Ok(SshConfig::parse("/tmp/config", text)), Ok(Tunnels::default()), 0);
    module.state.screen = Screen::Config;
    module
}

fn forward(bind: &str) -> Forward {
    Forward {
        host: "kami".into(),
        kind: Kind::Local,
        bind: bind.into(),
        target: "localhost:22".into(),
        protocol: Protocol::Tcp,
        note: String::new(),
    }
}

fn on_dashboard(binds: &[&str]) -> SshModule {
    let mut module = SshModule::new();
    let forwards = binds.iter().map(|b| forward(b)).collect();
    let tunnels = Tunnels { profiles: vec![Profile { name: "daily".into(), forwards }] };
    module.init(Err("no config".into()), Ok(tunnels), 0);
    module.state.screen = Screen::Dashboard;
    module
}

fn flat(rows: &[Row]) -> Vec<String> {
    rows.iter().map(|r| r.spans.iter().map(|s| s.text.clone()).collect()).collect()
}

#[test]
fn what_ssh_prints_is_read_line_by_line() {
    let answer = read_answer(&output(
        true,
        "HOST kami\nport  22 \nproxyjump\nidentityfile ~/.ssh/id\n",
        " line 3: Bad \n",
    ));
    assert_eq!(
        answer.values,
        [
            ("host".to_string(), "kami".to_string()),
            ("port".to_string(), "22".to_string()),
            ("identityfile".to_string(), "~/.ssh/id".to_string()),
        ]
    );
    assert_eq!(answer.error.as_deref(), Some("line 3: Bad"));
    assert_eq!(read_answer(&output(true, "", " \n")).error, None);
    assert_eq!(not_run("gone").error.as_deref(), Some("could not run ssh: gone"));
    let Query::Run(args) = resolve("kami", &lines("Host kami\n  Port 22")) else {
        panic!("refused");
    };
    assert_eq!(args, ["-G", "kami", "true"]);
}

#[test]
fn a_command_in_any_case_is_refused() {
    assert_eq!(match_exec_line(&lines("  MATCH host x EXEC true")), Some(1));
    assert_eq!(match_exec_line(&lines("# match exec\nMatch\texec x")), Some(2));
    assert_eq!(match_exec_line(&lines("Ma")), None);
    assert_eq!(match_exec_line(&lines("Mätch exec x\nMatcß exec")), None);
}

#[test]
fn properties_keep_their_last_value() {
    let shown = "Description=A=B\nActiveState=active\nRestart=no\nRestart=always\nnothing\n";
    let found = fetch_systemd_metadata("x.service", &output(true, shown, "")).unwrap();
    assert_eq!(found.unit_name, "x.service");
    assert_eq!(found.description.as_deref(), Some("A=B"));
    assert_eq!(found.active_state, "active");
    assert_eq!(found.sub_state, "unknown");
    assert_eq!(found.exec_start, None);
    assert_eq!(found.restart_policy.as_deref(), Some("always"));
    assert_eq!(
        fetch_systemd_metadata("x.service", &output(false, shown, "")).unwrap_err(),
        "systemctl show failed for x.service"
    );
    assert_eq!(
        parse_systemctl_output("a=1\r\nb\n=c\n"),
        [("a".to_string(), "1".to_string()), (String::new(), "c".to_string())]
    );
}

#[test]
fn a_query_is_typed_answered_and_left() {
    let mut tracer = ProcessTracerModule::new();
    for c in "pid:1x".chars() {
        let reaction = tracer.handle_key_event(KeyEvent::plain(KeyCode::Char(c)));
        assert_eq!(reaction, Reaction::Act(ModuleAction::Stay));
    }
    tracer.handle_key_event(KeyEvent::plain(KeyCode::Backspace));
    assert_eq!(tracer.query_input, "pid:1");
    let key = |t: &mut ProcessTracerModule, code| t.handle_key_event(KeyEvent::plain(code));
    assert_eq!(key(&mut tracer, KeyCode::Enter), Reaction::RunQuery);
    assert_eq!(key(&mut tracer, KeyCode::Up), Reaction::HistoryUp);
    assert_eq!(key(&mut tracer, KeyCode::Down), Reaction::HistoryDown);

    assert_eq!(tracer.take_answer(Answer::Invalid("what".into())), None);
    assert_eq!(tracer.notification.as_deref(), Some("Invalid query: what"));
    assert_eq!(tracer.take_answer(Answer::Failed("no".into())), None);
    assert_eq!(tracer.notification.as_deref(), Some("Query error: no"));
    assert_eq!(tracer.take_answer(Answer::Found(Vec::new())), None);
    assert_eq!(tracer.notification.as_deref(), Some("No processes found"));
    assert_eq!(tracer.input_mode, InputMode::Query);

    let found = vec![
        FoundProcess { pid: 7, unit: None, working_directory: Some("/srv".into()) },
        FoundProcess { pid: 8, unit: Some("x.service".into()), working_directory: None },
    ];
    assert_eq!(tracer.take_answer(Answer::Found(found)).as_deref(), Some("pid:1"));
    assert_eq!(tracer.notification.as_deref(), Some("Found 2 result(s)"));
    assert_eq!(tracer.input_mode, InputMode::ViewResults);

    let emitted = |text: &str| Reaction::Act(ModuleAction::Output(text.into()));
    assert_eq!(key(&mut tracer, KeyCode::Char('x')), emitted("kill 7"));
    assert_eq!(key(&mut tracer, KeyCode::Char('c')), emitted("cd /srv"));
    assert_eq!(key(&mut tracer, KeyCode::Char('r')), Reaction::Act(ModuleAction::Stay));
    assert_eq!(tracer.notification.as_deref(), Some("Not supervised by systemd"));
    tracer.selected_result = 1;
    assert_eq!(key(&mut tracer, KeyCode::Char('l')), emitted("journalctl -u x.service -f"));
    assert_eq!(key(&mut tracer, KeyCode::Char('r')), emitted("systemctl restart x.service"));
    key(&mut tracer, KeyCode::Char('c'));
    assert_eq!(
        tracer.notification.as_deref(),
        Some("No working directory for this process")
    );
    tracer.selected_result = 2;
    assert_eq!(key(&mut tracer, KeyCode::Char('x')), Reaction::Act(ModuleAction::Stay));
    for (code, reaction) in [
        (KeyCode::Char('k'), Reaction::SelectPrevious),
        (KeyCode::Down, Reaction::SelectNext),
        (KeyCode::Home, Reaction::SelectFirst),
        (KeyCode::Char('G'), Reaction::SelectLast),
        (KeyCode::PageUp, Reaction::PageUp),
        (KeyCode::PageDown, Reaction::PageDown),
        (KeyCode::Char('q'), Reaction::Act(ModuleAction::Exit)),
        (KeyCode::Char('z'), Reaction::Act(ModuleAction::Stay)),
    ] {
        assert_eq!(key(&mut tracer, code), reaction);
    }
    key(&mut tracer, KeyCode::Char('/'));
    assert_eq!((tracer.input_mode, tracer.query_input.as_str()), (InputMode::Query, ""));
    assert_eq!(key(&mut tracer, KeyCode::Esc), Reaction::Act(ModuleAction::Exit));
    tracer.selected_result = 5;
    tracer.cleanup();
    assert!(tracer.query_results.is_empty());
    assert_eq!(tracer.selected_result, 5);
    tracer.init();
    assert_eq!(tracer.selected_result, 0);
}

#[test]
fn modules_are_listed_by_name_and_key() {
    let ssh = SshModule::default().metadata();
    assert_eq!((ssh.name.as_str(), ssh.shortcut), ("SSH Tunnels", Some('t')));
    let tracer = ProcessTracerModule::new().metadata();
    assert_eq!((tracer.name.as_str(), tracer.shortcut), ("Process Tracer", Some('p')));
    assert_ne!(ssh.id, tracer.id);
}

#[test]
fn a_message_goes_away_after_five_seconds() {
    let mut module = SshModule::new();
    module.state.notify("hello".into(), 1000);
    module.state.expire_notification(6000);
    assert!(module.state.notification.is_some());
    assert_eq!(ui::help(&module.state).text, " hello");
    module.state.expire_notification(6001);
    assert!(module.state.notification.is_none());
    module.state.notify("again".into(), 10);
    module.state.expire_notification(0);
    assert!(module.state.notification.is_some());
}

#[test]
fn the_filter_ignores_case_beyond_ascii() {
    let mut module = on_hosts("Host ÄRGER\nHost kami\nHost ärmel\n");
    press(&mut module, KeyCode::Char('/'));
    for c in "Är".chars() {
        press(&mut module, KeyCode::Char(c));
    }
    assert_eq!(module.state.filtered_indices, [0, 2]);
    press(&mut module, KeyCode::Backspace);
    press(&mut module, KeyCode::Backspace);
    assert_eq!(module.state.filtered_indices, [0, 1, 2]);
    press(&mut module, KeyCode::Enter);
    assert!(!module.state.searching);
    let names = ["kami".to_string(), "thor".to_string(), "akan".to_string()];
    assert_eq!(narrow(&names, "ka"), [0, 2]);
}

#[test]
fn the_host_list_goes_round() {
    let mut module = on_hosts("Host a\n Port 1\nHost b\n Port 1\nHost c\n Port 1\n");
    press(&mut module, KeyCode::Up);
    assert_eq!(module.state.selected_host().unwrap().alias(), "c");
    press(&mut module, KeyCode::Down);
    assert_eq!(module.state.selected_host().unwrap().alias(), "a");
    assert_eq!(press(&mut module, KeyCode::Char('q')), ModuleAction::Exit);
    let mut nothing = on_hosts("");
    press(&mut nothing, KeyCode::Down);
    press(&mut nothing, KeyCode::Enter);
    press(&mut nothing, KeyCode::Char('g'));
    assert!(nothing.state.form.is_none() && nothing.state.requests.is_empty());
}

#[test]
fn saving_asks_for_the_write_and_shows_how_it_went() {
    let text = "Host a\n  Port 22\nHost b\n  Port 23\n";
    let mut module = on_hosts(text);
    press(&mut module, KeyCode::Down);
    press(&mut module, KeyCode::Enter);
    save(&mut module);
    assert_eq!(module.state.notification.as_ref().unwrap().0, "No changes");
    module.state.form.as_mut().unwrap().values[3] = "24".into();
    press(&mut module, KeyCode::Char('s'));
    assert!(module.state.requests.is_empty());
    save(&mut module);
    let requests = std::mem::take(&mut module.state.requests);
    let [Request::SaveConfig { text: written, alias }] = requests.as_slice() else {
        panic!("no write was asked for");
    };
    assert_eq!(written, "Host a\n  Port 22\nHost b\n  Port 24\n");
    module.state.config_saved(Err("disk full".into()), Err(String::new()), alias, 8);
    assert_eq!(module.state.notification.as_ref().unwrap().0, "Save failed: disk full");
    assert!(module.state.form.is_some());
    let again = SshConfig::parse("/tmp/config", written);
    module.state.config_saved(Ok("/tmp/config.bak".into()), Ok(again), alias, 9);
    assert!(module.state.form.is_none());
    assert_eq!(module.state.selected_index, 1);
    assert_eq!(
        module.state.notification,
        Some(("Saved. Backup: /tmp/config.bak".to_string(), 9))
    );
    assert_eq!(module.state.selected_host().unwrap().get("Port").unwrap().value, "24");
}

#[test]
fn a_read_only_config_is_never_written() {
    let mut module = on_hosts("Host a\n  Port 22\n");
    module.state.config.read_only = true;
    press(&mut module, KeyCode::Enter);
    assert!(ui::help(&module.state).text.contains("[read-only: saving is refused]"));
    module.state.form.as_mut().unwrap().values[3] = "24".into();
    save(&mut module);
    assert!(module.state.requests.is_empty());
    assert_eq!(
        module.state.notification.as_ref().unwrap().0,
        "Save failed: /tmp/config is read-only"
    );
}

#[test]
fn keys_beside_the_config_are_offered_in_the_form() {
    let mut module = on_hosts("Host a\n  Port 22\n");
    press(&mut module, KeyCode::Enter);
    press(&mut module, KeyCode::Up);
    press(&mut module, KeyCode::Enter);
    press(&mut module, KeyCode::Char('j'));
    press(&mut module, KeyCode::Enter);
    assert_eq!(module.state.form.as_ref().unwrap().values[5], "~/.ssh/id_rsa");
}

#[test]
fn a_config_that_would_run_a_command_is_not_resolved() {
    let mut module = on_hosts("Host a\nMatch exec true\n");
    press(&mut module, KeyCode::Char('g'));
    assert!(module.state.requests.is_empty());
    let (alias, answer) = module.state.effective.as_ref().unwrap();
    assert_eq!(alias, "a");
    assert_eq!(
        answer.error.as_deref(),
        Some("not run: `Match exec` on line 2 would execute a command")
    );
}

#[test]
fn a_failed_load_is_shown_instead_of_hosts() {
    let mut module = on_hosts("Host a\n");
    module.state.load_config(Err("cannot resolve home directory".into()));
    assert!(module.state.config.hosts.is_empty());
    assert_eq!(flat(&ui::config_summary(&module.state)), ["  cannot resolve home directory"]);
    module.init(Err(String::new()), Err("bad yaml".into()), 3);
    assert_eq!(module.state.notification, Some(("bad yaml".to_string(), 3)));
}

#[test]
fn starting_and_stopping_ask_for_jobs() {
    let mut module = on_dashboard(&["39001", "39002", "here"]);
    module.state.set_running(vec![Running {
        pid: 42,
        kind: Kind::Local,
        spec: "39002:localhost:22".into(),
        host: "kami".into(),
    }]);
    press(&mut module, KeyCode::Char('a'));
    assert_eq!(
        module.state.notification.as_ref().unwrap().0,
        "Starting 1, skipped 1 incomplete"
    );
    let requests = std::mem::take(&mut module.state.requests);
    let [Request::Submit(Job::Start((0, 0), rule))] = requests.as_slice() else {
        panic!("got: {requests:?}");
    };
    assert_eq!(rule.bind, "39001");
    press(&mut module, KeyCode::Char('A'));
    assert_eq!(module.state.notification.as_ref().unwrap().0, "Stopping 1");
    let requests = std::mem::take(&mut module.state.requests);
    assert!(matches!(requests.as_slice(), [Request::Submit(Job::Stop((0, 1), 42))]));
    press(&mut module, KeyCode::Char('s'));
    assert_eq!(module.state.notification.as_ref().unwrap().0, "Starting 1");
    press(&mut module, KeyCode::Char('S'));
    assert_eq!(module.state.notification.as_ref().unwrap().0, "Nothing to stop");
    module.state.requests.clear();
    press(&mut module, KeyCode::Down);
    press(&mut module, KeyCode::Char('s'));
    assert_eq!(module.state.notification.as_ref().unwrap().0, "Nothing to start");
    press(&mut module, KeyCode::Enter);
    assert!(matches!(
        module.state.requests.as_slice(),
        [Request::Submit(Job::Stop((0, 1), 42))]
    ));
    press(&mut module, KeyCode::Char('r'));
    assert!(matches!(module.state.requests.last(), Some(Request::Refresh)));
}

#[test]
fn what_came_of_a_job_is_shown_or_followed_up() {
    let mut module = on_dashboard(&["39001"]);
    module.state.job_ended(&Outcome::Started((0, 0), Err("refused".into())), 1);
    assert_eq!(module.state.notification, Some(("refused".to_string(), 1)));
    assert!(module.state.requests.is_empty());
    module.state.job_ended(&Outcome::Discovered("db".into(), Ok(Vec::new())), 2);
    assert!(module.state.requests.is_empty());
    module.state.job_ended(&Outcome::StoppedOrphan(3, Ok(())), 2);
    assert!(matches!(module.state.requests.as_slice(), [Request::Refresh]));
}

#[test]
fn lights_follow_the_last_measurement_of_a_live_rule() {
    let mut module = on_dashboard(&["39001"]);
    let health = |path: Light| Health {
        process: Light::Good,
        port: Light::Good,
        path,
        detail: String::new(),
        http_status: None,
    };
    module.state.set_health((0, 0), health(Light::Bad));
    assert_eq!(module.state.health((0, 0)).lights(), "o o o");
    module.state.set_running(vec![Running {
        pid: 1,
        kind: Kind::Local,
        spec: "39001:localhost:22".into(),
        host: "kami".into(),
    }]);
    assert_eq!(module.state.health((0, 0)).lights(), "* * x");
    module.state.set_health((0, 0), health(Light::Good));
    assert_eq!(module.state.health((0, 0)).lights(), "* * *");
    assert_eq!(module.state.measured.len(), 1);
    assert_eq!(module.state.profile_status(0), (1, 1));
    module.state.measured.clear();
    assert_eq!(module.state.health((0, 0)).lights(), "* - -");
}

#[test]
fn rules_are_edited_deleted_and_saved() {
    let mut module = on_dashboard(&["39001", "39002"]);
    module.state.screen = Screen::Forward;
    press(&mut module, KeyCode::Up);
    assert_eq!(module.state.selected_slot(), Some((0, 1)));
    press(&mut module, KeyCode::Enter);
    module.state.forward_form.as_mut().unwrap().values[5] = "why".into();
    save(&mut module);
    assert_eq!(module.state.tunnels.get(0, 1).unwrap().note, "why");
    assert!(matches!(module.state.requests.as_slice(), [Request::SaveTunnels]));
    press(&mut module, KeyCode::Char('n'));
    module.state.forward_form.as_mut().unwrap().values[0] = " ".into();
    save(&mut module);
    assert_eq!(module.state.notification.as_ref().unwrap().0, "Pick a group");
    assert_eq!(module.state.tunnels.count(), 2);
    press(&mut module, KeyCode::Esc);
    assert_eq!(module.state.apply_forward_form().unwrap_err(), "No rule is open");
    press(&mut module, KeyCode::Char('d'));
    assert_eq!(module.state.tunnels.count(), 1);
    assert_eq!(module.state.forward_index, 0);
    press(&mut module, KeyCode::Char('d'));
    assert!(module.state.tunnels.profiles.is_empty());
    press(&mut module, KeyCode::Char('d'));
    press(&mut module, KeyCode::Char('n'));
    assert_eq!(module.state.forward_form.as_ref().unwrap().group(), "default");
}

#[test]
fn the_summary_counts_hosts_and_shows_the_first() {
    let mut text: String = (0..13).map(|i| format!("Host host{i:02}\n  HostName h\n")).collect();
    text += "Host host00\n  HostName h\nHost via\n  ProxyJump x\n  Port 7\n";
    let module = on_hosts(&text);
    let shown = flat(&ui::config_summary(&module.state));
    assert_eq!(shown[0], "  15 hosts   1 via a gateway   1 shadowed");
    assert_eq!(shown[2], "  host00            h");
    assert_eq!(shown.len(), 15);
    assert_eq!(shown[14], "  ... 3 more");
    assert_eq!(ui::endpoint(&module.state.config.hosts[14]), "-:7");
    assert_eq!(ui::host_list_title(&module.state), " Hosts (15/15) ");
    let rows = ui::host_rows(&module.state, 24);
    assert_eq!(rows[13].text, "! host00    dead: line 1");
    assert_eq!(rows[13].style, Style::of(Color::DarkGray));
    assert_eq!(rows[0].style, Style::highlighted());
    assert_eq!(rows[14].text, "  via              via x");
    let mut broken = on_hosts("Host a\n");
    broken.state.config_error = Some("permission denied".to_string());
    let rows = ui::host_rows(&broken.state, 24);
    assert_eq!(rows.len(), 1);
    assert_eq!(rows[0].text, "  permission denied");
    assert_eq!(rows[0].style, Style::of(Color::Red));
    assert!(!rows[0].selected);
}

#[test]
fn the_preview_shows_the_block_as_written() {
    let mut module = on_hosts("# top\nHost a\n  Port 22\n\nHost a\n  Port 23\n");
    let panel = ui::host_preview(&module.state);
    assert_eq!(panel.title, " a   lines 2-3 ");
    assert_eq!(flat(&panel.lines), ["  Host a", "    Port 22"]);
    press(&mut module, KeyCode::Down);
    let panel = ui::host_preview(&module.state);
    assert_eq!(
        flat(&panel.lines),
        ["  dead: every keyword is already set by line 2", "", "  Host a", "    Port 23"]
    );
    assert_eq!(flat(&ui::host_preview(&on_hosts("").state).lines), ["  no host selected"]);
}

#[test]
fn what_ssh_ignores_is_pointed_out() {
    let mut module = on_hosts("Host a\n  Port 22\nHost a\n  Port 23\n  User x\nHost b\n");
    press(&mut module, KeyCode::Down);
    let resolved = Effective {
        values: vec![("port".into(), "22".into())],
        error: Some("bad\nworse".into()),
    };
    let panel = ui::effective_panel(&module.state, "a", &resolved);
    assert_eq!(panel.title, " ssh -G a ");
    assert_eq!(
        flat(&panel.lines),
        [
            "  bad",
            "  worse",
            "",
            "  [--] Port 23   ssh uses: 22",
            "  [--] User x",
            "",
            "  2 ignored by an earlier matching block",
        ]
    );
    press(&mut module, KeyCode::Down);
    let panel = ui::effective_panel(&module.state, "b", &not_run("x"));
    assert_eq!(flat(&panel.lines).last().unwrap(), "  this block sets nothing");
    let mut twice = on_hosts("Host a\n  Port 22\nHost a\n  Port 22\n");
    press(&mut twice, KeyCode::Down);
    let same = Effective { values: vec![("port".into(), "22".into())], error: None };
    assert_eq!(
        flat(&ui::effective_panel(&twice.state, "a", &same).lines),
        [
            "  [ok] Port 22",
            "",
            "  line 1 sets the same values first; this block does nothing",
        ]
    );
    let other = Effective { values: vec![("port".into(), "1".into())], error: None };
    assert_eq!(
        flat(&ui::effective_panel(&twice.state, "a", &other).lines)[2],
        "  1 ignored; line 1 sets them first"
    );
}

#[test]
fn the_footer_shows_what_stays_and_what_is_written() {
    let mut module = on_hosts("Host a\n  Port 22\n  Compression yes\n  User x\n");
    press(&mut module, KeyCode::Enter);
    {
        let form = module.state.form.as_ref().unwrap();
        assert_eq!(
            flat(&ui::form_footer(&module.state, form)),
            ["  kept as written (1)", "    Compression yes", "", "  no changes"]
        );
        assert_eq!(ui::form_title(form), " a ");
        let rows = ui::field_rows(form);
        assert_eq!(rows[0].label.text, "> Alias");
        assert_eq!(rows[1].value.as_ref().unwrap().text, "(none)");
    }
    let form = module.state.form.as_mut().unwrap();
    form.values[2] = String::new();
    form.values[3] = "23".into();
    form.values[5] = "k".into();
    let form = module.state.form.as_ref().unwrap();
    assert_eq!(ui::form_title(form), " a  * ");
    assert_eq!(
        flat(&ui::form_footer(&module.state, form))[3..],
        [
            "  will write",
            "  - 2     Port 22",
            "  + 2     Port 23",
            "  - 4     User x",
            "  + 5     IdentityFile k",
        ]
    );
    let locked = on_hosts("Host a b\n  Port 22\n");
    let mut locked = locked;
    press(&mut locked, KeyCode::Enter);
    let rows = ui::field_rows(locked.state.form.as_ref().unwrap());
    assert_eq!(rows[0].value.as_ref().unwrap().text, "a   (multiple patterns)");
}

#[test]
fn the_dashboard_lines_up_its_columns() {
    let mut module = on_dashboard(&["6022", "6023"]);
    module.state.tunnels.profiles[0].forwards[0].note = "SSH_kami".into();
    module.state.set_running(vec![Running {
        pid: 41233,
        kind: Kind::Local,
        spec: "6022:localhost:22".into(),
        host: "kami".into(),
    }]);
    press(&mut module, KeyCode::Char(' '));
    let rows: Vec<String> =
        ui::rule_rows(&module.state, true, 100).into_iter().map(|r| r.text).collect();
    assert_eq!(
        rows,
        [
            " daily                                      1/2 up",
            " + * - -  -L 6022:localhost:22 kami         pid 41233",
            "          SSH_kami",
            "   o o o  -L 6023:localhost:22 kami         stopped",
        ]
    );
    assert_eq!(
        ui::dashboard_title(&module.state),
        " Tunnels   1 of 2 up   process / listening / path "
    );
    module.state.screen = Screen::Menu;
    assert_eq!(
        flat(&ui::menu_preview(&module.state).lines),
        [
            "  1 of 2 up",
            "",
            "  * - -  -L 6022:localhost:22 kami",
            "  o o o  -L 6023:localhost:22 kami",
        ]
    );
    assert_eq!(ui::menu_entry_text(2, true).0, "> 3  Start ssh forwarding");
    press(&mut module, KeyCode::Up);
    assert_eq!(
        flat(&ui::menu_preview(&module.state).lines),
        [
            "  2 rules in 1 groups",
            "",
            "  daily",
            "    -L 6022:localhost:22 kami",
            "    -L 6023:localhost:22 kami",
        ]
    );
}

#[test]
fn the_details_spell_out_both_sides() {
    assert_eq!(
        flat(&ui::rule_details(&forward("6022"))),
        [
            "  listen   this machine   6022",
            "  exit     kami   ->  localhost:22   (= kami itself)",
            "",
            "  ssh -f -N -o BatchMode=yes -o ExitOnForwardFailure=yes -L 6022:localhost:22 kami",
        ]
    );
    let mut other = forward("x");
    other.target = "10.0.0.5:9001".to_string();
    assert_eq!(flat(&ui::rule_details(&other))[1], "  exit     kami   ->  10.0.0.5:9001");
    other.target = "localhostess:1".to_string();
    assert_eq!(flat(&ui::rule_details(&other))[1], "  exit     kami   ->  localhostess:1");
    other.target = "localhost:22".to_string();
    other.kind = Kind::Remote;
    assert_eq!(
        flat(&ui::rule_details(&other))[1],
        "  exit     this machine   ->  localhost:22   (= this machine)"
    );
    assert_eq!(
        flat(&ui::rule_details(&other))[4..],
        ["", "  incomplete: listen on a port, or address:port"]
    );
}

fn up(port: Light, path: Light, detail: &str, http_status: Option<u16>) -> Health {
    Health { process: Light::Good, port, path, detail: detail.into(), http_status }
}

fn with_a_process(module: &mut SshModule) {
    module.state.set_running(vec![Running {
        pid: 7,
        kind: Kind::Local,
        spec: "6022:localhost:22".into(),
        host: "kami".into(),
    }]);
}

#[test]
fn a_look_keeps_what_was_measured_while_the_port_stays() {
    let mut module = on_dashboard(&["6022"]);
    with_a_process(&mut module);
    let state = &mut module.state;
    state.set_observed((0, 0), up(Light::Good, Light::Unknown, "", None));
    assert_eq!(state.health((0, 0)).lights(), "* * -");
    state.set_health((0, 0), up(Light::Good, Light::Bad, "refused", None));
    state.set_observed((0, 0), up(Light::Good, Light::Unknown, "", None));
    assert_eq!(state.health((0, 0)).lights(), "* * x");
    assert_eq!(state.health((0, 0)).detail, "refused");
    state.set_observed((0, 0), up(Light::Bad, Light::Unknown, "not there", None));
    assert_eq!(state.health((0, 0)).lights(), "* x -");
    assert_eq!(state.health((0, 0)).detail, "not there");
}

#[test]
fn what_was_measured_is_said_in_words() {
    let mut module = on_dashboard(&["6022"]);
    let said = |module: &SshModule| ui::detail_line(&module.state).map(|row| flat(&[row]).remove(0));
    module.state.set_health((0, 0), up(Light::Good, Light::Bad, "refused", None));
    assert_eq!(said(&module), None);
    with_a_process(&mut module);
    assert_eq!(said(&module).as_deref(), Some("  refused"));
    module.state.set_health((0, 0), up(Light::Good, Light::Good, "", Some(204)));
    assert_eq!(said(&module).as_deref(), Some("  HTTP 204"));
    module.state.set_health((0, 0), up(Light::Good, Light::Good, "slow", Some(200)));
    assert_eq!(said(&module).as_deref(), Some("  slow   HTTP 200"));
    module.state.set_health((0, 0), up(Light::Good, Light::Good, "", None));
    assert_eq!(said(&module), None);
    assert!(ui::detail_line(&on_dashboard(&[]).state).is_none());
}

#[test]
fn paths_are_measured_on_the_dashboard_alone() {
    let all = Poll { scan: true, observe: true, check: true };
    let look = Poll { check: false, ..all };
    let nothing = Poll { scan: false, observe: false, check: false };
    for screen in [Screen::Menu, Screen::Config, Screen::Forward] {
        assert_eq!(poll(screen, None, None, 5), look);
    }
    assert_eq!(poll(Screen::Dashboard, Some(0), Some(0), 999), nothing);
    assert_eq!(poll(Screen::Dashboard, Some(0), Some(0), 1000), look);
    assert_eq!(poll(Screen::Dashboard, Some(0), Some(0), 10000), all);
    assert_eq!(poll(Screen::Dashboard, Some(9), Some(9), 0), nothing);

    let mut rhythm = Rhythm::new();
    assert_eq!(rhythm.tick(Screen::Menu, 0), look);
    assert_eq!(rhythm.tick(Screen::Menu, 500), nothing);
    assert_eq!(rhythm.tick(Screen::Dashboard, 600), Poll { check: true, ..nothing });
    assert_eq!(rhythm.tick(Screen::Dashboard, 700), nothing);
    assert_eq!(rhythm.tick(Screen::Dashboard, 1000), look);
    rhythm.again();
    assert_eq!(rhythm.tick(Screen::Dashboard, 1100), all);
    assert_eq!(rhythm.tick(Screen::Menu, 20000), look);
    assert_eq!(rhythm.tick(Screen::Dashboard, 20001), Poll { check: true, ..nothing });
    assert_eq!(rhythm, Rhythm { screen: Screen::Dashboard, scanned: Some(20000), measured: Some(20001) });
}
