use excalibur::edit::{Editing, Then};
use excalibur::form::{
    backup_path, candidates, private_keys, replace_value, temp_path, write_config, Change, Field,
    HostForm,
};
use excalibur::key::{KeyCode, KeyEvent};
use excalibur::sshconfig::{
    detect_read_only, proxy_command_gateway_span, FileFacts, SshConfig,
};

fn config(text: &str) -> SshConfig {
    SshConfig::parse("/tmp/config", text)
}

fn form(config: &SshConfig, alias: &str) -> HostForm {
    let index = config.hosts.iter().position(|h| h.alias() == alias).expect("host");
    HostForm::new(config, index).unwrap()
}

fn strings(items: &[&str]) -> Vec<String> {
    items.iter().map(|s| s.to_string()).collect()
}

#[test]
fn a_link_into_the_store_is_not_written() {
    let link = |target: &str| FileFacts::Link { target: Some(target.to_string()) };
    assert!(detect_read_only(&link("/nix/store/abc-config")));
    assert!(detect_read_only(&link("/nix//store/./x")));
    assert!(detect_read_only(&link("/nix/store")));
    assert!(!detect_read_only(&link("/nix/storefront/x")));
    assert!(!detect_read_only(&link("nix/store/x")));
    assert!(!detect_read_only(&link("/home/me/dotfiles/config")));
    assert!(!detect_read_only(&FileFacts::Link { target: None }));
    assert!(detect_read_only(&FileFacts::File { readonly: true }));
    assert!(!detect_read_only(&FileFacts::File { readonly: false }));
    assert!(!detect_read_only(&FileFacts::Missing));
    let loaded = SshConfig::load_from("/c", Some("Host a\n"), &FileFacts::File { readonly: true });
    assert!(loaded.read_only);
    assert_eq!(loaded.path, "/c");
    assert_eq!(loaded.hosts.len(), 1);
}

#[test]
fn the_config_lies_below_the_home() {
    let below = |home: &str| SshConfig::path_below(Some(home.to_string())).unwrap();
    assert_eq!(below("/home/me"), "/home/me/.ssh/config");
    assert_eq!(below("/"), "/.ssh/config");
    assert_eq!(below(""), ".ssh/config");
    assert_eq!(SshConfig::path_below(None), None);
    if let Some(path) = SshConfig::default_path() {
        assert!(path.ends_with(".ssh/config"), "got: {path}");
    }
}

#[test]
fn blocks_lie_apart_and_in_order() {
    let text = "Port 1\nHost a b\n\n# c\n Port=2\n\nMatch all\nPort 3\nHost\nHost c\n\tUser x \n";
    let config = config(text);
    assert_eq!(config.to_text(), text);
    let spans: Vec<(usize, usize)> = config.hosts.iter().map(|h| (h.start, h.end)).collect();
    assert_eq!(spans, [(1, 5), (9, 11)]);
    assert_eq!(config.hosts[0].patterns, ["a", "b"]);
    assert_eq!(config.hosts[1].get("user").unwrap().value, "x");
    assert_eq!(config.hosts[1].get("user").unwrap().line, 10);
}

#[test]
fn a_block_whose_keywords_two_earlier_ones_set_is_dead() {
    let config = config("Host a\n Port 1\nHost a*\n User x\nHost a\n port 2\n USER y\n");
    assert_eq!(config.hosts[2].shadowed_by, Some(0));
    assert_eq!(config.hosts[1].shadowed_by, None);
}

#[test]
fn the_block_that_sets_every_keyword_is_the_one_named() {
    let config = config(
        "Host *\n User x\nHost kami\n HostName h\n User y\nHost kami\n hostname h\n user y\n",
    );
    assert_eq!(config.hosts[1].shadowed_by, None);
    assert_eq!(config.hosts[2].shadowed_by, Some(1));
}

#[test]
fn the_jump_host_is_found_where_it_stands() {
    let command = "/bin/ssh -o X=y -W %h:%p -q me@gate";
    let (a, b) = proxy_command_gateway_span(command).unwrap();
    assert_eq!(&command[a..b], "me@gate");
    assert_eq!(proxy_command_gateway_span("ssh gate"), None);
    assert_eq!(proxy_command_gateway_span("ssh -W"), None);
    assert_eq!(proxy_command_gateway_span("ssh -W %h:%p"), None);
    let host = &config("Host a\n ProxyJump  , g2\n").hosts[0];
    assert_eq!(host.gateway(), None);
}

#[test]
fn a_saved_form_reads_back() {
    let text = "Host web # not a comment\n\nHost jumped\n  Port 6022\n  \
                ProxyCommand ssh -q wonder@db -W %h:%p\n\tHostname = old\n  # keep me\n  Compression yes\n\nHost z\n Port 1\n";
    let before = config(text);
    let mut open = form(&before, "jumped");
    for (field, value) in [
        (Field::Alias, "leaped"),
        (Field::HostName, " new.example "),
        (Field::User, "lxb"),
        (Field::Port, ""),
        (Field::Gateway, "kami"),
        (Field::IdentityFile, "~/.ssh/id"),
    ] {
        open.values[field.index()] = value.to_string();
    }
    let plan = open.plan(&before);
    let written = write_config(&before, &plan.lines).unwrap();
    assert_eq!(
        written,
        "Host web # not a comment\n\nHost leaped\n  \
         ProxyCommand ssh -q kami -W %h:%p\n\tHostname = new.example\n  # keep me\n  Compression yes\n  User lxb\n  IdentityFile ~/.ssh/id\n\nHost z\n Port 1\n"
    );
    let after = config(&written);
    let again = form(&after, "leaped");
    assert_eq!(again.values, ["leaped", "new.example", "lxb", "", "kami", "~/.ssh/id"]);
    assert_eq!(after.hosts.len(), before.hosts.len());
    let kinds: Vec<&str> = plan
        .changes
        .iter()
        .map(|c| match c {
            Change::Replaced { .. } => "replaced",
            Change::Removed { .. } => "removed",
            Change::Inserted { .. } => "inserted",
        })
        .collect();
    assert_eq!(kinds, ["replaced", "removed", "replaced", "replaced", "inserted", "inserted"]);
    assert_eq!(
        plan.changes[1],
        Change::Removed { line: 3, before: "  Port 6022".to_string() }
    );
    assert_eq!(
        plan.changes[5],
        Change::Inserted { line: 8, after: "  IdentityFile ~/.ssh/id".to_string() }
    );
}

#[test]
fn a_new_block_is_appended_and_reads_back() {
    let before = config("Host a\n    User root\nHost b\n    User lxb\nHost c\n    User lxb\n\n \n");
    let mut open = HostForm::creating(&before);
    assert_eq!(open.values, ["", "", "lxb", "22", "", ""]);
    assert!(open.is_dirty());
    assert!(open.plan(&before).lines.is_empty(), "a block without an alias was planned");
    open.values[0] = " new ".to_string();
    open.values[4] = "a".to_string();
    let plan = open.plan(&before);
    assert_eq!(
        plan.lines.join("\n"),
        "Host a\n    User root\nHost b\n    User lxb\nHost c\n    User lxb\n\n\
         Host new\n    User lxb\n    Port 22\n    ProxyJump a\n"
    );
    assert_eq!(plan.changes.len(), 4);
    assert_eq!(plan.changes[0], Change::Inserted { line: 7, after: "Host new".to_string() });
    let after = config(&plan.lines.join("\n"));
    assert_eq!(form(&after, "new").values, ["new", "", "lxb", "22", "a", ""]);

    let first = HostForm::creating(&config(""));
    assert_eq!(first.values, ["", "", "", "22", "", ""]);
    let mut into_nothing = first;
    into_nothing.values[0] = "x".to_string();
    assert_eq!(into_nothing.plan(&config("")).lines, ["Host x", "  Port 22", ""]);
}

#[test]
fn the_most_used_user_wins_and_ties_go_by_name() {
    let tied = config("Host a\n User zed\nHost b\n User amy\nHost c\n User zed\nHost d\n User amy\n");
    assert_eq!(HostForm::creating(&tied).values[2], "amy");
}

#[test]
fn a_copy_has_no_alias_and_no_extras() {
    let before = config("Host a x\n  Port 22\n  Compression yes\n");
    let copy = HostForm::cloning(&before, 0).unwrap();
    assert_eq!(copy.values, ["", "", "", "22", "", ""]);
    assert!(copy.other.is_empty());
    assert!(!copy.alias_locked);
    assert!(copy.creating);
    assert_eq!(copy.host_index, 1);
    assert!(HostForm::cloning(&before, 1).is_none());
    assert!(HostForm::new(&before, 1).is_none());
}

#[test]
fn keys_are_offered_beside_what_the_config_names() {
    let names = strings(&["config", "id_rsa", "id_rsa.pub", "known_hosts", "known_hosts.old", "authorized_keys", "work"]);
    let keys = private_keys(&names);
    assert_eq!(keys, ["~/.ssh/id_rsa", "~/.ssh/work"]);
    let config = config("Host a\n IdentityFile ~/AWS/key.pem\nHost b\n IdentityFile\n");
    assert_eq!(
        candidates(&config, Field::IdentityFile, 0, &keys),
        ["~/.ssh/id_rsa", "~/.ssh/work", "~/AWS/key.pem"]
    );
    assert_eq!(candidates(&config, Field::Gateway, 7, &keys), ["a", "b"]);
    assert!(candidates(&config, Field::Alias, 0, &keys).is_empty());
}

#[test]
fn typing_edits_the_value_from_its_end() {
    let config = config("Host a\n  Port 22\n");
    let mut open = form(&config, "a");
    open.cursor = Field::Port.index();
    open.begin_edit(&config, &[]);
    let mut typed = open.editing.take().unwrap();
    for code in [KeyCode::Char('3'), KeyCode::Char('ß'), KeyCode::Backspace, KeyCode::Char('4')] {
        assert_eq!(typed.press(KeyEvent::plain(code)), Then::Nothing);
    }
    assert_eq!(typed.value(), "2234");
    let Editing::Text(shown) = &typed else { panic!("no text box") };
    assert_eq!(shown.text(), ["2234"]);
    assert_eq!(shown.caret(), (0, 4));
    assert_eq!(typed.press(KeyEvent::plain(KeyCode::Esc)), Then::Cancel);
    assert_eq!(typed.press(KeyEvent::plain(KeyCode::Enter)), Then::Commit);
    open.editing = Some(typed);
    open.commit_edit();
    assert_eq!(open.value(Field::Port), "2234");
    assert!(open.editing.is_none());
    open.commit_edit();
    assert_eq!(open.value(Field::Port), "2234");
}

#[test]
fn a_caret_moved_inside_the_text_types_there() {
    let mut typed = Editing::text("ac");
    typed.press(KeyEvent::plain(KeyCode::Left));
    typed.press(KeyEvent::plain(KeyCode::Char('b')));
    assert_eq!(typed.value(), "abc");
    typed.press(KeyEvent { code: KeyCode::Char('u'), ctrl: true, alt: false, shift: false });
    assert_eq!(typed.value(), "ac");
}

fn with_ctrl(c: char) -> KeyEvent {
    KeyEvent { code: KeyCode::Char(c), ctrl: true, alt: false, shift: false }
}

fn with_alt(code: KeyCode) -> KeyEvent {
    KeyEvent { code, ctrl: false, alt: true, shift: false }
}

/// The text of the box after the keys, and where the caret stands in it.
fn after(value: &str, keys: &[KeyEvent]) -> (String, usize) {
    let mut typed = Editing::text(value);
    for key in keys {
        assert_eq!(typed.press(*key), Then::Nothing);
    }
    let Editing::Text(shown) = &typed else { panic!("no text box") };
    assert_eq!(shown.text().len(), 1);
    assert_eq!(shown.caret().0, 0);
    (typed.value(), shown.caret().1)
}

#[test]
fn the_letters_of_the_editing_keys_do_what_the_keys_do() {
    let left = KeyEvent::plain(KeyCode::Left);
    for keys in [[with_ctrl('h'), left], [KeyEvent::plain(KeyCode::Backspace), with_ctrl('b')]] {
        assert_eq!(after("abc", &keys), ("ab".to_string(), 1));
    }
    for delete in [with_ctrl('d'), KeyEvent::plain(KeyCode::Delete)] {
        assert_eq!(after("abc", &[with_ctrl('a'), delete]), ("bc".to_string(), 0));
        assert_eq!(after("abc", &[delete]), ("abc".to_string(), 3));
    }
    assert_eq!(after("abc", &[with_ctrl('a'), with_ctrl('f')]), ("abc".to_string(), 1));
    assert_eq!(after("abc", &[with_ctrl('a'), with_ctrl('e')]), ("abc".to_string(), 3));
    assert_eq!(after("", &[with_ctrl('h'), left, with_ctrl('w')]), (String::new(), 0));
}

#[test]
fn a_word_before_the_caret_is_cut() {
    for cut in [with_ctrl('w'), with_alt(KeyCode::Backspace), with_alt(KeyCode::Char('h'))] {
        assert_eq!(after("root@kami.lan", &[cut]), ("root@kami.".to_string(), 10));
        assert_eq!(after("root@kami.lan", &[cut, cut]), ("root@kami".to_string(), 9));
        assert_eq!(after("one two  ", &[cut]), ("one ".to_string(), 4));
        assert_eq!(after("   ", &[cut]), (String::new(), 0));
        assert_eq!(after("word", &[cut]), (String::new(), 0));
    }
}

#[test]
fn a_line_is_cut_on_either_side_of_the_caret_and_pasted() {
    let back = [with_ctrl('b'), with_ctrl('b')];
    let mut keys = back.to_vec();
    keys.push(with_ctrl('k'));
    assert_eq!(after("abcde", &keys), ("abc".to_string(), 3));
    keys.extend([with_ctrl('a'), with_ctrl('y')]);
    assert_eq!(after("abcde", &keys), ("deabc".to_string(), 2));
    let mut keys = back.to_vec();
    keys.push(with_ctrl('j'));
    assert_eq!(after("abcde", &keys), ("de".to_string(), 0));
    keys.extend([with_ctrl('e'), with_ctrl('y')]);
    assert_eq!(after("abcde", &keys), ("deabc".to_string(), 5));
    assert_eq!(after("ab", &[with_ctrl('y')]), ("ab".to_string(), 2));
    assert_eq!(after("ab", &[with_ctrl('k')]), ("ab".to_string(), 2));
}

#[test]
fn a_change_is_undone_and_made_again() {
    let x = KeyEvent::plain(KeyCode::Char('x'));
    let (undo, redo) = (with_ctrl('u'), with_ctrl('r'));
    assert_eq!(after("ab", &[undo]), ("ab".to_string(), 2));
    assert_eq!(after("ab", &[x, x, undo]), ("abx".to_string(), 3));
    assert_eq!(after("ab", &[x, x, undo, undo]), ("ab".to_string(), 2));
    assert_eq!(after("ab", &[x, x, undo, undo, redo]), ("abx".to_string(), 3));
    assert_eq!(after("ab", &[x, undo, redo, redo]), ("abx".to_string(), 3));
    assert_eq!(after("ab cd", &[with_ctrl('w'), undo]), ("ab cd".to_string(), 5));
}

#[test]
fn a_line_break_in_a_text_is_cut_and_pasted_like_any_character() {
    let home = KeyEvent::plain(KeyCode::Home);
    let keys = [home, with_ctrl('k'), with_ctrl('y')];
    for text in ["one\ntwo", "one\r\ntwo\r\n", "\n", "one two", "\n\r\u{85}\u{2028}"] {
        let len = text.chars().count();
        assert_eq!(after(text, &[]), (text.to_string(), len));
        assert_eq!(after(text, &keys), (text.to_string(), len));
        assert_eq!(after(text, &keys[..2]), (String::new(), 0));
    }
    let twice = [home, with_ctrl('k'), with_ctrl('y'), with_ctrl('y')];
    assert_eq!(after("a\nb", &twice), ("a\nba\nb".to_string(), 6));
    assert_eq!(after("a\nb", &[with_ctrl('w'), with_ctrl('w')]), (String::new(), 0));
    let mut typed = Editing::text("one\ntwo");
    typed.press(KeyEvent::plain(KeyCode::Char('!')));
    assert_eq!(typed.value(), "one\ntwo!");
}

#[test]
fn a_text_with_every_separator_is_kept_and_not_pasted() {
    let text = "\n\r\u{85}\u{2028}\u{2029}\u{b}\u{c}";
    assert_eq!(after(text, &[]), (text.to_string(), 7));
    let home = KeyEvent::plain(KeyCode::Home);
    let keys = [home, with_ctrl('k'), with_ctrl('y')];
    assert_eq!(after(text, &keys), (String::new(), 0));
}

#[test]
fn paging_leaves_the_caret_of_one_line_alone() {
    let pages = [
        KeyEvent::plain(KeyCode::PageUp),
        KeyEvent::plain(KeyCode::PageDown),
        with_ctrl('v'),
        with_alt(KeyCode::Char('v')),
    ];
    for page in pages {
        assert_eq!(after("abc", &[page]), ("abc".to_string(), 3));
        assert_eq!(after("abc", &[with_ctrl('b'), page]), ("abc".to_string(), 2));
    }
    let mut typed = Editing::text("abc");
    for key in [with_ctrl('m'), KeyEvent::plain(KeyCode::Char('d')), pages[0]] {
        typed.press(key);
    }
    let Editing::Text(shown) = &typed else { panic!("no text box") };
    assert_eq!((shown.text(), shown.caret()), (strings(&["abc", "d"]), (0, 1)));
    typed.press(pages[1]);
    let Editing::Text(shown) = &typed else { panic!("no text box") };
    assert_eq!(shown.caret(), (1, 1));
}

#[test]
fn a_selection_goes_from_where_it_was_begun() {
    let left = KeyEvent { code: KeyCode::Left, ctrl: false, alt: false, shift: true };
    let mut typed = Editing::text("abc");
    typed.press(left);
    typed.press(left);
    let Editing::Text(shown) = &typed else { panic!("no text box") };
    assert_eq!(shown.selection(), Some(((0, 1), (0, 3))));
    typed.press(KeyEvent::plain(KeyCode::PageDown));
    let Editing::Text(shown) = &typed else { panic!("no text box") };
    assert_eq!((shown.selection(), shown.caret()), (None, (0, 1)));
}

#[test]
fn a_new_value_goes_where_the_old_one_stood() {
    assert_eq!(replace_value("\t hostName =  old  ", "new"), "\t hostName =  new");
    assert_eq!(replace_value("Port 22", ""), "Port ");
    assert_eq!(replace_value("Port", "22"), "Port 22");
}

#[test]
fn any_jump_host_leaves_the_other_fields_alone() {
    let text = "Host a\n  HostName x\n  ProxyCommand ssh gw -W %h:%p\n  Port 22\nHost b\n";
    for gateway in ["two words", "-v", "a,b", "", "x # y"] {
        let config = config(text);
        let mut open = form(&config, "a");
        open.values[Field::Gateway.index()] = gateway.to_string();
        open.values[Field::User.index()] = "root".to_string();
        let again = SshConfig::parse("/c", &open.plan(&config).lines.join("\n"));
        let read = form(&again, "a");
        assert_eq!(read.value(Field::HostName), "x");
        assert_eq!(read.value(Field::User), "root");
        assert_eq!(read.value(Field::Port), "22");
        assert_eq!(read.value(Field::IdentityFile), "");
        assert_eq!(again.hosts.len(), 2);
    }
}

#[test]
fn a_new_block_leaves_the_others_where_they_are() {
    let text = "Host a\n  Port 1\nHost a\n  Port 2\n\n\n";
    let config = config(text);
    for alias in ["new", "two words", "=", "a"] {
        let mut open = HostForm::creating(&config);
        open.values[0] = alias.to_string();
        open.values[Field::Port.index()] = "=3".to_string();
        let plan = open.plan(&config);
        assert_eq!(plan.lines[..4], config.lines[..4]);
        assert_eq!(plan.lines[4], "");
        assert_eq!(plan.lines[5], format!("Host {alias}"));
        let again = SshConfig::parse("/c", &plan.lines.join("\n"));
        for (now, was) in again.hosts.iter().zip(&config.hosts) {
            assert_eq!(now.patterns, was.patterns);
            assert_eq!((now.start, now.end), (was.start, was.end));
            assert_eq!(now.shadowed_by, was.shadowed_by);
            assert_eq!(now.directives.len(), was.directives.len());
        }
        assert_eq!(again.hosts[1].shadowed_by, Some(0));
    }
}

#[test]
fn the_backup_lies_beside_the_config() {
    assert_eq!(backup_path("/home/me/.ssh/config"), "/home/me/.ssh/config.excalibur.bak");
    assert_eq!(temp_path("/home/me/.ssh/config"), "/home/me/.ssh/config.excalibur.tmp");
}

#[test]
fn a_picker_moves_between_its_ends() {
    let mut picker = Editing::pick(strings(&["", "a", "b"]), "a");
    let at = |e: &Editing| match e {
        Editing::Pick { index, .. } => *index,
        Editing::Text(_) => panic!("no picker"),
    };
    assert_eq!(at(&picker), 1);
    picker.press(KeyEvent::plain(KeyCode::Down));
    picker.press(KeyEvent::plain(KeyCode::Char('j')));
    assert_eq!(at(&picker), 2);
    assert_eq!(picker.value(), "b");
    for _ in 0..4 {
        picker.press(KeyEvent::plain(KeyCode::Char('k')));
    }
    assert_eq!(at(&picker), 0);
    assert_eq!(picker.press(KeyEvent::plain(KeyCode::Tab)), Then::AsText);
    assert_eq!(picker.press(KeyEvent::plain(KeyCode::Char('x'))), Then::Nothing);
    let mut nothing = Editing::pick(Vec::new(), "a");
    nothing.press(KeyEvent::plain(KeyCode::Down));
    assert_eq!(nothing.value(), "");
}

#[test]
fn a_picker_becomes_a_text_box_with_the_highlighted_value() {
    let config = config("Host a\n  User root\nHost b\n  User lxb\n");
    let mut open = form(&config, "a");
    open.cursor = Field::User.index();
    open.begin_edit(&config, &[]);
    open.edit_as_text();
    assert!(matches!(open.editing, Some(Editing::Text(_))));
    assert_eq!(open.editing.as_ref().unwrap().value(), "root");
    open.cancel_edit();
    assert!(open.editing.is_none());
}

#[test]
fn a_locked_alias_opens_no_editor() {
    let config = config("Host a b\n  Port 22\n");
    let mut open = form(&config, "a");
    open.begin_edit(&config, &[]);
    assert!(open.editing.is_none());
    assert_eq!(open.field(), Field::Alias);
    open.previous_field();
    assert_eq!(open.field(), Field::IdentityFile);
    open.next_field();
    assert_eq!(open.field(), Field::Alias);
    assert_eq!(Field::Gateway.label(), "Jump host");
}

#[test]
fn a_read_only_config_says_which_file() {
    let mut config = config("Host a\n");
    config.read_only = true;
    assert_eq!(write_config(&config, &[]).unwrap_err(), "/tmp/config is read-only");
    config.read_only = false;
    assert_eq!(write_config(&config, &strings(&["a", "", "b"])).unwrap(), "a\n\nb");
}
