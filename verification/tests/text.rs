use excalibur::find;
use excalibur::glob::glob_match;
use excalibur::number::{parse_u16, to_decimal};
use excalibur::order::{comes_before, sort_distinct};
use excalibur::paint::{align, pad, row_text, truncate};
use excalibur::split::{join, lines, spans, split, split_words};
use excalibur::text;

const SAMPLES: [&str; 14] = [
    "",
    " ",
    "a",
    " a b  c ",
    "\u{a0}x\u{3000}",
    "Host kami\n  Port 22\n",
    "a\r\nb\r\n\nc\r",
    "a,,b,",
    "ÄÖ ü\tß",
    "ssh -W %h:%p bastion",
    "\n",
    "\r\n",
    "…dots…",
    "127.0.0.1:8080",
];

#[test]
fn white_space_is_what_the_standard_says() {
    for c in (0..=0x10ffffu32).filter_map(char::from_u32) {
        assert_eq!(text::is_white(c), c.is_whitespace(), "{c:?}");
    }
}

#[test]
fn text_helpers_agree_with_the_standard_ones() {
    for a in SAMPLES {
        assert_eq!(text::trim(a), a.trim());
        assert_eq!(text::lowered(a), a.to_ascii_lowercase());
        assert_eq!(text::chars(a), a.chars().collect::<Vec<char>>());
        let mut shorter = a.to_string();
        shorter.pop();
        assert_eq!(text::without_last(a), shorter);
        for b in SAMPLES {
            assert_eq!(text::same(a, b), a == b);
            assert_eq!(text::same_ignoring_case(a, b), a.eq_ignore_ascii_case(b));
            assert_eq!(find::contains(a, b), a.contains(b), "{a:?} {b:?}");
            assert_eq!(find::starts_with(a, b), a.starts_with(b));
            assert_eq!(find::ends_with(a, b), a.ends_with(b));
            assert_eq!(comes_before(a, b), a < b, "{a:?} {b:?}");
        }
    }
    assert!(text::same_ignoring_case("HostName", "hostNAME"));
    assert!(!text::same_ignoring_case("Ä", "ä"));
}

#[test]
fn splitting_agrees_with_the_standard() {
    for s in SAMPLES {
        assert_eq!(split(s, ','), s.split(',').collect::<Vec<_>>());
        assert_eq!(split(s, '\n'), s.split('\n').collect::<Vec<_>>());
        assert_eq!(lines(s), s.lines().collect::<Vec<_>>(), "{s:?}");
        assert_eq!(split_words(s), s.split_whitespace().collect::<Vec<_>>());
        assert_eq!(join(&split(s, ','), ","), s);
        let cs: Vec<char> = s.chars().collect();
        let again: Vec<String> =
            spans(&cs).iter().map(|(a, b)| cs[*a..*b].iter().collect()).collect();
        assert_eq!(again, split_words(s));
    }
    assert_eq!(join(&[], ", "), "");
}

#[test]
fn pieces_around_a_character() {
    for s in SAMPLES {
        let cs: Vec<char> = s.chars().collect();
        assert_eq!(find::rfind(&cs, '.'), cs.iter().rposition(|c| *c == '.'));
        assert_eq!(find::find_char(&cs, '.'), cs.iter().position(|c| *c == '.'));
        assert_eq!(find::last_piece(s, '.'), s.rsplit('.').next().unwrap());
    }
}

#[test]
fn numbers_read_as_the_standard_reads_them() {
    for s in [
        "", "+", "0", "7", "+7", "++7", "-7", "00012", "65535", "65536", "99999999999999999999",
        "1 2", " 1", "٣", "0x10", "ff", "FF", "fF1",
    ] {
        assert_eq!(parse_u16(s, 10), s.parse::<u16>().ok(), "{s:?}");
        assert_eq!(parse_u16(s, 16), u16::from_str_radix(s, 16).ok(), "{s:?}");
    }
    for n in [0u128, 9, 10, 99, 100, 65535, 4294967296] {
        assert_eq!(to_decimal(n), n.to_string());
    }
    for n in 0..=u16::MAX {
        assert_eq!(parse_u16(&to_decimal(n.into()), 10), Some(n));
    }
}

#[test]
fn a_list_is_sorted_with_nothing_twice() {
    let from: Vec<String> =
        ["root", "lxb", "", "root", "Ä", "a", "B"].iter().map(|s| s.to_string()).collect();
    let mut want = from.clone();
    want.sort_unstable();
    want.dedup();
    assert_eq!(sort_distinct(&from), want);
    assert!(sort_distinct(&[]).is_empty());
}

#[test]
fn patterns_describe_names() {
    assert!(glob_match("*", ""));
    assert!(glob_match("*", "anything"));
    assert!(glob_match("kami", "kami"));
    assert!(!glob_match("kami", "kam"));
    assert!(!glob_match("kam", "kami"));
    assert!(glob_match("?ami", "kami"));
    assert!(!glob_match("?", ""));
    assert!(!glob_match("?", "ab"));
    assert!(glob_match("xx-*-wsl?", "xx-trade-wsl1"));
    assert!(!glob_match("xx-*-wsl?", "xx-trade-wsl"));
    assert!(glob_match("*a*b*", "xaxbx"));
    assert!(!glob_match("*a*b", "abc"));
    assert!(glob_match("**", "a"));
    assert!(glob_match("", ""));
    assert!(!glob_match("", "a"));
    // A star in the name is a character like any other, and a star in the
    // pattern still spans it and what follows.
    assert!(glob_match("a*", "a*b"));
    assert!(glob_match("*b", "*ab"));
}

#[test]
fn columns_are_filled_and_cut() {
    assert_eq!(pad("ab", 4), "ab  ");
    assert_eq!(pad("abcd", 2), "abcd");
    assert_eq!(truncate("abcd", 4), "abcd");
    assert_eq!(truncate("abcde", 4), "abc…");
    assert_eq!(truncate("abcde", 0), "…");
    assert_eq!(row_text("! ", "kami", "dead: line 1", 24), "! kami      dead: line 1");
    assert_eq!(row_text("  ", "a-long-alias", "via x", 14), "  a-lon… via x");
    assert_eq!(row_text("  ", "a-long-alias", "via x", 8), "  …via x");
    assert_eq!(row_text("  ", "", "via x", 8), "   via x");
    assert_eq!(align("left", "up", 80), format!("{}up", pad("left", 44)));
    assert_eq!(align("a-long-text", "2/3 up", 12), "a-lo… 2/3 up");
}
