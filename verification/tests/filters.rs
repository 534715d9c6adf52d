use ff::duration::{duration_parts, parse_duration};
use ff::matcher::{found, same_lower, wants, Matcher};
use ff::skip::{keep_entry, should_skip};

fn filter(pattern: &str, is_regex: bool, ignore_case: bool) -> Matcher {
    match Matcher::new(pattern, is_regex, ignore_case) {
        Ok(Some(m)) => m,
        _ => panic!("no filter"),
    }
}

#[test]
fn exact_pattern_is_the_whole_name() {
    let m = filter("Cargo.toml", false, false);
    assert!(m.matches("/home/user/Cargo.toml"));
    assert!(m.matches("Cargo.toml"));
    assert!(m.matches("/home/Cargo.toml/"));
    assert!(!m.matches("/home/user/cargo.toml"));
    assert!(!m.matches("/home/user/xCargo.toml"));
    assert!(!m.matches("/home/Cargo.toml/user"));
    assert!(m.matches_str("/home/user/Cargo.toml"));
    assert!(!m.matches_str("/"));
}

#[test]
fn case_is_ignored_on_request() {
    let m = filter("ÄRGER.TXT", false, true);
    assert!(m.matches("/tmp/ärger.txt"));
    assert!(m.matches("/tmp/Ärger.Txt"));
    assert!(!m.matches("/tmp/arger.txt"));
}

#[test]
fn case_of_an_ascii_pattern_does_not_matter() {
    let every: String = (1u8..128).filter(|c| *c != b'/').map(char::from).collect();
    let paths = ["/x/readme.md", "/x/README.MD", "/x/ReadMe.md", "/x/read\u{212a}", "/x/README", "/"];
    for p in ["readme.md", "README.md", "readk", "a", every.as_str()] {
        let exact = filter(p, false, false);
        let lower = filter(p, false, true);
        let upper = filter(&p.to_ascii_uppercase(), false, true);
        for path in paths.iter().map(|s| s.to_string()).chain([format!("/{p}"), format!("/{}", p.to_uppercase())]) {
            assert_eq!(lower.matches(&path), upper.matches(&path));
            assert!(!exact.matches(&path) || lower.matches(&path));
        }
        assert!(lower.matches(&format!("/{}", p.to_uppercase())));
    }
    assert!(filter("readk", false, true).matches("/x/read\u{212a}"));
}

#[test]
fn expression_is_searched_for_in_name_and_path() {
    let conf = filter(r"\.conf$", true, false);
    assert!(conf.matches("/etc/resolv.conf"));
    assert!(!conf.matches("/etc/resolv.conf.bak"));
    assert!(!conf.matches("/etc/RESOLV.CONF"));
    let dir = filter("^/etc/", true, false);
    assert!(dir.matches("/etc/fstab"));
    assert!(!dir.matches("/usr/etc/fstab"));
    let name = filter("^fstab$", true, false);
    assert!(name.matches("/etc/fstab"));
    let any = filter(r"\.CONF$", true, true);
    assert!(any.matches("/etc/resolv.conf"));
}

#[test]
fn path_without_name_passes_no_filter() {
    let m = filter(".", true, false);
    assert!(!m.matches("/"));
    assert!(!m.matches("/etc/.."));
    assert!(m.matches("/etc"));
}

#[test]
fn empty_pattern_is_no_filter() {
    assert!(matches!(Matcher::new("", true, true), Ok(None)));
    assert!(matches!(Matcher::optional(&None, false, false), Ok(None)));
    assert!(matches!(Matcher::optional(&Some(String::new()), false, false), Ok(None)));
    assert!(matches!(Matcher::optional(&Some("a".to_string()), false, false), Ok(Some(_))));
}

#[test]
fn invalid_expression_says_why() {
    for (pattern, ignore_case, built) in [("(", false, "("), ("[", true, "(?i)[")] {
        let expected = match regex::Regex::new(built) {
            Err(e) => e.to_string(),
            Ok(_) => panic!("valid"),
        };
        match Matcher::new(pattern, true, ignore_case) {
            Err(e) => assert_eq!(e.message, expected),
            Ok(_) => panic!("accepted"),
        }
    }
    assert!(matches!(Matcher::new("(", false, false), Ok(Some(_))));
    assert!(Matcher::optional(&Some("(".to_string()), true, false).is_err());
}

#[test]
fn filters_describe_themselves() {
    assert_eq!(filter("a", false, false).describe(), "a");
    assert_eq!(filter("a", false, true).describe(), "a  (case-insensitive)");
    assert_eq!(filter("a", true, false).describe(), "regex:a");
    assert_eq!(filter("a", true, true).describe(), "regex:a");
}

#[test]
fn results_of_searches_decide() {
    assert!(found(true, false));
    assert!(found(false, true));
    assert!(!found(false, false));
    assert!(same_lower(&"a".to_string(), &"a".to_string()));
    assert!(!same_lower(&"a".to_string(), &"b".to_string()));
    assert!(wants(&None, "/"));
    assert!(wants(&Some(filter("a", false, false)), "/b/a"));
    assert!(!wants(&Some(filter("a", false, false)), "/a/b"));
}

#[test]
fn virtual_file_systems_are_skipped() {
    for p in ["/proc", "/sys", "/dev", "/run", "/snap", "/var/run", "/var/lock"] {
        assert!(should_skip(p));
        assert!(should_skip(&format!("{p}/")));
        assert!(should_skip(&format!("{p}/1/fd")));
        assert!(!should_skip(&format!("{p}x")));
        assert!(!should_skip(&format!("/a{p}")));
    }
    assert!(!should_skip("/"));
    assert!(!should_skip("/var"));
    assert!(!should_skip("/var/lib"));
    assert!(!should_skip("proc"));
    assert!(!should_skip(""));
}

#[test]
fn entries_are_kept_or_left_out() {
    assert!(keep_entry(true, Some("/proc")));
    assert!(keep_entry(true, None));
    assert!(keep_entry(false, Some("/home")));
    assert!(!keep_entry(false, Some("/proc/1")));
    assert!(!keep_entry(false, None));
}

fn seconds(s: &str) -> u64 {
    match parse_duration(s) {
        Ok(n) => n,
        Err(e) => panic!("{}", e.text),
    }
}

#[test]
fn durations_have_units() {
    assert_eq!(seconds("30s"), 30);
    assert_eq!(seconds("5m"), 300);
    assert_eq!(seconds("2h"), 7200);
    assert_eq!(seconds("1d"), 86400);
    assert_eq!(seconds("45"), 45);
    assert_eq!(seconds("  2h \n"), 7200);
    assert_eq!(seconds("+3m"), 180);
    assert_eq!(seconds("0d"), 0);
    assert_eq!(seconds(""), 0);
    assert_eq!(seconds(" \t"), 0);
    assert_eq!(seconds("18446744073709551615"), u64::MAX);
}

#[test]
fn what_is_no_duration_is_named() {
    for (s, text) in [
        ("h", "h"), ("abc", "abc"), (" 2x ", "2x"), ("1 h", "1 h"), ("-1h", "-1h"),
        ("2hh", "2hh"), ("1.5h", "1.5h"), ("18446744073709551616", "18446744073709551616"),
    ] {
        match parse_duration(s) {
            Err(e) => assert_eq!(e.text, text),
            Ok(n) => panic!("{n}"),
        }
    }
}

#[test]
fn parts_of_long_durations_are_given() {
    assert!(matches!(duration_parts("18446744073709551615d"), Ok((u64::MAX, 86400))));
    assert!(matches!(duration_parts(""), Ok((0, 1))));
    assert!(duration_parts("x").is_err());
}
