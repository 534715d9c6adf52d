use ff::find::{find_result, FindTally};
use ff::hash::Visit;
use ff::matcher::Matcher;

fn matcher(pattern: &str) -> Matcher {
    Matcher::new(pattern, false, false).ok().unwrap().unwrap()
}

#[test]
fn searches_count_what_they_meet() {
    let m = matcher("Cargo.toml");
    let mut t = FindTally::new();
    assert!(t.visit(&m, &Visit::File("/home/Cargo.toml")));
    assert!(!t.visit(&m, &Visit::File("/home/Cargo.lock")));
    assert!(!t.visit(&m, &Visit::Other));
    assert_eq!((t.checked, t.found, t.had_errors), (3, 1, false));
    assert!(!t.visit(&m, &Visit::Unreadable));
    assert_eq!((t.checked, t.found, t.had_errors), (3, 1, true));
}

#[test]
fn searches_show_progress_now_and_then() {
    let t = FindTally { checked: 100_000, found: 7, had_errors: false };
    let shown = Some("100.0K  checked  7  found  2.0s".to_string());
    assert_eq!(t.progress(false, &Visit::Other, 2, 0), shown);
    assert_eq!(t.progress(false, &Visit::File("/a"), 2, 0), shown);
    assert_eq!(t.progress(false, &Visit::Unreadable, 2, 0), None);
    assert_eq!(t.progress(true, &Visit::Other, 2, 0), None);
    let t = FindTally { checked: 100_001, found: 7, had_errors: false };
    assert_eq!(t.progress(false, &Visit::Other, 2, 0), None);
}

#[test]
fn searches_are_summed_up() {
    let t = FindTally { checked: 916_793, found: 1, had_errors: false };
    assert_eq!(t.report(false, 0, 316_000_000), vec!["\n  916.8K  checked  1  found  0.3s"]);
    let s = t.summary(316);
    assert_eq!(
        (s.event, s.checked, s.found, s.elapsed_ms, s.errors),
        ("summary", 916_793, 1, 316, false)
    );
    let t = FindTally { checked: 1, found: 0, had_errors: true };
    assert_eq!(
        t.report(false, 0, 0),
        vec![
            "\n  1  checked  0  found  0ms",
            "  ! some paths were inaccessible (run with sudo for full coverage)",
        ]
    );
    assert!(t.summary(0).errors);
}

#[test]
fn results_become_events() {
    let r = find_result("/a", Some((514, 1709654400)));
    assert_eq!((r.event, r.path.as_str(), r.size, r.modified), ("result", "/a", 514, 1709654400));
    let r = find_result("/a", None);
    assert_eq!((r.size, r.modified), (0, 0));
}
