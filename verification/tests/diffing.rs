use ff::diff::{
    change_line, comparing_message, diff_changed, diff_intro, diff_report, diff_summary,
    no_snapshot, since_cutoff, snapshot_advice, unreadable_snapshot, Action, Change, ChangeKind,
    Comparison, Difference, Evidence, Outcome,
};
use ff::matcher::Matcher;
use ff::snapshot::{load_snapshot, render_snapshot, HashedFile};

fn filter(pattern: &str) -> Option<Matcher> {
    Matcher::new(pattern, false, false).ok().unwrap()
}

const OLD: &str = "000000000000000000000000000000aa";
const NEW: &str = "000000000000000000000000000000bb";

fn comparison(cutoff: Option<u64>) -> Comparison {
    let results = vec![
        Some(HashedFile { path: "/a".to_string(), hash: 0xaa, size: 10, mtime: 100 }),
        Some(HashedFile { path: "/d/b".to_string(), hash: 0xaa, size: 20, mtime: 200 }),
        Some(HashedFile { path: "/c".to_string(), hash: 0xaa, size: 30, mtime: 300 }),
    ];
    let (text, _) = render_snapshot(1000, "/", &results);
    Comparison { snapshot: load_snapshot(&text), cutoff }
}

/// Takes each action in turn, as a caller does.
fn compare(c: &Comparison, path: &str, meta: Option<(u64, u64)>, hash: Option<&str>) -> Outcome {
    let mut evidence = Evidence::Nothing;
    let mut rehashed = false;
    loop {
        match c.next(path, evidence) {
            Action::ReadMetadata => evidence = Evidence::Metadata(meta),
            Action::ReadContent => {
                rehashed = true;
                evidence = Evidence::Hash(hash.map(str::to_string));
            }
            Action::Done(change) => {
                return Outcome { path: path.to_string(), rehashed, change };
            }
        }
    }
}

fn shape(o: &Outcome) -> (bool, Option<(&'static str, &str, Option<&str>, Option<&str>)>) {
    (
        o.rehashed,
        o.change.as_ref().map(|c| {
            (c.kind.as_str(), c.path.as_str(), c.old_hash.as_deref(), c.new_hash.as_deref())
        }),
    )
}

#[test]
fn unchanged_metadata_skips_hashing() {
    let c = comparison(None);
    assert_eq!(shape(&compare(&c, "/a", Some((10, 100)), Some(NEW))), (false, None));
    assert!(matches!(c.next("/a", Evidence::Nothing), Action::ReadMetadata));
}

#[test]
fn changed_metadata_leads_to_hashing() {
    let c = comparison(None);
    let modified = Some(("modified", "/a", Some(OLD), Some(NEW)));
    assert_eq!(shape(&compare(&c, "/a", Some((11, 100)), Some(NEW))), (true, modified));
    assert_eq!(shape(&compare(&c, "/a", Some((10, 101)), Some(NEW))), (true, modified));
    assert_eq!(shape(&compare(&c, "/a", Some((10, 101)), Some(OLD))), (true, None));
    assert_eq!(shape(&compare(&c, "/a", Some((10, 101)), None)), (true, None));
    assert_eq!(shape(&compare(&c, "/a", None, Some(NEW))), (false, None));
}

#[test]
fn unknown_files_are_created() {
    let c = comparison(None);
    assert!(matches!(c.next("/new", Evidence::Nothing), Action::ReadContent));
    let created = |h| Some(("created", "/new", None, h));
    assert_eq!(shape(&compare(&c, "/new", None, Some(NEW))), (true, created(Some(NEW))));
    assert_eq!(shape(&compare(&c, "/new", None, None)), (true, created(None)));
}

#[test]
fn old_files_are_left_out() {
    let c = comparison(Some(500));
    let created = |h| Some(("created", "/new", None, h));
    assert_eq!(shape(&compare(&c, "/a", Some((11, 499)), Some(NEW))), (false, None));
    assert_eq!(
        shape(&compare(&c, "/a", Some((11, 500)), Some(NEW))),
        (true, Some(("modified", "/a", Some(OLD), Some(NEW))))
    );
    assert_eq!(shape(&compare(&c, "/new", Some((1, 499)), Some(NEW))), (false, None));
    assert_eq!(
        shape(&compare(&c, "/new", Some((1, 500)), Some(NEW))),
        (true, created(Some(NEW)))
    );
    assert_eq!(shape(&compare(&c, "/new", None, Some(NEW))), (true, created(Some(NEW))));
}

#[test]
fn cutoff_lies_before_now() {
    assert_eq!(since_cutoff(1000, None), None);
    assert_eq!(since_cutoff(1000, Some(300)), Some(700));
    assert_eq!(since_cutoff(1000, Some(1001)), Some(0));
}

fn pairs(d: &Difference) -> Vec<(&'static str, &str, Option<&str>, Option<&str>)> {
    d.changes
        .iter()
        .map(|c| (c.kind.as_str(), c.path.as_str(), c.old_hash.as_deref(), c.new_hash.as_deref()))
        .collect()
}

#[test]
fn files_not_seen_are_deleted() {
    let c = comparison(None);
    let outcomes = vec![
        compare(&c, "/new", None, Some(NEW)),
        compare(&c, "/c", Some((30, 300)), None),
    ];
    let d = c.finish(&None, outcomes);
    assert_eq!((d.checked, d.rehashed), (2, 1));
    assert_eq!(
        pairs(&d),
        vec![
            ("created", "/new", None, Some(NEW)),
            ("deleted", "/a", Some(OLD), None),
            ("deleted", "/d/b", Some(OLD), None),
        ]
    );
}

#[test]
fn deletions_pass_the_filter() {
    let c = comparison(None);
    let d = c.finish(&filter("b"), Vec::new());
    assert_eq!((d.checked, d.rehashed), (0, 0));
    assert_eq!(pairs(&d), vec![("deleted", "/d/b", Some(OLD), None)]);
}

#[test]
fn fresh_snapshot_shows_no_change() {
    let c = comparison(None);
    let outcomes = vec![
        compare(&c, "/a", Some((10, 100)), None),
        compare(&c, "/d/b", Some((20, 200)), None),
        compare(&c, "/c", Some((30, 300)), None),
    ];
    let d = c.finish(&None, outcomes);
    assert_eq!((d.changes.len(), d.checked, d.rehashed), (0, 3, 0));
}

fn change(kind: ChangeKind, path: &str) -> Change {
    Change { kind, path: path.to_string(), old_hash: None, new_hash: None }
}

#[test]
fn changes_are_reported_in_order() {
    let d = Difference {
        changes: vec![
            change(ChangeKind::Created, "/etc/new-config.conf"),
            change(ChangeKind::Modified, "/etc/resolv.conf"),
            change(ChangeKind::Deleted, "/z"),
            change(ChangeKind::Created, "/b"),
            change(ChangeKind::Deleted, "/Z"),
        ],
        checked: 1937,
        rehashed: 2,
    };
    assert_eq!(
        diff_report(false, &d, 0, 6_000_000),
        vec![
            "",
            "  deleted   /Z",
            "  deleted   /z",
            "  modified  /etc/resolv.conf",
            "  created   /b",
            "  created   /etc/new-config.conf",
            "\n  5  changed  1.9K  checked  2  rehashed  6ms",
        ]
    );
    let s = diff_summary(&d, 6);
    assert_eq!(
        (s.event, s.modified, s.created, s.deleted, s.checked, s.rehashed, s.elapsed_ms),
        ("summary", 1, 2, 2, 1937, 2, 6)
    );
    assert_eq!((s.modified + s.created + s.deleted) as usize, d.changes.len());
}

#[test]
fn no_changes_are_reported_as_such() {
    let d = Difference { changes: Vec::new(), checked: 3, rehashed: 0 };
    assert_eq!(
        diff_report(true, &d, 1, 500_000_000),
        vec!["\n  no changes detected", "\n  0  changed  3  checked  0  rehashed  1.5s"]
    );
}

#[test]
fn changes_have_colors_on_a_terminal() {
    crossterm::style::force_color_output(true);
    assert_eq!(
        change_line(true, &change(ChangeKind::Created, "/a")),
        "  \u{1b}[38;5;10mcreated \u{1b}[39m  /a"
    );
    assert_eq!(
        change_line(true, &change(ChangeKind::Modified, "/a")),
        "  \u{1b}[38;5;11mmodified\u{1b}[39m  /a"
    );
    assert_eq!(
        change_line(true, &change(ChangeKind::Deleted, "/a")),
        "  \u{1b}[38;5;9mdeleted \u{1b}[39m  /a"
    );
}

#[test]
fn changes_become_events() {
    let e = diff_changed(&Change {
        kind: ChangeKind::Modified,
        path: "/etc/resolv.conf".to_string(),
        old_hash: Some("abc".to_string()),
        new_hash: None,
    });
    assert_eq!(
        (e.event, e.kind.as_str(), e.path.as_str(), e.old_hash.as_deref(), e.new_hash),
        ("changed", "modified", "/etc/resolv.conf", Some("abc"), None)
    );
}

#[test]
fn comparisons_are_introduced() {
    let s = load_snapshot("# ff snapshot 1772681473 1 /etc\nh\t1\t2\t/etc/a\n");
    assert_eq!(
        diff_intro(&s, Some("2026-03-05 03:51:13"), &None, "/p"),
        vec![
            "  comparing against snapshot from 2026-03-05 03:51:13  (1  files)  scope: /etc",
            "  snapshot: /p",
        ]
    );
    let s = load_snapshot("h\t1\t2\t/etc/a\n");
    assert_eq!(
        diff_intro(&s, None, &filter("a"), "/p")[0],
        "  comparing against snapshot from 0  (1  files)  filter: a"
    );
    assert_eq!(comparing_message(12), "12  files found, comparing...");
}

#[test]
fn missing_snapshots_are_explained() {
    assert_eq!(
        no_snapshot("/etc"),
        vec!["  no snapshot found for '/etc'", "  run 'ff hash /etc' first to create one"]
    );
    assert_eq!(
        unreadable_snapshot("gone", "/etc"),
        vec!["  failed to load snapshot: gone", "  run 'ff hash /etc' first to create one"]
    );
    assert_eq!(snapshot_advice("/"), "  run 'ff hash /' first to create one");
}
