use ff::catalog::{
    find_latest_snapshot, find_stamp, read_name, sanitize_path, snapshot_dir, snapshot_filename,
    underscore_before, NameKind,
};
use ff::hash::{
    bytes_hashed, collected_message, collecting_message, collects, hash_complete, hash_file,
    hash_file_hex, hash_hex, hash_progress, hash_report, hashed_file, read_plan, HashTally,
    ReadPlan, Visit,
};
use ff::lines::read_text;
use ff::listing::{display_path, list_snapshots, snapshot_header, SnapshotFile};
use ff::localtime::{format_time_hms, format_timestamp, stamp_at_most, LocalTime};
use ff::matcher::Matcher;
use ff::snapshot::{
    count_entries, load_snapshot, load_snapshot_header, parse_header_line, render_snapshot,
    HashedFile,
};

fn time(year: i32, month: i32, day: i32, hour: i32, minute: i32, second: i32) -> LocalTime {
    LocalTime { year: year - 1900, month: month - 1, day, hour, minute, second }
}

fn names(list: &[&str]) -> Vec<String> {
    list.iter().map(|s| s.to_string()).collect()
}

#[test]
fn times_are_written_as_timestamps() {
    assert_eq!(format_timestamp(&time(2026, 3, 5, 3, 50, 39)), "20260305_035039");
    assert_eq!(format_timestamp(&time(12026, 11, 15, 23, 59, 60)), "120261115_235960");
    assert_eq!(format_timestamp(&time(7, 1, 1, 0, 0, 0)), "00070101_000000");
    assert_eq!(format_timestamp(&time(-5, 1, 1, 0, 0, 0)), format!("{:04}0101_000000", -5));
    assert_eq!(format_time_hms(&time(2026, 3, 5, 14, 32, 1)), "14:32:01");
}

#[test]
fn timestamps_sort_by_time() {
    let a = format_timestamp(&time(2025, 12, 31, 23, 59, 59));
    let b = format_timestamp(&time(2026, 1, 1, 0, 0, 0));
    assert!(a < b);
    assert!(stamp_at_most(&a, &b));
    assert!(!stamp_at_most(&b, &a));
    assert!(stamp_at_most(&a, &a));
    let c = format_timestamp(&time(12026, 1, 1, 0, 0, 0));
    assert!(stamp_at_most(&b, &c));
    assert!(!stamp_at_most(&c, &b));
}

#[test]
fn snapshots_are_kept_below_home() {
    assert_eq!(snapshot_dir(Some("/home/user")), "/home/user/.ff");
    assert_eq!(snapshot_dir(None), "/root/.ff");
    assert_eq!(snapshot_dir(Some("")), "/.ff");
}

#[test]
fn paths_become_prefixes() {
    assert_eq!(sanitize_path("/"), "root");
    assert_eq!(sanitize_path(""), "root");
    assert_eq!(sanitize_path("///"), "root");
    assert_eq!(sanitize_path("/etc"), "etc");
    assert_eq!(sanitize_path("/home/user"), "home_user");
    assert_eq!(sanitize_path("/home//user/"), "home__user");
}

#[test]
fn snapshots_are_named_by_target_and_time() {
    let t = time(2026, 3, 5, 3, 50, 39);
    let dir = "/home/user/.ff";
    assert_eq!(snapshot_filename(dir, "/", &t), "/home/user/.ff/root_20260305_035039.tsv");
    assert_eq!(snapshot_filename(dir, "/etc", &t), "/home/user/.ff/etc_20260305_035039.tsv");
    assert_eq!(
        snapshot_filename(dir, "/home/user", &t),
        "/home/user/.ff/home_user_20260305_035039.tsv"
    );
}

#[test]
fn latest_snapshot_of_a_target_is_found() {
    let all = names(&[
        "etc_20260305_041100.tsv",
        "root_20270101_000000.tsv",
        "etc_20260305_035039.tsv",
        "etc_foo_20280101_000000.tsv",
        "etc_20290101_000000.tsv.bak",
        "etc_2029.tsv",
        "etcx_20290101_000000.tsv",
        "notes.txt",
    ]);
    assert_eq!(
        find_latest_snapshot("/r/.ff", "/etc", &all),
        Some("/r/.ff/etc_20260305_041100.tsv".to_string())
    );
    assert_eq!(
        find_latest_snapshot("/r/.ff", "/etc/foo/", &all),
        Some("/r/.ff/etc_foo_20280101_000000.tsv".to_string())
    );
    assert_eq!(
        find_latest_snapshot("/r/.ff", "/", &all),
        Some("/r/.ff/root_20270101_000000.tsv".to_string())
    );
    assert_eq!(find_latest_snapshot("/r/.ff", "/home", &all), None);
    assert_eq!(find_latest_snapshot("/r/.ff", "/etc", &Vec::new()), None);
}

#[test]
fn snapshots_of_far_years_are_found() {
    let t = time(12026, 3, 5, 3, 50, 39);
    let path = snapshot_filename("/r/.ff", "/etc", &t);
    assert_eq!(path, "/r/.ff/etc_120260305_035039.tsv");
    let only = names(&["etc_120260305_035039.tsv"]);
    assert_eq!(find_latest_snapshot("/r/.ff", "/etc", &only), Some(path.clone()));
    let mixed = names(&["etc_99991231_235959.tsv", "etc_120260305_035039.tsv", "etc_20260101_000000.tsv"]);
    assert_eq!(find_latest_snapshot("/r/.ff", "/etc", &mixed), Some(path));
}

#[test]
fn undated_snapshots_are_taken_where_none_is_dated() {
    let undated = names(&["etc_backup.tsv", "etc_a.tsv", "etc_foo_20280101_000000.tsv", "x.tsv"]);
    assert_eq!(
        find_latest_snapshot("/r/.ff", "/etc", &undated),
        Some("/r/.ff/etc_backup.tsv".to_string())
    );
    let both = names(&["etc_backup.tsv", "etc_20200101_000000.tsv"]);
    assert_eq!(
        find_latest_snapshot("/r/.ff", "/etc", &both),
        Some("/r/.ff/etc_20200101_000000.tsv".to_string())
    );
    let foreign = names(&["etc_foo_20280101_000000.tsv", "etc.tsv", "etc_a.tsv.bak"]);
    assert_eq!(find_latest_snapshot("/r/.ff", "/etc", &foreign), None);
}

#[test]
fn names_are_told_apart() {
    let dated = |name: &str, prefix: &str| match read_name(name, prefix) {
        NameKind::Dated(s) => Some(s),
        _ => None,
    };
    assert_eq!(dated("etc_20260305_035039.tsv", "etc"), Some("20260305_035039".to_string()));
    assert_eq!(dated("a_b_120260305_035039.tsv", "a_b"), Some("120260305_035039".to_string()));
    for name in [
        "etc_20260305-035039.tsv", "etc_20260305_03503x.tsv", "etc_0120260305_035039.tsv",
        "etc_2026305_035039.tsv", "etc_20260305_35039.tsv", "etc_.tsv", "etc_backup.tsv",
    ] {
        assert!(matches!(read_name(name, "etc"), NameKind::Undated), "{name}");
    }
    for name in [
        "etc_20260305_035039.tsw", "usr_20260305_035039.tsv", "etc_foo_20260305_035039.tsv", "etc.tsv",
        "etc_20260305_20260306_035039.tsv", "", "etc_",
    ] {
        assert!(matches!(read_name(name, "etc"), NameKind::Foreign), "{name}");
    }
    assert!(matches!(read_name("etc_20260305_035039.tsv", "et"), NameKind::Foreign));
    let v: Vec<char> = "etc_20260305_035039".chars().collect();
    assert_eq!(find_stamp(&v, v.len()), Some(3));
    assert_eq!(find_stamp(&v, v.len() - 1), None);
    assert_eq!(underscore_before(&v, v.len()), Some(12));
    assert_eq!(underscore_before(&v, 3), None);
}

fn file(path: &str, hash: u128, size: u64, mtime: u64) -> Option<HashedFile> {
    Some(HashedFile { path: path.to_string(), hash, size, mtime })
}

#[test]
fn snapshots_are_written_as_documented() {
    let results = vec![
        file("/etc/fstab", 0x04bf023323ff84a22ba99adbbc1065bc, 10013, 1772681381),
        None,
        file("/etc/a b\tc", 1, 0, 0),
    ];
    let (text, written) = render_snapshot(1772681413, "/etc", &results);
    assert_eq!(
        text,
        "# ff snapshot 1772681413 3 /etc\n\
         # hash\tsize\tmtime\tpath\n\
         04bf023323ff84a22ba99adbbc1065bc\t10013\t1772681381\t/etc/fstab\n\
         00000000000000000000000000000001\t0\t0\t/etc/a b\tc\n"
    );
    assert_eq!(written, 2);
}

#[test]
fn snapshots_are_read_back() {
    let results = vec![
        file("/etc/fstab", u128::MAX, u64::MAX, 7),
        None,
        file("/etc/a b\tc", 1, 0, 0),
        file("/etc/#x", 2, 3, 4),
    ];
    let (text, _) = render_snapshot(99, "/srv/my files", &results);
    let s = load_snapshot(&text);
    assert_eq!(s.timestamp, 99);
    assert_eq!(s.scope, "/srv/my files");
    assert_eq!(s.files.len(), 3);
    for f in results.iter().flatten() {
        let r = s.files.get(&f.path).unwrap();
        assert_eq!(r.hash, format!("{:032x}", f.hash));
        assert_eq!(r.size, f.size);
        assert_eq!(r.mtime, f.mtime);
    }
    assert_eq!(load_snapshot_header(&text), (99, 4, "/srv/my files".to_string()));
    assert_eq!(count_entries(&text), 3);
}

#[test]
fn paths_that_break_their_line_are_not_read_back() {
    let (text, _) = render_snapshot(1, "/", &vec![file("/a\nb", 1, 2, 3)]);
    let s = load_snapshot(&text);
    assert!(!s.files.contains("/a\nb"));
    assert!(s.files.contains("/a"));
}

#[test]
fn odd_snapshots_are_read_as_far_as_they_go() {
    let s = load_snapshot("");
    assert_eq!((s.timestamp, s.scope.as_str(), s.files.len()), (0, "", 0));
    let s = load_snapshot(
        "# ff snapshot 5\n\n# note\nh\t1\t2\n\
         h\tx\t-1\t/a\r\n\
         h1\t1\t2\t/b\nh2\t+3\t4\t/b\n\
         # ff snapshot x 2 /etc  x",
    );
    assert_eq!(s.timestamp, 0);
    assert_eq!(s.scope, "/etc  x");
    assert_eq!(s.files.len(), 2);
    let a = s.files.get("/a").unwrap();
    assert_eq!((a.hash.as_str(), a.size, a.mtime), ("h", 0, 0));
    let b = s.files.get("/b").unwrap();
    assert_eq!((b.hash.as_str(), b.size, b.mtime), ("h2", 3, 4));
}

#[test]
fn headers_are_found() {
    assert_eq!(
        load_snapshot_header("x\n# ff snapshot 7 8 /a b c\n# ff snapshot 1 2 /z\n"),
        (7, 8, "/a b c".to_string())
    );
    assert_eq!(load_snapshot_header("# ff snapshot 7"), (7, 0, String::new()));
    assert_eq!(load_snapshot_header("# ff snapshot7"), (0, 0, String::new()));
    assert_eq!(load_snapshot_header(""), (0, 0, String::new()));
    assert_eq!(parse_header_line("# hash\tsize\tmtime\tpath"), None);
    assert_eq!(parse_header_line("# ff snapshot 1 2 /"), Some((1, 2, "/".to_string())));
    assert_eq!(count_entries("#a\n\nb\r\n \n"), 2);
}

fn listed(name: &str, day: i32, content: Option<&[u8]>) -> SnapshotFile {
    SnapshotFile {
        name: name.to_string(),
        path: format!("/r/.ff/{name}"),
        content: content.map(|c| c.to_vec()),
        time: time(2026, 3, day, 3, 50, 39),
    }
}

fn rows(files: Vec<SnapshotFile>) -> Vec<(String, String, String, u64)> {
    list_snapshots(&files)
        .into_iter()
        .map(|e| (e.display, e.file_path, e.stamp, e.count))
        .collect()
}

fn row(d: &str, f: &str, s: &str, n: u64) -> (String, String, String, u64) {
    (d.to_string(), format!("/r/.ff/{f}"), s.to_string(), n)
}

#[test]
fn snapshots_are_listed_by_what_they_are_of() {
    let r = rows(vec![
        listed("root_2.tsv", 2, Some(b"# ff snapshot 2 1 /\na\n")),
        listed("etc_2.tsv", 2, Some(b"# ff snapshot 2 9 /etc\na\n\xff\n")),
        listed("etc_1.tsv", 1, Some(b"#\na\n# ff snapshot 1 9 /etc\r\nb\n\n")),
        listed("home_user_20260305_035039.tsv", 1, Some(b"")),
        listed("notes.txt", 1, Some(b"# ff snapshot 1 0 /a")),
        listed("gone.tsv", 1, None),
        listed("bad.tsv", 1, Some(b"\xff\n# ff snapshot 1 0 /a\n")),
    ]);
    assert_eq!(
        r,
        vec![
            row("/", "root_2.tsv", "20260302_035039", 1),
            row("/etc", "etc_1.tsv", "20260301_035039", 2),
            row("/etc", "etc_2.tsv", "20260302_035039", 0),
            row("home/user", "home_user_20260305_035039.tsv", "20260301_035039", 0),
        ]
    );
}

#[test]
fn snapshots_of_one_target_are_one_group() {
    let r = rows(vec![
        listed("etc_20260306_041100.tsv", 6, Some(b"a\n")),
        listed("etc_foo_20260305_041100.tsv", 5, Some(b"a\n")),
        listed("etc_20260305_035039.tsv", 5, Some(b"a\n")),
        listed("etc_120260305_035039.tsv", 7, Some(b"a\n")),
    ]);
    let shown: Vec<&str> = r.iter().map(|e| e.0.as_str()).collect();
    assert_eq!(shown, vec!["etc", "etc", "etc", "etc/foo"]);
}

#[test]
fn names_say_what_a_snapshot_is_of() {
    for (name, target) in [
        ("etc_20260305_035039.tsv", "etc"),
        ("etc_20260306_041100.tsv", "etc"),
        ("home_user_20260305_035039.tsv", "home/user"),
        ("root_120260305_035039.tsv", "root"),
        ("etc_20260305_035039.tsv.tsv", "etc"),
        ("etc_20260305.tsv", "etc"),
        ("etc_20260305_0350.tsv", "etc/20260305"),
        ("20260305_035039.tsv", "20260305"),
        ("a.tsv", "a"),
        ("a_b.tsv.tsv", "a"),
        ("_.tsv", ""),
        (".tsv", ""),
        ("", ""),
        ("a_b", "a"),
        ("__", "/"),
        ("x.tsv_", "x.tsv"),
    ] {
        assert_eq!(display_path(name, ""), target, "{name:?}");
        assert_eq!(display_path(name, "/s"), "/s");
    }
}

#[test]
fn headers_are_read_from_contents() {
    let header = |c: &[u8]| snapshot_header(&Some(c.to_vec()));
    assert_eq!(header(b"x\n# ff snapshot 7 8 /a b\n\xff"), Some((7, 8, "/a b".to_string())));
    assert_eq!(header(b"\xff\n# ff snapshot 7 8 /a\n"), None);
    assert_eq!(header(b"x\n"), Some((0, 0, String::new())));
    assert_eq!(header(b"x\n\xff"), None);
    assert_eq!(snapshot_header(&None), None);
}

#[test]
fn texts_are_read_as_far_as_they_go() {
    assert_eq!(read_text(b""), (String::new(), true));
    assert_eq!(read_text("aé\n€".as_bytes()), ("aé\n€".to_string(), true));
    assert_eq!(read_text(b"a\r\nb\xffc\nd\n"), ("a\r\n".to_string(), false));
    assert_eq!(read_text(b"\n\n"), ("\n\n".to_string(), true));
    assert_eq!(read_text(b"a\n\xc3\n\xa9"), ("a\n".to_string(), false));
    for bytes in [&b"a\nb"[..], &b"\xc3\xa9\n\xc3"[..], &b"\n\x80"[..], &b"\xf0\x9f\x98\x80\n"[..]] {
        let (text, whole) = read_text(bytes);
        match String::from_utf8(bytes.to_vec()) {
            Ok(s) => assert_eq!((text, whole), (s, true)),
            Err(_) => assert!(!whole),
        }
    }
}

#[test]
fn contents_are_hashed() {
    assert_eq!(hash_file(0, None), Some((0x99aa06d3014798d86001c324468d497f, 0)));
    assert_eq!(hash_file(0, Some(b"x")), Some((xxhash_rust::xxh3::xxh3_128(b""), 0)));
    let data: Vec<u8> = (0..5000u32).map(|i| (i * 7) as u8).collect();
    for n in [1usize, 3, 16, 17, 128, 129, 240, 241, 1024, 5000] {
        let h = xxhash_rust::xxh3::xxh3_128(&data[..n]);
        assert_eq!(hash_file(n as u64, Some(&data[..n])), Some((h, n as u64)));
        assert_eq!(hash_file_hex(n as u64, Some(&data[..n])), Some(format!("{h:032x}")));
    }
    assert_eq!(hash_file(5, None), None);
    assert_eq!(hash_file_hex(5, None), None);
    assert_eq!(hash_hex(0xff), "000000000000000000000000000000ff");
    assert_ne!(hash_hex(1), hash_hex(2));
}

#[test]
fn large_files_are_mapped() {
    assert!(matches!(read_plan(0), ReadPlan::Nothing));
    assert!(matches!(read_plan(1), ReadPlan::Buffered));
    assert!(matches!(read_plan(1048575), ReadPlan::Buffered));
    assert!(matches!(read_plan(1048576), ReadPlan::Mapped));
}

#[test]
fn wanted_files_are_collected() {
    let filter = Matcher::new("a", false, false).ok().unwrap();
    let mut t = HashTally::new();
    assert!(t.visit(&filter, &Visit::File("/x/a")));
    assert!(!t.visit(&filter, &Visit::File("/x/b")));
    assert!(!t.visit(&filter, &Visit::Other));
    assert_eq!(t.errors, 0);
    assert!(!t.visit(&filter, &Visit::Unreadable));
    assert_eq!(t.errors, 1);
    assert!(t.visit(&None, &Visit::File("/x/b")));
    assert!(collects(&None, &Visit::File("/x/b")));
    assert!(!collects(&None, &Visit::Other));
    assert!(!collects(&None, &Visit::Unreadable));
}

#[test]
fn hashed_files_are_counted() {
    let f = hashed_file("/a", Some((3, 4)), 5).unwrap();
    assert_eq!((f.path.as_str(), f.hash, f.size, f.mtime), ("/a", 3, 4, 5));
    assert!(hashed_file("/a", None, 5).is_none());
    assert_eq!(bytes_hashed(&vec![file("/a", 1, 10, 0), None, file("/b", 1, 5, 0)]), 15);
    assert_eq!(bytes_hashed(&vec![file("/a", 1, u64::MAX, 0), file("/b", 1, 5, 0)]), 4);
}

#[test]
fn hashing_is_reported() {
    let filter = Matcher::new("a", true, false).ok().unwrap();
    assert_eq!(collecting_message(&None), "collecting file list...");
    assert_eq!(collecting_message(&filter), "collecting files matching regex:a...");
    assert_eq!(collected_message(1937), "1.9K  files found, hashing...");
    assert_eq!(hash_progress(false, true, 49999, 100000, 5, 1, 0), None);
    assert_eq!(hash_progress(true, true, 50000, 100000, 5, 1, 0), None);
    assert_eq!(hash_progress(false, false, 50000, 100000, 5, 1, 0), None);
    assert_eq!(
        hash_progress(false, true, 50000, 100000, 3_000_000, 2, 0),
        Some("50.0K/100.0K  hashed  1.5 MB/s  2.0s".to_string())
    );
    let c = hash_complete(3, "/s", 4, 5);
    assert_eq!(
        (c.event, c.hashed, c.snapshot.as_str(), c.elapsed_ms, c.bytes_hashed),
        ("complete", 3, "/s", 4, 5)
    );
    let mut t = HashTally::new();
    let path = "/home/shearer/.ff/etc_20260305_035039.tsv";
    assert_eq!(
        hash_report(false, 1937, 10_700_000, 0, 6_000_000, path, &t),
        vec![
            "\n  1.9K  files hashed  10.7 MB  processed  1.8 GB/s  6ms".to_string(),
            format!("  snapshot: {path}"),
        ]
    );
    t.visit(&None, &Visit::Unreadable);
    assert_eq!(
        hash_report(false, 0, 0, 0, 0, "/s", &t),
        vec![
            "\n  0  files hashed  0 B  processed  0 B/s  0ms".to_string(),
            "  snapshot: /s".to_string(),
            "  ! some paths were inaccessible (run with sudo for full coverage)".to_string(),
        ]
    );
}
