use ff::bytes::{push_number, read_number, to_signed, ByteOrder};
use ff::fanotify::{
    descriptor_path, event_mask, fid_path, fid_records, file_handle, init_flags, join, mark_flags,
    mask_to_kind, read_event, read_events, HandleRecord, Source, FAN_CLOSE_WRITE, FAN_CREATE,
    FAN_DELETE, FAN_MODIFY, FAN_MOVED_FROM, FAN_MOVED_TO,
};
use ff::matcher::Matcher;
use ff::watch::{
    init_failure, mark_failure, report_line, watch_change, watch_intro, watch_started, Debouncer,
};

const ORDERS: [ByteOrder; 2] = [ByteOrder::Little, ByteOrder::Big];

fn b2(order: ByteOrder, n: u16) -> Vec<u8> {
    match order {
        ByteOrder::Little => n.to_le_bytes().to_vec(),
        ByteOrder::Big => n.to_be_bytes().to_vec(),
    }
}

fn b4(order: ByteOrder, n: u32) -> Vec<u8> {
    match order {
        ByteOrder::Little => n.to_le_bytes().to_vec(),
        ByteOrder::Big => n.to_be_bytes().to_vec(),
    }
}

fn b8(order: ByteOrder, n: u64) -> Vec<u8> {
    match order {
        ByteOrder::Little => n.to_le_bytes().to_vec(),
        ByteOrder::Big => n.to_be_bytes().to_vec(),
    }
}

/// An event with the given version, mask and descriptor in front of its records.
fn event(order: ByteOrder, vers: u8, mask: u64, fd: i32, records: &[u8]) -> Vec<u8> {
    let mut b = b4(order, 24 + records.len() as u32);
    b.push(vers);
    b.push(0);
    b.extend(b2(order, 24));
    b.extend(b8(order, mask));
    b.extend(b4(order, fd as u32));
    b.extend(b4(order, 77));
    b.extend_from_slice(records);
    b
}

/// A record with a handle, and what stands behind the handle.
fn record(order: ByteOrder, kind: u8, handle_type: i32, handle: &[u8], rest: &[u8]) -> Vec<u8> {
    let mut b = vec![kind, 0];
    b.extend(b2(order, (20 + handle.len() + rest.len()) as u16));
    b.extend_from_slice(&[9; 8]);
    b.extend(b4(order, handle.len() as u32));
    b.extend(b4(order, handle_type as u32));
    b.extend_from_slice(handle);
    b.extend_from_slice(rest);
    b
}

fn shapes(records: &[HandleRecord]) -> Vec<(bool, i32, Vec<u8>, Option<Vec<u8>>)> {
    records
        .iter()
        .map(|r| (r.directory, r.handle_type, r.handle.clone(), r.name.clone()))
        .collect()
}

#[test]
fn numbers_are_read_in_either_order() {
    let b = [1u8, 2, 3, 4, 5, 6, 7, 8, 255];
    assert_eq!(read_number(&b, 0, 2, ByteOrder::Little), 0x0201);
    assert_eq!(read_number(&b, 0, 2, ByteOrder::Big), 0x0102);
    assert_eq!(read_number(&b, 1, 4, ByteOrder::Little), 0x05040302);
    assert_eq!(read_number(&b, 1, 4, ByteOrder::Big), 0x02030405);
    assert_eq!(read_number(&b, 1, 8, ByteOrder::Little), 0xff08070605040302);
    assert_eq!(read_number(&b, 1, 8, ByteOrder::Big), 0x02030405060708ff);
    assert_eq!(read_number(&b, 9, 0, ByteOrder::Big), 0);
    assert_eq!(to_signed(0xffff_ffff), -1);
    assert_eq!(to_signed(0x7fff_ffff), i32::MAX);
    assert_eq!(to_signed(0x8000_0000), i32::MIN);
    for order in ORDERS {
        let mut out = vec![7];
        push_number(&mut out, 0x01020304, order);
        assert_eq!(out[1..], b4(order, 0x01020304));
        assert_eq!(read_number(&out, 1, 4, order), 0x01020304);
    }
}

#[test]
fn flags_are_those_of_the_kernel() {
    assert_eq!(init_flags(true), 0xe30);
    assert_eq!(init_flags(false), 0x30);
    assert_eq!(event_mask(true), 0x3c2);
    assert_eq!(event_mask(false), 0xa);
    assert_eq!(mark_flags(true), 0x101);
    assert_eq!(mark_flags(false), 0x1);
}

#[test]
fn masks_have_kinds() {
    assert_eq!(mask_to_kind(FAN_CREATE), "created");
    assert_eq!(mask_to_kind(FAN_DELETE), "deleted");
    assert_eq!(mask_to_kind(FAN_MOVED_FROM), "moved_from");
    assert_eq!(mask_to_kind(FAN_MOVED_TO), "moved_to");
    assert_eq!(mask_to_kind(FAN_MODIFY), "modified");
    assert_eq!(mask_to_kind(FAN_CLOSE_WRITE), "modified");
    assert_eq!(mask_to_kind(0), "unknown");
    assert_eq!(mask_to_kind(0x1), "unknown");
    assert_eq!(mask_to_kind(FAN_MODIFY | FAN_DELETE | FAN_CREATE), "created");
    assert_eq!(mask_to_kind(FAN_MODIFY | FAN_DELETE), "deleted");
    assert_eq!(mask_to_kind(FAN_MOVED_TO | FAN_MOVED_FROM), "moved_from");
    assert_ne!(mask_to_kind(0x4000_0002), "unknown");
}

#[test]
fn events_are_read_one_after_another() {
    for order in ORDERS {
        let mut b = event(order, 3, 0x100, -1, &[1, 2, 3]);
        b.extend(event(order, 3, 0x8, 5, &[]));
        b.extend(event(order, 3, 0x2, -2, &[]));
        b.extend(event(order, 3, u64::MAX, i32::MAX, &[]));
        let events = read_events(&b, true, order);
        let got: Vec<_> = events.iter().map(|e| (e.offset, e.len, e.mask, e.source)).collect();
        assert!(got == vec![
            (0, 27, 0x100, Source::Handles),
            (27, 24, 0x8, Source::Descriptor(5)),
            (51, 24, 0x2, Source::Nowhere),
            (75, 24, u64::MAX, Source::Descriptor(i32::MAX)),
        ]);
        let classic = read_events(&b, false, order);
        assert!(classic[0].source == Source::Nowhere);
        assert_eq!(classic.len(), 4);
    }
}

#[test]
fn events_that_cannot_be_read_end_the_list() {
    let order = ByteOrder::Little;
    let good = event(order, 3, 0x100, -1, &[]);
    assert_eq!(read_events(&[], true, order).len(), 0);
    assert_eq!(read_events(&good[..23], true, order).len(), 0);
    let mut b = good.clone();
    b.extend(event(order, 2, 0x100, -1, &[]));
    b.extend(good.clone());
    assert_eq!(read_events(&b, true, order).len(), 1);
    let mut short = good.clone();
    short[0] = 23;
    assert!(read_event(&short, 0, true, order).is_none());
    let mut long = good.clone();
    long[0] = 25;
    assert!(read_event(&long, 0, true, order).is_none());
    assert!(read_event(&good, 24, true, order).is_none());
    assert!(read_event(&good, 0, true, order).is_some());
}

#[test]
fn records_are_read() {
    for order in ORDERS {
        let mut records = record(order, 2, 129, &[1, 2, 3], b"main.rs\0\0");
        records.extend(record(order, 9, 1, &[4], b""));
        records.extend(record(order, 3, -7, &[5, 6], b"ignored\0"));
        records.extend(record(order, 1, 2, &[], b""));
        records.extend_from_slice(&[0, 0]);
        let mut b = vec![0xee; 5];
        let e = event(order, 3, 0x100, -1, &records);
        let len = e.len();
        b.extend(e);
        b.extend_from_slice(&[0xee; 40]);
        assert_eq!(
            shapes(&fid_records(&b, 5, len, order)),
            vec![
                (true, 129, vec![1, 2, 3], Some(b"main.rs".to_vec())),
                (true, -7, vec![5, 6], None),
                (false, 2, vec![], None),
            ]
        );
    }
}

#[test]
fn names_end_at_a_zero_or_with_the_record() {
    let order = ByteOrder::Little;
    for (rest, name) in [
        (&b"abc"[..], Some(b"abc".to_vec())),
        (&b"a\0bc"[..], Some(b"a".to_vec())),
        (&b"\0abc"[..], None),
        (&b""[..], None),
    ] {
        let e = event(order, 3, 0, -1, &record(order, 2, 1, &[8], rest));
        assert_eq!(
            shapes(&fid_records(&e, 0, e.len(), order)),
            vec![(true, 1, vec![8], name)]
        );
    }
}

#[test]
fn records_that_do_not_fit_end_the_list() {
    let order = ByteOrder::Little;
    let good = record(order, 3, 1, &[8, 8], b"");
    let count = |records: &[u8]| {
        let e = event(order, 3, 0, -1, records);
        fid_records(&e, 0, e.len(), order).len()
    };
    let after = |bad: &[u8]| {
        let mut b = good.clone();
        b.extend_from_slice(bad);
        count(&b)
    };
    assert_eq!(after(&good), 2);
    let mut short = good.clone();
    short[2] = 3;
    assert_eq!(after(&short), 1);
    let mut long = good.clone();
    long[2] = 23;
    assert_eq!(after(&long), 1);
    let mut handle = good.clone();
    handle[12] = 3;
    assert_eq!(after(&handle), 1);
    handle[12..16].copy_from_slice(&[255; 4]);
    assert_eq!(after(&handle), 1);
    assert_eq!(after(&[3, 0, 19, 0, 0, 0, 0, 0, 0, 0, 0, 0, 0, 0, 0, 0, 0, 0, 0]), 1);
    assert_eq!(after(&[1, 0, 4, 0]), 1);
    assert_eq!(after(&[9, 0, 4, 0]), 1);
    assert_eq!(count(&[]), 0);
    let e = event(order, 3, 0, -1, &good);
    assert_eq!(fid_records(&e, 0, 23, order).len(), 0);
}

#[test]
fn handles_may_reach_beyond_their_record() {
    let order = ByteOrder::Little;
    let mut b = record(order, 2, 1, &[1, 2, 3, 4], b"");
    b[2] = 20;
    let e = event(order, 3, 0, -1, &b);
    assert_eq!(
        shapes(&fid_records(&e, 0, e.len(), order)),
        vec![(true, 1, vec![1, 2, 3, 4], None)]
    );
}

fn said(directory: bool, name: Option<&[u8]>) -> HandleRecord {
    HandleRecord { directory, handle_type: 1, handle: vec![1], name: name.map(|n| n.to_vec()) }
}

fn path(parts: Vec<(bool, Option<&[u8]>, Option<&str>)>) -> Option<String> {
    let mut records = Vec::new();
    let mut resolved = Vec::new();
    for (directory, name, to) in parts {
        records.push(said(directory, name));
        resolved.push(to.map(str::to_string));
    }
    fid_path(records, resolved)
}

#[test]
fn paths_are_put_together() {
    let s = |s: &str| Some(s.to_string());
    assert_eq!(path(vec![]), None);
    assert_eq!(path(vec![(true, Some(b"f"), Some("/d"))]), s("/d/f"));
    assert_eq!(path(vec![(true, Some(b"f"), Some("/"))]), s("/f"));
    assert_eq!(path(vec![(true, Some(b"f"), Some(""))]), s("/f"));
    assert_eq!(path(vec![(true, None, Some("/d"))]), s("/d"));
    assert_eq!(path(vec![(true, Some(b"f"), None)]), s("f"));
    assert_eq!(path(vec![(true, None, None)]), None);
    assert_eq!(path(vec![(false, None, Some("/d/f"))]), s("/d/f"));
}

#[test]
fn directories_come_before_files() {
    let s = |s: &str| Some(s.to_string());
    assert_eq!(path(vec![(true, Some(b"f"), Some("/d")), (false, None, Some("/x"))]), s("/d/f"));
    assert_eq!(path(vec![(false, None, Some("/x")), (true, Some(b"f"), Some("/d"))]), s("/d/f"));
    assert_eq!(path(vec![(false, None, Some("/x")), (true, Some(b"f"), None)]), s("/x/f"));
    assert_eq!(path(vec![(false, None, Some("/x")), (false, None, Some("/y"))]), s("/x"));
    assert_eq!(path(vec![(true, None, Some("/x")), (true, None, Some("/y"))]), s("/y"));
}

#[test]
fn names_that_are_no_text_are_dropped() {
    let s = |s: &str| Some(s.to_string());
    assert_eq!(path(vec![(true, Some(&[0xff]), Some("/d"))]), s("/d"));
    assert_eq!(
        path(vec![(true, Some(b"f"), Some("/d")), (true, Some(&[0xc3, 0x28]), None)]),
        s("/d")
    );
    assert_eq!(path(vec![(true, Some("é€".as_bytes()), Some("/d"))]), s("/d/é€"));
}

#[test]
fn whole_event_leads_to_its_path() {
    for order in ORDERS {
        let e = event(order, 3, FAN_MODIFY, -1, &record(order, 2, 1, &[1, 2], b"main.rs\0"));
        let events = read_events(&e, true, order);
        let records = fid_records(&e, events[0].offset, events[0].len, order);
        assert_eq!(
            fid_path(records, vec![Some("/home/src".to_string())]),
            Some("/home/src/main.rs".to_string())
        );
    }
}

#[test]
fn handles_are_built_for_the_kernel() {
    for order in ORDERS {
        let mut expected = b4(order, 3);
        expected.extend(b4(order, -2i32 as u32));
        expected.extend_from_slice(&[7, 8, 9]);
        assert_eq!(file_handle(-2, &vec![7, 8, 9], order), expected);
        let h = file_handle(i32::MAX, &vec![], order);
        assert_eq!(h.len(), 8);
        assert_eq!(to_signed(read_number(&h, 4, 4, order)), i32::MAX);
    }
    assert_eq!(descriptor_path(12), "/proc/self/fd/12");
    assert_eq!(descriptor_path(-1), "/proc/self/fd/-1");
    assert_eq!(join("/a", "b"), "/a/b");
}

fn flushed(d: &mut Debouncer, now: u128) -> Vec<(String, &'static str)> {
    d.flush(now).into_iter().map(|r| (r.path, r.kind)).collect()
}

#[test]
fn quiet_paths_are_reported_once() {
    let ms = 1_000_000u128;
    let mut d = Debouncer::new(100);
    d.record("/a".to_string(), "created", 10 * ms);
    d.record("/b".to_string(), "created", 20 * ms);
    d.record("/a".to_string(), "modified", 30 * ms);
    assert_eq!(flushed(&mut d, 119 * ms), vec![]);
    assert_eq!(flushed(&mut d, 120 * ms), vec![("/b".to_string(), "created")]);
    assert_eq!(flushed(&mut d, 130 * ms - 1), vec![]);
    assert_eq!(flushed(&mut d, 130 * ms), vec![("/a".to_string(), "modified")]);
    assert_eq!(flushed(&mut d, 999 * ms), vec![]);
}

#[test]
fn window_may_be_empty_or_endless() {
    let mut d = Debouncer::new(0);
    d.record("/a".to_string(), "created", 10);
    assert_eq!(flushed(&mut d, 5), vec![("/a".to_string(), "created")]);
    let mut d = Debouncer::new(u64::MAX);
    d.record("/a".to_string(), "created", 0);
    assert_eq!(flushed(&mut d, u64::MAX as u128), vec![]);
    assert_eq!(flushed(&mut d, u64::MAX as u128 * 1_000_000), vec![("/a".to_string(), "created")]);
}

#[test]
fn what_waits_is_drained() {
    let mut d = Debouncer::new(100);
    d.record("/a".to_string(), "created", 0);
    d.record("/b".to_string(), "deleted", 0);
    let all: Vec<_> = d.drain().into_iter().map(|r| (r.path, r.kind)).collect();
    assert_eq!(all, vec![("/a".to_string(), "created"), ("/b".to_string(), "deleted")]);
    assert!(d.drain().is_empty());
}

#[test]
fn events_pass_the_filter() {
    let filter = Matcher::new(r"\.rs$", true, false).ok().unwrap();
    let mut d = Debouncer::new(0);
    d.observe(&filter, "/a.rs".to_string(), FAN_MODIFY, 0);
    d.observe(&filter, "/a.py".to_string(), FAN_MODIFY, 0);
    d.observe(&None, "/b.py".to_string(), FAN_MOVED_TO, 0);
    assert_eq!(
        flushed(&mut d, 0),
        vec![("/a.rs".to_string(), "modified"), ("/b.py".to_string(), "moved_to")]
    );
}

#[test]
fn changes_are_shown_in_columns() {
    let line = |kind| report_line(false, "14:32:01", kind, "/x");
    assert_eq!(line("modified"), "  14:32:01  modified    /x");
    assert_eq!(line("created"), "  14:32:01  created     /x");
    assert_eq!(line("moved_from"), "  14:32:01  moved_from  /x");
    assert_eq!(line("unknown"), "  14:32:01  unknown     /x");
}

#[test]
fn changes_are_color_coded() {
    crossterm::style::force_color_output(true);
    let time = "\u{1b}[38;5;8m14:32:01\u{1b}[39m";
    for (kind, code) in [
        ("created", "10"), ("moved_to", "10"), ("modified", "11"), ("deleted", "9"),
        ("moved_from", "9"),
    ] {
        assert_eq!(
            report_line(true, "14:32:01", kind, "/x"),
            format!("  {time}  \u{1b}[38;5;{code}m{kind:<10}\u{1b}[39m  /x")
        );
    }
    assert_eq!(
        report_line(true, "14:32:01", "unknown", "/x"),
        format!("  {time}  unknown     /x")
    );
}

#[test]
fn watches_are_announced() {
    assert_eq!(watch_intro("/", &None), "  watching /  Ctrl+C to quit\n");
    let filter = Matcher::new("a", false, false).ok().unwrap();
    assert_eq!(
        watch_intro("/etc", &filter),
        "  watching /etc    filter: a\n  Ctrl+C to quit\n"
    );
    let e = watch_started("/", 1709654400);
    assert_eq!((e.event, e.path.as_str(), e.timestamp), ("started", "/", 1709654400));
    let e = watch_change("modified", "/x", 5);
    assert_eq!(
        (e.event, e.kind.as_str(), e.path.as_str(), e.timestamp),
        ("change", "modified", "/x", 5)
    );
}

#[test]
fn failures_are_explained() {
    assert_eq!(
        init_failure(1),
        vec![
            "  failed to initialize fanotify (errno: 1)",
            "  fanotify requires root/CAP_SYS_ADMIN — run with sudo",
        ]
    );
    assert_eq!(
        mark_failure(-2),
        vec![
            "  failed to mark path for monitoring (errno: -2)",
            "  ensure the path exists and you have sufficient permissions",
        ]
    );
}
