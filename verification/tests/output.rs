use ff::output::{
    clear_status, color_created, color_deleted, color_modified, dim, fmt_bytes, fmt_count,
    fmt_elapsed, print_result, print_summary, print_warning, status_line, throughput, warning_line,
};
use std::time::Duration;

fn float_count(n: u64) -> String {
    if n >= 1_000_000 {
        format!("{:.2}M", n as f64 / 1_000_000.0)
    } else if n >= 1_000 {
        format!("{:.1}K", n as f64 / 1_000.0)
    } else {
        n.to_string()
    }
}

fn float_bytes(bytes: u64) -> String {
    if bytes >= 1_000_000_000 {
        format!("{:.1} GB", bytes as f64 / 1_000_000_000.0)
    } else if bytes >= 1_000_000 {
        format!("{:.1} MB", bytes as f64 / 1_000_000.0)
    } else if bytes >= 1_000 {
        format!("{:.1} KB", bytes as f64 / 1_000.0)
    } else {
        format!("{} B", bytes)
    }
}

fn float_elapsed(secs: u64, nanos: u32) -> String {
    let secs = Duration::new(secs, nanos).as_secs_f64();
    if secs < 0.1 {
        format!("{:.0}ms", secs * 1000.0)
    } else {
        format!("{:.1}s", secs)
    }
}

fn float_rate(bytes: u64, secs: u64, nanos: u32) -> u64 {
    let elapsed = Duration::new(secs, nanos).as_secs_f64();
    let throughput = if elapsed > 0.0 {
        bytes as f64 / elapsed
    } else {
        0.0
    };
    throughput as u64
}

/// Numbers spread over the whole range, without pattern.
fn spread(count: usize) -> Vec<u64> {
    let mut x: u64 = 0x9e37_79b9_7f4a_7c15;
    let mut v = Vec::new();
    for i in 0..count {
        x ^= x << 13;
        x ^= x >> 7;
        x ^= x << 17;
        v.push(x >> (i % 64));
    }
    v
}

#[test]
fn counts_have_suffixes() {
    assert_eq!(fmt_count(0), "0");
    assert_eq!(fmt_count(999), "999");
    assert_eq!(fmt_count(1_000), "1.0K");
    assert_eq!(fmt_count(1_937), "1.9K");
    assert_eq!(fmt_count(916_793), "916.8K");
    assert_eq!(fmt_count(999_999), "1000.0K");
    assert_eq!(fmt_count(1_000_000), "1.00M");
    assert_eq!(fmt_count(18_446_744_073_709_551_615), "18446744073709.55M");
}

#[test]
fn counts_round_as_doubles_do() {
    assert_eq!(fmt_count(1_050), "1.1K");
    assert_eq!(fmt_count(1_150), "1.1K");
    assert_eq!(fmt_count(1_250), "1.2K");
    assert_eq!(fmt_count(1_350), "1.4K");
    assert_eq!(fmt_count(1_750), "1.8K");
    for n in (0..1_100_000u64).step_by(7) {
        assert_eq!(fmt_count(n), float_count(n));
    }
    for n in (1_050..1_000_000u64).step_by(100) {
        assert_eq!(fmt_count(n), float_count(n));
    }
    for n in (1_005_000..900_000_000u64).step_by(9_990_000) {
        assert_eq!(fmt_count(n), float_count(n));
    }
    for n in spread(20_000) {
        assert_eq!(fmt_count(n), float_count(n));
    }
}

#[test]
fn bytes_have_units() {
    assert_eq!(fmt_bytes(0), "0 B");
    assert_eq!(fmt_bytes(999), "999 B");
    assert_eq!(fmt_bytes(1_000), "1.0 KB");
    assert_eq!(fmt_bytes(10_700_000), "10.7 MB");
    assert_eq!(fmt_bytes(1_800_000_000), "1.8 GB");
    assert_eq!(fmt_bytes(u64::MAX), "18446744073.7 GB");
}

#[test]
fn bytes_round_as_doubles_do() {
    for n in (1_050..1_000_000u64).step_by(100) {
        assert_eq!(fmt_bytes(n), float_bytes(n));
    }
    for n in (1_050_000..1_000_000_000u64).step_by(100_000) {
        assert_eq!(fmt_bytes(n), float_bytes(n));
    }
    for n in (1_050_000_000..900_000_000_000u64).step_by(100_000_000) {
        assert_eq!(fmt_bytes(n), float_bytes(n));
    }
    for n in spread(20_000) {
        assert_eq!(fmt_bytes(n), float_bytes(n));
    }
}

#[test]
fn short_spans_are_milliseconds() {
    assert_eq!(fmt_elapsed(0, 0), "0ms");
    assert_eq!(fmt_elapsed(0, 6_000_000), "6ms");
    assert_eq!(fmt_elapsed(0, 99_999_999), "100ms");
    assert_eq!(fmt_elapsed(0, 100_000_000), "0.1s");
    assert_eq!(fmt_elapsed(0, 300_000_000), "0.3s");
    assert_eq!(fmt_elapsed(1, 900_000_000), "1.9s");
}

#[test]
fn spans_round_as_doubles_do() {
    for n in (0..1_000_000_000u32).step_by(100_000) {
        assert_eq!(fmt_elapsed(0, n), float_elapsed(0, n));
        assert_eq!(fmt_elapsed(u64::from(n / 1_000), n), float_elapsed(u64::from(n / 1_000), n));
    }
    for (i, n) in spread(20_000).into_iter().enumerate() {
        let nanos = (i as u64 * 49_999 % 1_000_000_000) as u32;
        assert_eq!(fmt_elapsed(n, nanos), float_elapsed(n, nanos));
    }
    assert_eq!(fmt_elapsed(u64::MAX, 999_999_999), float_elapsed(u64::MAX, 999_999_999));
}

#[test]
fn rates_are_bytes_per_second() {
    assert_eq!(throughput(0, 0, 0), 0);
    assert_eq!(throughput(1_000, 0, 0), 0);
    assert_eq!(throughput(1_000, 2, 0), 500);
    assert_eq!(throughput(1_000, 0, 500_000_000), 2_000);
    assert_eq!(throughput(u64::MAX, 0, 1), u64::MAX);
    for (i, n) in spread(20_000).into_iter().enumerate() {
        let nanos = (i as u64 * 49_999 % 1_000_000_000) as u32;
        let secs = (i as u64) % 5_000;
        assert_eq!(throughput(n, secs, nanos), float_rate(n, secs, nanos));
        assert_eq!(throughput(n, 0, nanos), float_rate(n, 0, nanos));
        assert_eq!(throughput(n, 0, (i % 1_000) as u32), float_rate(n, 0, (i % 1_000) as u32));
    }
}

#[test]
fn colors_are_for_terminals() {
    assert_eq!(color_created(false, "created "), "created ");
    assert_eq!(color_modified(false, "modified"), "modified");
    assert_eq!(color_deleted(false, "deleted "), "deleted ");
    assert_eq!(dim(false, "14:32:01"), "14:32:01");
    crossterm::style::force_color_output(true);
    assert_eq!(color_created(true, "created "), "\u{1b}[38;5;10mcreated \u{1b}[39m");
    assert_eq!(color_modified(true, "modified"), "\u{1b}[38;5;11mmodified\u{1b}[39m");
    assert_eq!(color_deleted(true, "deleted "), "\u{1b}[38;5;9mdeleted \u{1b}[39m");
    assert_eq!(dim(true, "14:32:01"), "\u{1b}[38;5;8m14:32:01\u{1b}[39m");
    assert_eq!(print_warning(true, "careful"), "  \u{1b}[38;5;11m!\u{1b}[39m careful");
    crossterm::style::force_color_output(false);
    assert_eq!(color_created(true, "x"), "\u{1b}[mx\u{1b}[m");
}

#[test]
fn lines_are_framed() {
    assert_eq!(status_line(true, "1.0K  checked"), Some("\r\u{1b}[2K  1.0K  checked".to_string()));
    assert_eq!(status_line(false, "1.0K  checked"), None);
    assert_eq!(clear_status(true), Some("\r\u{1b}[2K".to_string()));
    assert_eq!(clear_status(false), None);
    assert_eq!(print_result("/etc/fstab"), "  /etc/fstab");
    assert_eq!(print_summary("no changes detected"), "\n  no changes detected");
    assert_eq!(print_warning(false, "careful"), "  ! careful");
    assert_eq!(warning_line("?", "careful"), "  ? careful");
}
