use ff::binary64::Double;
use ff::lines::{split_fields, split_lines};
use ff::number::{
    decimal_text, left_align, parse_u64, push_fixed_point, push_hex, push_integer,
    push_zero_padded, push_zero_padded_int,
};
use ff::order::text_at_most;
use ff::path::file_name;
use ff::pathmap::PathMap;
use ff::text::{
    chars, ends_with, is_white_space, replace, same_text, starts_with, substring, text_of, trim,
    trim_char,
};
use std::path::Path;

/// All texts of up to `max` characters over an alphabet.
fn texts_over(alphabet: &[char], max: usize) -> Vec<String> {
    let mut all = vec![String::new()];
    let mut last = all.clone();
    for _ in 0..max {
        let mut next = Vec::new();
        for s in &last {
            for c in alphabet {
                let mut t = s.clone();
                t.push(*c);
                next.push(t);
            }
        }
        all.extend(next.iter().cloned());
        last = next;
    }
    all
}

#[test]
fn file_names_are_those_of_std() {
    for s in texts_over(&['/', '.', 'a', 'é'], 7) {
        let expected = Path::new(&s).file_name().map(|n| n.to_string_lossy().to_string());
        assert_eq!(file_name(&s), expected, "{s:?}");
    }
    assert_eq!(file_name("/home/user/Cargo.toml"), Some("Cargo.toml".to_string()));
    assert_eq!(file_name("/home/user/.."), None);
    assert_eq!(file_name("/home/user/./"), Some("user".to_string()));
}

#[test]
fn lines_are_those_of_std() {
    for s in texts_over(&['\n', '\r', 'a', '\t'], 6) {
        let expected: Vec<String> = s.lines().map(str::to_string).collect();
        assert_eq!(split_lines(&s), expected, "{s:?}");
    }
}

#[test]
fn fields_are_those_of_std() {
    for s in texts_over(&[' ', 'a', 'b'], 6) {
        for n in 1..5 {
            let expected: Vec<String> = s.splitn(n, ' ').map(str::to_string).collect();
            assert_eq!(split_fields(&s, ' ', n), expected, "{s:?} {n}");
        }
    }
}

#[test]
fn white_space_is_that_of_std() {
    for n in 0..=0x10ffff {
        if let Some(c) = char::from_u32(n) {
            assert_eq!(is_white_space(c), c.is_whitespace(), "{n:x}");
        }
    }
}

#[test]
fn trimming_is_that_of_std() {
    for s in texts_over(&[' ', '/', 'a', '\u{3000}'], 6) {
        assert_eq!(trim(&s), s.trim());
        assert_eq!(trim_char(&s, '/'), s.trim_matches('/'));
        assert_eq!(replace(&s, '/', '_'), s.replace('/', "_"));
    }
}

#[test]
fn ends_are_compared_as_in_std() {
    let all = texts_over(&['a', 'b', 'ü'], 4);
    for s in &all {
        for t in &all {
            assert_eq!(starts_with(s, t), s.starts_with(t.as_str()));
            assert_eq!(ends_with(s, t), s.ends_with(t.as_str()));
            assert_eq!(same_text(s, t), s == t);
            assert_eq!(text_at_most(s, t), s <= t);
        }
    }
}

#[test]
fn order_goes_by_characters() {
    assert!(text_at_most("", ""));
    assert!(text_at_most("etc", "etc_"));
    assert!(!text_at_most("\u{10000}", "\u{ffff}"));
    assert!(text_at_most("z", "é"));
}

#[test]
fn characters_are_taken_apart_and_put_together() {
    let v = chars("aéz€");
    assert_eq!(v, vec!['a', 'é', 'z', '€']);
    assert_eq!(substring(&v, 1, 3), "éz");
    assert_eq!(substring(&v, 2, 2), "");
    assert_eq!(text_of(&v), "aéz€");
}

#[test]
fn numbers_are_parsed_as_in_std() {
    for s in [
        "", "+", "-", "+0", "-0", "0", "007", "+7", "18446744073709551615",
        "18446744073709551616", "99999999999999999999999", "1 ", " 1", "1a", "++1", "+-1", "٣",
        "0018446744073709551615", "000000000000000000000000000001",
    ] {
        assert_eq!(parse_u64(s), s.parse::<u64>().ok(), "{s:?}");
    }
    for s in texts_over(&['+', '-', '0', '9', 'x'], 5) {
        assert_eq!(parse_u64(&s), s.parse::<u64>().ok(), "{s:?}");
    }
}

#[test]
fn numbers_are_written_as_in_std() {
    for n in [0u64, 7, 10, 99, 100, 12345, u64::MAX] {
        assert_eq!(decimal_text(n), n.to_string());
        assert_eq!(parse_u64(&decimal_text(n)), Some(n));
        let mut s = String::new();
        push_zero_padded(&mut s, n, 6);
        assert_eq!(s, format!("{n:06}"));
    }
    for n in [0u128, 1, 15, 16, 255, 0xdeadbeef, u128::MAX] {
        let mut s = String::new();
        push_hex(&mut s, n, 32);
        assert_eq!(s, format!("{n:032x}"));
    }
    for n in [0i32, 5, -5, 42, -42, 2026, -2026, i32::MAX, i32::MIN] {
        let mut s = String::new();
        push_zero_padded_int(&mut s, n, 4);
        assert_eq!(s, format!("{n:04}"));
        let mut s = String::from("x");
        push_integer(&mut s, n);
        assert_eq!(s, format!("x{n}"));
    }
    let mut s = String::new();
    push_fixed_point(&mut s, 1205, 100, 2);
    assert_eq!(s, "12.05");
}

#[test]
fn columns_are_padded() {
    for s in ["", "created", "moved_from", "much longer than that", "ä"] {
        assert_eq!(left_align(s, 10), format!("{s:<10}"));
    }
}

#[test]
fn doubles_are_compared_and_added() {
    let a = Double::from_u64(3).over(Double::from_u64(4));
    let b = a.plus(Double::from_u64(1));
    assert!(a.less_than(b));
    assert!(!b.less_than(a));
    assert_eq!(b.truncate(), 1);
    assert_eq!(b.times(Double::from_u64(100)).truncate(), 175);
}

#[test]
fn path_maps_keep_the_order_of_their_entries() {
    let mut m: PathMap<u64> = PathMap::new();
    assert_eq!(m.len(), 0);
    m.insert("/b".to_string(), 1);
    m.insert("/a".to_string(), 2);
    m.insert("/b".to_string(), 3);
    assert_eq!(m.len(), 2);
    assert_eq!(m.get("/b"), Some(&3));
    assert_eq!(m.get("/c"), None);
    assert!(m.contains("/a"));
    assert!(!m.contains("/"));
    assert_eq!(m.path_at(0), "/b");
    assert_eq!(*m.value_at(0), 3);
    assert_eq!(m.path_at(1), "/a");
}
