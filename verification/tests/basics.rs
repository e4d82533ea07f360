use bukagu::path::{sort_paths, Order, PathBuf};
use bukagu::sorting::sort_positions;
use bukagu::text::{
    decimal_of, ends_with, padded_left, padded_right, skip_chars, starts_with, to_ascii_lower, trim, trim_char, trim_to, zero_padded_of,
};
use bukagu::ui::widgets::human_bytes;

fn p(s: &str) -> PathBuf {
    PathBuf::of(s)
}

#[test]
fn human_bytes_scales() {
    assert_eq!(human_bytes(512), "512 B");
    assert_eq!(human_bytes(1024), "1.0 KiB");
    assert_eq!(human_bytes(1536), "1.5 KiB");
    assert_eq!(human_bytes(1024 * 1024), "1.0 MiB");
}

/// The size in words as floating-point arithmetic gives it.
fn by_floats(n: u64) -> String {
    const UNITS: [&str; 5] = ["B", "KiB", "MiB", "GiB", "TiB"];
    if n < 1024 {
        return format!("{n} B");
    }
    let mut value = n as f64;
    let mut unit = 0;
    while value >= 1024.0 && unit < UNITS.len() - 1 {
        value /= 1024.0;
        unit += 1;
    }
    format!("{value:.1} {}", UNITS[unit])
}

#[test]
fn human_bytes_agrees_with_floating_point() {
    let mut cases = vec![0, 1, 1023, 1024, 1280, 1792, u64::MAX, u64::MAX - 1];
    for shift in 0..64 {
        let n = 1u64 << shift;
        for d in [0u64, 1, 51, 512] {
            cases.push(n.wrapping_add(d));
            cases.push(n.wrapping_sub(d));
            cases.push(n.wrapping_add(n >> 2).wrapping_add(d));
            cases.push(n.wrapping_add(n >> 1).wrapping_add(n >> 2));
            cases.push((n | (n >> 20)).wrapping_add(n >> 4).wrapping_add(d));
        }
    }
    let mut x: u64 = 0x9E37_79B9_7F4A_7C15;
    for _ in 0..20_000 {
        x ^= x << 13;
        x ^= x >> 7;
        x ^= x << 17;
        cases.push(x);
        cases.push(x >> (x % 60));
    }
    for n in cases {
        assert_eq!(human_bytes(n), by_floats(n), "{n}");
    }
}

/// Paths as the standard library reads them.
fn std_path(s: &str) -> std::path::PathBuf {
    std::path::PathBuf::from(s)
}

const SAMPLES: [&str; 24] = [
    "", "/", "//", ".", "..", "./", "a", "a/", "/a", "/a/", "a/b", "a//b", "a/./b", "./a", "/./a",
    "a/..", "/a/../b", "a.txt", ".hidden", "a.tar.gz", "/x/.b.c", "name.", "a/.", "../a",
];

#[test]
fn paths_read_like_the_standard_ones() {
    for s in SAMPLES {
        let (mine, std) = (p(s), std_path(s));
        assert_eq!(mine.components().len(), std.components().count(), "{s:?}");
        assert_eq!(mine.is_absolute(), std.is_absolute(), "{s:?}");
        assert_eq!(
            mine.parent().map(|q| q.display()),
            std.parent().map(|q| q.display().to_string()),
            "parent of {s:?}"
        );
        assert_eq!(
            mine.file_name_text(),
            std.file_name().map(|n| n.to_str().unwrap().to_string()),
            "name of {s:?}"
        );
        assert_eq!(
            mine.extension_text(),
            std.extension().map_or("", |e| e.to_str().unwrap()),
            "extension of {s:?}"
        );
        for t in SAMPLES {
            let (yours, other) = (p(t), std_path(t));
            assert_eq!(mine == yours, std == other, "{s:?} == {t:?}");
            assert_eq!(mine.starts_with(&yours), std.starts_with(&other), "{s:?} in {t:?}");
            assert_eq!(
                mine.join(&yours).display(),
                std.join(&other).display().to_string(),
                "{s:?} + {t:?}"
            );
            assert_eq!(
                mine.strip_prefix(&yours).map(|q| q.display()),
                std.strip_prefix(&other).ok().map(|q| q.display().to_string()),
                "{s:?} below {t:?}"
            );
            let order = match std.cmp(&other) {
                std::cmp::Ordering::Less => Order::Less,
                std::cmp::Ordering::Equal => Order::Equal,
                std::cmp::Ordering::Greater => Order::Greater,
            };
            assert_eq!(mine.order(&yours), order, "{s:?} against {t:?}");
        }
    }
}

#[test]
fn paths_sort_component_by_component() {
    let sorted = sort_paths(&vec![p("b.txt"), p("b/x"), p("a"), p("/z"), p("b")]);
    assert_eq!(sorted, vec![p("/z"), p("a"), p("b"), p("b/x"), p("b.txt")]);
    assert_eq!(sort_positions(&vec![p("b"), p("a"), p("b/"), p("a/.")]), vec![1, 3, 0, 2]);
}

#[test]
fn undecodable_names_are_shown_with_replacements() {
    let odd = PathBuf::from_bytes(vec![b'/', b'a', 0xff, b'.', b'p', b'y']);
    assert_eq!(odd.display(), "/a\u{fffd}.py");
    assert_eq!(odd.file_name_text(), None);
    assert_eq!(odd.extension_text(), "py");
}

#[test]
fn text_helpers_follow_the_standard_ones() {
    for s in ["", "  ", " a b ", "\t\u{a0}x\u{2003}", "/x//", "..a..", "ÄbC"] {
        assert_eq!(trim(s), s.trim());
        assert_eq!(
            trim_to(s, '/'),
            s.trim_start().trim_end_matches(|c: char| c == '/' || c.is_whitespace())
        );
        assert_eq!(trim_char(s, '.'), s.trim_matches('.'));
        assert_eq!(to_ascii_lower(s), s.to_ascii_lowercase());
        assert_eq!(padded_right(s, 5), format!("{s:<5}"));
        assert_eq!(padded_left(s, 5), format!("{s:>5}"));
        assert_eq!(starts_with(s, "/"), s.starts_with('/'));
        assert_eq!(ends_with(s, "//"), s.ends_with("//"));
    }
    for n in [0u64, 7, 10, 99, 1234, u64::MAX] {
        assert_eq!(decimal_of(n), n.to_string());
        assert_eq!(zero_padded_of(n, 3), format!("{n:03}"));
    }
    assert_eq!(skip_chars("@päth", 1), "päth");
}

#[test]
fn every_white_space_character_is_trimmed() {
    for u in 0..=0x3100u32 {
        if let Some(c) = char::from_u32(u) {
            let s = format!("{c}x{c}");
            assert_eq!(trim(&s), s.trim(), "{u:#x}");
        }
    }
}

#[test]
fn what_is_stripped_joins_back() {
    for (path, base, rel) in [
        ("/a/b/c", "/a", "b/c"),
        ("/a//b/./c/", "/a/", "b/./c"),
        ("/a", "/", "a"),
        ("./x/y", ".", "x/y"),
        ("m/n", "m/n/", ""),
    ] {
        let left = p(path).strip_prefix(&p(base)).unwrap();
        assert_eq!(left.display(), rel);
        assert!(!left.is_absolute());
        assert!(p(base).join(&left).same(&p(path)));
    }
}
