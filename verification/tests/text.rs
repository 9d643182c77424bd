use vyges_power::text::{
    decimal, eq_ignore_ascii_case, find_char, insert_ascending, is_whitespace, join, lowercase, parse_u64,
    precedes, push_left_aligned, push_right_aligned, split_char, split_whitespace, str_eq, strip_suffix, trim,
};
use vyges_power::units::{split_unit, TimeUnit};

const SAMPLES: [&str; 14] = [
    "",
    " ",
    "a",
    " a b ",
    "\u{3000}x\u{a0}y\u{2028}",
    "tab\there",
    "a,b,,c",
    ",",
    "ÄÖß",
    "İstanbul ΑΣ",
    "ABC xyz",
    "line\r\nline",
    "…é😀",
    "aa",
];

#[test]
fn white_space_is_what_std_says() {
    for u in 0..=0x10ffffu32 {
        if let Some(c) = char::from_u32(u) {
            assert_eq!(is_whitespace(c), c.is_whitespace(), "{u:x}");
        }
    }
}

#[test]
fn string_operations_agree_with_std() {
    for s in SAMPLES {
        let want: Vec<String> = s.split_whitespace().map(|w| w.to_string()).collect();
        assert_eq!(split_whitespace(s), want);
        assert_eq!(trim(s), s.trim());
        let want: Vec<String> = s.split(',').map(|w| w.to_string()).collect();
        assert_eq!(split_char(s, ','), want);
        assert_eq!(lowercase(s), s.to_lowercase());
        assert_eq!(find_char(s, 'b'), s.chars().position(|c| c == 'b'));
        for t in SAMPLES {
            assert_eq!(str_eq(s, t), s == t);
            assert_eq!(eq_ignore_ascii_case(s, t), s.eq_ignore_ascii_case(t));
            assert_eq!(strip_suffix(s, t), s.strip_suffix(t));
            assert_eq!(precedes(s, t), s < t, "{s:?} {t:?}");
        }
    }
}

#[test]
fn case_is_ignored_for_ascii_only() {
    assert!(eq_ignore_ascii_case("EnD", "eNd"));
    assert!(!eq_ignore_ascii_case("Ä", "ä"));
    assert_eq!(lowercase("ÄB"), "äb");
    assert_eq!(lowercase("NS"), "ns");
}

#[test]
fn numbers_agree_with_std() {
    for s in ["0", "7", "+7", "007", "18446744073709551615", "18446744073709551616", "", "+", "-1", "1a", "１", "99999999999999999999999"] {
        assert_eq!(parse_u64(s), s.parse::<u64>().ok(), "{s}");
    }
    for n in [0u64, 9, 10, 11, 99, 100, 12345, u64::MAX] {
        assert_eq!(decimal(n), n.to_string());
    }
}

#[test]
fn columns_agree_with_format() {
    for s in SAMPLES {
        let mut l = "<".to_string();
        push_left_aligned(&mut l, s, 6);
        assert_eq!(l, format!("<{s:<6}"));
        let mut r = "<".to_string();
        push_right_aligned(&mut r, s, 6);
        assert_eq!(r, format!("<{s:>6}"));
    }
}

#[test]
fn joining_puts_separators_between() {
    let parts = |v: &[&str]| v.iter().map(|s| s.to_string()).collect::<Vec<String>>();
    assert_eq!(join(&parts(&[]), ", "), "");
    assert_eq!(join(&parts(&["a"]), ", "), "a");
    assert_eq!(join(&parts(&["a", "", "b"]), ", "), "a, , b");
}

#[test]
fn insertion_keeps_order_and_drops_repeats() {
    let mut v = Vec::new();
    for s in ["m", "b", "z", "b", "", "é", "a", "m"] {
        insert_ascending(&mut v, s);
    }
    assert_eq!(v, vec!["", "a", "b", "m", "z", "é"]);
}

#[test]
fn the_longer_unit_comes_first() {
    assert_eq!(split_unit("5ns"), Some(("5", TimeUnit::Ns)));
    assert_eq!(split_unit("5s"), Some(("5", TimeUnit::S)));
    assert_eq!(split_unit("5fs"), Some(("5", TimeUnit::Fs)));
    assert_eq!(split_unit("ms"), Some(("", TimeUnit::Ms)));
    assert_eq!(split_unit("5 us"), Some(("5 ", TimeUnit::Us)));
    assert_eq!(split_unit("5ps"), Some(("5", TimeUnit::Ps)));
    assert_eq!(split_unit("5"), None);
}
