use reddoc::standardize_name;
use reddoc::standardize_version;
use reddoc::text::{parse_unsigned, same_text};

#[test]
fn standardize_name_as_identity() {
    // strings that should not be modified
    let cases: [&str; 5] = [
        "spinx of the black quartz, judge my vow.",
        "_-abc-_",
        ":str;",
        "",
        "!\"$%&/()=?|@#~{[]}+*^",
    ];
    for elem in cases {
        let standardized: String = standardize_name(elem);
        assert_eq!(elem, standardized);
    }
}

#[test]
fn standardize_name_as_non_identity() {
    // strings that should be modified
    let cases: [(&str, &str); 4] = [
        (
            "SPINX OF THE BLACK QUARTZ, JUDGE MY VOW.",
            "spinx of the black quartz, judge my vow.",
        ),
        ("·¿½¬", ""),
        ("  untrimmed \n", "untrimmed"),
        ("control_characters\0\n\t\r", "control_characters"),
    ];
    for (elem, expected) in cases {
        let standardized: String = standardize_name(elem);
        assert_eq!(standardized, expected);
    }
}

#[test]
fn standardize_name_trims_unicode_white_space() {
    // U+3000 and U+00A0 are white space: trimmed, not only filtered
    assert_eq!(standardize_name("\u{3000} Linux\u{a0}"), "linux");
    // a non-ASCII letter inside the name is dropped
    assert_eq!(standardize_name("Ubuntú"), "ubunt");
}

#[test]
fn standardize_name_ignores_ascii_case() {
    assert_eq!(standardize_name("Linux"), standardize_name("linux"));
    assert_eq!(standardize_name("WEB-01"), standardize_name("web-01"));
}

#[test]
fn standardize_name_filters_before_trimming() {
    assert_eq!(standardize_name("\0 x"), "x");
    assert_eq!(standardize_name("X \u{e9}"), "x");
    assert_eq!(standardize_name("\u{e9} Ab \u{7f}"), "ab");
    for s in ["\0 a", "x \u{e9}", "  Mixed\tCase  ", "\u{a0}y\u{a0}"] {
        let once = standardize_name(s);
        assert_eq!(standardize_name(&once), once);
        assert_eq!(once.trim(), once);
    }
}

#[test]
fn standardize_version_keeps_case_and_cuts() {
    assert_eq!(standardize_version("  V1.2-RC\t"), "V1.2-RC");
    let long = "x".repeat(60);
    assert_eq!(standardize_version(&long), "x".repeat(50));
    assert_eq!(standardize_version("1.0\u{7f}ß"), "1.0");
}

#[test]
fn parse_unsigned_reads_like_str_parse() {
    assert_eq!(parse_unsigned("42", 100), Some(42));
    assert_eq!(parse_unsigned("+7", 100), Some(7));
    assert_eq!(parse_unsigned("0010", 100), Some(10));
    assert_eq!(parse_unsigned("101", 100), None);
    assert_eq!(parse_unsigned("", 100), None);
    assert_eq!(parse_unsigned("+", 100), None);
    assert_eq!(parse_unsigned("-1", 100), None);
    assert_eq!(parse_unsigned("1a", 100), None);
    assert_eq!(parse_unsigned(" 1", 100), None);
    assert_eq!(parse_unsigned("18446744073709551615", u64::MAX), Some(u64::MAX));
    assert_eq!(parse_unsigned("18446744073709551616", u64::MAX), None);
}

#[test]
fn same_text_compares_characters() {
    assert!(same_text("abc", "abc"));
    assert!(!same_text("abc", "abd"));
    assert!(!same_text("abc", "ab"));
}

#[test]
fn standardize_version_idempotent_unless_cut_at_space() {
    let v = standardize_version("  V1.2-Beta ");
    assert_eq!(v, "V1.2-Beta");
    assert_eq!(standardize_version(&v), v);
    let long = format!("{} b", "a".repeat(49));
    let once = standardize_version(&long);
    assert_eq!(once, format!("{} ", "a".repeat(49)));
    assert_eq!(standardize_version(&once), "a".repeat(49));
}
