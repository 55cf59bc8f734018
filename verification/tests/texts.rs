//! Texts: cutting, searching, reading numbers, paths and quotation marks.

use smeltr::clock::unix_ns;
use smeltr::columns::{cut_note_text, first_count, truncate};
use smeltr::commands::export::{export_target, format_error, format_error_with, parse_format, Format};
use smeltr::event::Uuid;
use smeltr::ids::{leading_text, short};
use smeltr::parse::{is_word, lines, parse_signed, parse_unsigned, replace, trim, trim_end};
use smeltr::paths::{base_name, is_report_path, join_path, same_path};
use smeltr::quoted::{bracket, quoted, quoted_list};
use smeltr::text::{begins, clip, dec_text, finishes, has, join, left_text, precedes, tail_after};

#[test]
fn quotation_marks_escape() {
    for s in ["", "plain", "a\"b", "back\\slash", "tab\there", "new\nline", "é—✓", "\u{0}"] {
        assert_eq!(quoted(s), format!("{s:?}"));
    }
    let list = vec!["a".to_string(), "b\"".to_string()];
    assert_eq!(quoted_list(&list), format!("{list:?}"));
    assert_eq!(bracket(&vec!["1".into(), "2".into()]), "[1, 2]");
    assert_eq!(quoted_list(&vec![]), "[]");
}

#[test]
fn blanks_are_trimmed_like_std_does() {
    for s in ["", " ", "  a b\t\n", "a", "\u{a0}x\u{2003}", "\u{200b}y", "\u{85}z\u{3000}"] {
        assert_eq!(trim(s), s.trim(), "{s:?}");
        assert_eq!(trim_end(s), s.trim_end(), "{s:?}");
    }
}

#[test]
fn lines_are_split_like_std_does() {
    for s in ["", "\n", "a", "a\n", "a\nb", "a\r\nb\r\n", "a\r", "\n\nx", "a\n\r\nb"] {
        let want: Vec<&str> = s.lines().collect();
        assert_eq!(lines(s), want, "{s:?}");
    }
}

#[test]
fn numbers_are_read_like_std_does() {
    for s in [
        "", "0", "+7", "-7", "007", "+", "-", "--1", "1 ", "1a", "18446744073709551615",
        "18446744073709551616", "9223372036854775807", "9223372036854775808",
        "-9223372036854775808", "-9223372036854775809", "-0", "４",
    ] {
        assert_eq!(parse_unsigned(s, u64::MAX), s.parse::<u64>().ok(), "{s:?}");
        assert_eq!(
            parse_unsigned(s, u32::MAX as u64),
            s.parse::<u32>().ok().map(u64::from),
            "{s:?}"
        );
        assert_eq!(parse_signed(s), s.parse::<i64>().ok(), "{s:?}");
    }
    assert_eq!(dec_text(u64::MAX), u64::MAX.to_string());
}

#[test]
fn replacing_is_what_std_does() {
    for (s, from, to) in [
        ("a&b&c", "&", "&amp;"),
        ("aaaa", "aa", "b"),
        ("aaa", "aa", "b"),
        ("none", "x", "y"),
        ("", "x", "y"),
        ("&amp;lt;", "&amp;", "&"),
    ] {
        assert_eq!(replace(s, from, to), s.replace(from, to), "{s:?}");
    }
}

#[test]
fn words_are_compared_without_case() {
    for s in ["true", "TRUE", "tRuE", "truee", "tru", "", "ſ"] {
        assert_eq!(is_word(s, "true"), s.eq_ignore_ascii_case("true"), "{s:?}");
    }
    assert!(!is_word("fal\u{17f}e", "false"));
}

#[test]
fn texts_are_searched_and_cut() {
    assert!(begins("post-mortem-x", "post-mortem-") && !begins("post", "post-"));
    assert!(finishes("a_contiguous", "_contiguous") && !finishes("us", "_us"));
    assert!(has("flags=0x10000(runtime)", "runtime") && has("x", "") && !has("", "x"));
    assert!(precedes("2026-07-01", "2026-07-02") && !precedes("b", "a") && !precedes("a", "a"));
    assert!(precedes("a", "ab") && !precedes("é", "z") && precedes("z", "é"));
    assert_eq!(tail_after("a/b/c", '/'), "c");
    assert_eq!(tail_after("abc", '/'), "abc");
    assert_eq!(clip("abcdef", 4, "…"), "abc…");
    assert_eq!(clip("abcd", 4, "…"), "abcd");
    assert_eq!(truncate("αβγδε", 3), "αβ…");
    assert_eq!(left_text("ab", 4), "ab  ");
    assert_eq!(left_text("abcde", 4), "abcde");
    assert_eq!(join(&vec!["a".into(), "b".into()], ", "), "a, b");
    assert_eq!(first_count(5, 3), 3);
    assert_eq!(first_count(2, 3), 2);
    assert_eq!(cut_note_text(5, 3), "(showing top 3 of 5)\n");
    assert_eq!(cut_note_text(3, 3), "");
}

#[test]
fn paths_are_what_std_makes_of_them() {
    let paths = [
        "", "/", "a", "a/b", "/a/b.ips", "a/b/", "a//b", "./a", "a/.", "a/..", "..", "x.ips", ".ips",
        "a.b.ips", "a.ips/", "a.IPS", "/a/./b", "a/./b",
    ];
    for p in paths {
        let std_path = std::path::Path::new(p);
        assert_eq!(
            base_name(p),
            std_path.file_name().map(|n| n.to_string_lossy().into_owned()),
            "{p:?}"
        );
        assert_eq!(
            is_report_path(p),
            std_path.extension().and_then(|e| e.to_str()) == Some("ips"),
            "{p:?}"
        );
        for q in paths {
            assert_eq!(
                same_path(p, q),
                std_path == std::path::Path::new(q),
                "{p:?} {q:?}"
            );
            assert_eq!(
                join_path(p, q),
                std_path.join(q).to_string_lossy(),
                "{p:?} {q:?}"
            );
        }
    }
}

#[test]
fn identifiers_have_short_forms() {
    let id = Uuid::from_u128(0x0123_4567_89ab_4cde_8f01_2345_6789_abcd);
    assert_eq!(leading_text(id), "01234567");
    assert_eq!(short(id), "6789abcd");
    assert_eq!(short(Uuid::nil()), "00000000");
}

#[test]
fn instants_before_the_epoch_are_none() {
    assert_eq!(unix_ns(Some(-1)), None);
    assert_eq!(unix_ns(Some(u64::MAX as i128)), Some(u64::MAX));
    assert_eq!(unix_ns(Some(u64::MAX as i128 + 1)), None);
    assert_eq!(unix_ns(None), None);
}

#[test]
fn export_rejects_unknown_format() {
    assert_eq!(parse_format("chrome-trace"), Some(Format::ChromeTrace));
    assert_eq!(parse_format("json"), Some(Format::Json));
    assert_eq!(parse_format("bogus"), None);
    let err = format_error("bogus");
    assert!(err.contains("unknown --format"));
    assert_eq!(err, "unknown --format \"bogus\"; supported: chrome-trace, json");
    assert_eq!(format_error_with("x"), "unknown --format x; supported: chrome-trace, json");
}

#[test]
fn exports_have_a_target() {
    let id = Uuid::from_u128(0xabcd_ef01);
    assert_eq!(export_target(Some("-"), id), None);
    assert_eq!(export_target(Some("out.json"), id), Some("out.json".into()));
    assert_eq!(export_target(None, id), Some("abcdef01.json".into()));
}
