use infoscreen::names::{has_name, ByText, NameSet};
use infoscreen::numbers::{to_signed, wrap_i32};
use infoscreen::order::{stable_sort, text_is_before};
use infoscreen::text;

fn words(list: &[&str]) -> Vec<String> {
    list.iter().map(|s| s.to_string()).collect()
}

#[test]
fn white_space_is_trimmed_on_both_sides() {
    assert_eq!(text::trim(" \t a b \u{a0}\n"), "a b");
    assert_eq!(text::trim(""), "");
    assert_eq!(text::trim(" \u{3000} "), "");
    for s in ["x", " x", "x ", "\u{85}x\u{2028}", "  ", "a\u{200b}"] {
        assert_eq!(text::trim(s), s.trim());
    }
}

#[test]
fn trimming_twice_is_trimming_once() {
    for s in [" a ", "", " \n ", "a b", "\t(90 min) "] {
        let once = text::trim(s);
        assert_eq!(text::trim(&once), once);
    }
}

#[test]
fn texts_are_split_at_the_first_occurrence() {
    assert_eq!(text::split_once("a;b;c", ";"), Some(("a".to_string(), "b;c".to_string())));
    assert_eq!(text::split_once("abc", ";"), None);
    assert_eq!(text::split_once(";", ";"), Some((String::new(), String::new())));
    assert_eq!(text::split_once("aab", "ab"), Some(("a".to_string(), String::new())));
}

#[test]
fn pieces_are_those_between_occurrences() {
    assert_eq!(text::split("a,b,,c", ","), words(&["a", "b", "", "c"]));
    assert_eq!(text::split("", ","), words(&[""]));
    assert_eq!(text::split("aaaa", "aa"), words(&["", "", ""]));
    assert_eq!(text::split("x: y: z", ": "), words(&["x", "y", "z"]));
}

#[test]
fn joined_pieces_are_the_text() {
    for s in ["a, b, c", "", ", ", "no comma", ",, ,"] {
        assert_eq!(text::join(&text::split(s, ", "), ", "), s);
    }
    assert_eq!(text::join(&Vec::new(), ", "), "");
    assert_eq!(text::join(&words(&["a"]), ", "), "a");
}

#[test]
fn every_occurrence_is_replaced() {
    assert_eq!(text::replace("K-Foyer", "-Foyer", "000"), "K000");
    assert_eq!(text::replace("de-DE-x", "-", "_"), "de_DE_x");
    assert_eq!(text::replace("aaa", "aa", "b"), "ba");
    assert_eq!(text::replace("abc", "x", "y"), "abc");
}

#[test]
fn parts_are_found() {
    assert!(text::contains("Regensburg Hbf", "Hbf"));
    assert!(!text::contains("Regensburg HBF", "Hbf"));
    assert!(text::contains("abc", ""));
}

#[test]
fn prefixes_and_suffixes_are_removed() {
    assert_eq!(text::strip_prefix("Regensburg Hbf", "Regensburg"), Some(" Hbf".to_string()));
    assert_eq!(text::strip_prefix("Hbf", "Regensburg"), None);
    assert_eq!(text::strip_prefix("Hbf", ""), Some("Hbf".to_string()));
    assert_eq!(text::trim_start_matches("IM_IM_MA1", "IM_"), "MA1");
    assert_eq!(text::trim_start_matches("((90", "("), "90");
    assert_eq!(text::trim_start_matches("abc", ""), "abc");
    assert_eq!(text::trim_end_matches("Title::", ":"), "Title");
    assert_eq!(text::trim_end_matches("FSIM (FSIM)(FSIM)", "(FSIM)"), "FSIM ");
    assert_eq!(text::trim_end_matches("abc", ""), "abc");
}

#[test]
fn leading_words_are_skipped() {
    assert_eq!(text::skip_words("a b c d e", 3), "d e");
    assert_eq!(text::skip_words("a b", 3), "b");
    assert_eq!(text::skip_words("", 3), "");
    assert_eq!(text::skip_words("a  b c d", 3), "c d");
    for s in ["Prof. Dr. X Mathematik 1", "one", "a\u{a0}b\tc d e", "a b c "] {
        assert_eq!(text::skip_words(s, 3), s.splitn(4, char::is_whitespace).last().unwrap());
    }
}

#[test]
fn numbers_are_read() {
    assert_eq!(text::parse_u32("0042"), Some(42));
    assert_eq!(text::parse_u32("+7"), Some(7));
    assert_eq!(text::parse_u32("4294967295"), Some(u32::MAX));
    for s in ["", "+", "-1", "4294967296", "1x", " 1", "99999999999999999999999"] {
        assert_eq!(text::parse_u32(s), None);
    }
    assert_eq!(text::parse_i64("-9223372036854775808"), Some(i64::MIN));
    assert_eq!(text::parse_i64("9223372036854775807"), Some(i64::MAX));
    assert_eq!(text::parse_i64("+90"), Some(90));
    for s in ["9223372036854775808", "-9223372036854775809", "-", "--1", "", "1.5"] {
        assert_eq!(text::parse_i64(s), None);
    }
}

#[test]
fn written_numbers_read_back() {
    for n in [0u64, 7, 10, 99, 100, 1234567890, u64::MAX] {
        assert_eq!(text::decimal_text(n), n.to_string());
        assert_eq!(text::parse_unsigned(&text::decimal_text(n), u64::MAX), Some(n));
    }
    for n in [0i64, -1, 42, -32600, i64::MIN, i64::MAX] {
        assert_eq!(text::signed_decimal_text(n), n.to_string());
    }
}

#[test]
fn texts_are_ordered_by_their_characters() {
    assert!(text_is_before("A", "B"));
    assert!(text_is_before("A", "AA"));
    assert!(text_is_before("", "A"));
    assert!(!text_is_before("A", "A"));
    assert!(!text_is_before("b", "B"));
    for a in ["", "a", "ab", "ä", "\u{ffff}", "\u{10000}"] {
        for b in ["", "a", "ab", "ä", "\u{ffff}", "\u{10000}"] {
            assert_eq!(text_is_before(a, b), a < b);
        }
    }
}

#[test]
fn sorting_orders_names() {
    let sorted = stable_sort::<String, ByText>(words(&["c", "a", "b", "a"]));
    assert_eq!(sorted, words(&["a", "a", "b", "c"]));
    assert_eq!(stable_sort::<String, ByText>(sorted.clone()), sorted);
}

#[test]
fn name_sets_are_ordered_and_hold_each_name_once() {
    let mut set = NameSet::new();
    set.insert("K002".to_string());
    set.extend(words(&["K001", "K002", "A"]));
    assert_eq!(*set.names(), words(&["A", "K001", "K002"]));
    assert_eq!(set.clone(), set);
    assert!(has_name(set.names(), "K001"));
    assert!(!has_name(set.names(), "K00"));
}

#[test]
fn numbers_wrap_at_32_bits() {
    assert_eq!(to_signed(u32::MAX), -1);
    assert_eq!(to_signed(5), 5);
    for n in [0i64, -1, 1 << 31, (1 << 31) - 1, -(1 << 31), 1 << 40, i64::MIN, i64::MAX] {
        assert_eq!(wrap_i32(n), n as i32);
    }
}
