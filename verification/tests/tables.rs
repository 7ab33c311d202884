//! Tables, bytes, texts and their order.
use arkel::bytes::{contains_bytes, same_bytes, to_array32, to_array64, to_vec};
use arkel::order::{not_behind, sort_texts, sorted_distinct};
use arkel::table::Table;
use arkel::text::{
    decimal_of, join, occurs, parse_decimal, same_text, split, split_at_char, strip_prefix,
    to_upper, trim, without_leading_space, without_trailing_space,
};

fn texts(v: &[&str]) -> Vec<String> {
    v.iter().map(|s| s.to_string()).collect()
}

#[test]
fn rows_are_found_by_key() {
    let mut table: Table<String, i64> = Table::new();
    table.put("a".to_string(), 1);
    table.put("b".to_string(), 2);
    table.put("a".to_string(), 3);
    assert_eq!(table.len(), 2);
    assert_eq!(table.get(&"a".to_string()), Some(&3));
    assert!(table.contains(&"b".to_string()));
    assert!(table.remove(&"b".to_string()));
    assert!(!table.remove(&"b".to_string()));
    assert_eq!(table.copied().to_rows(), vec![("a".to_string(), 3)]);
    assert_eq!(table.row(0), (&"a".to_string(), &3));
}

#[test]
fn rows_with_one_key_make_no_table() {
    let rows = vec![(vec![1u8], 1i64), (vec![2u8], 2)];
    assert_eq!(Table::from_rows(rows.clone()).unwrap().to_rows(), rows);
    let twice = vec![(vec![1u8], 1i64), (vec![1u8], 2)];
    assert!(Table::from_rows(twice).is_none());
}

#[test]
fn byte_strings_compare_by_contents() {
    assert!(same_bytes(b"ab", b"ab"));
    assert!(!same_bytes(b"ab", b"abc"));
    assert_eq!(to_vec(b"ab"), b"ab");
    assert_eq!(to_array32(&[1u8; 32]), Some([1u8; 32]));
    assert_eq!(to_array32(&[1u8; 31]), None);
    assert_eq!(to_array64(&[1u8; 64]), Some([1u8; 64]));
    assert_eq!(to_array64(&[1u8; 65]), None);
    assert!(contains_bytes(&vec![vec![1], vec![2]], &[2]));
    assert!(!contains_bytes(&vec![vec![1], vec![2]], &[3]));
}

#[test]
fn texts_are_ordered_as_in_std() {
    let given = texts(&["b", "", "a", "\u{e9}", "ab", "a", "\u{10000}", "\u{ffff}"]);
    let mut expected = given.clone();
    expected.sort();
    assert_eq!(sort_texts(&given), expected);
    expected.dedup();
    assert_eq!(sorted_distinct(&given), expected);
    assert!(not_behind("a", "ab"));
    assert!(!not_behind("b", "ab"));
    assert!(not_behind("a", "a"));
}

#[test]
fn texts_are_trimmed_as_in_std() {
    for s in ["", "  ", " a b\t\n", "\u{a0}x\u{3000}", "\u{200b}x", "x\u{85}", "\u{1680}\u{2028}y"] {
        assert_eq!(trim(s), s.trim());
        assert_eq!(without_leading_space(s), s.trim_start());
        assert_eq!(without_trailing_space(s), s.trim_end());
    }
    assert_eq!(to_upper("1kb \u{e9}"), "1KB \u{e9}");
}

#[test]
fn texts_are_split_as_in_std() {
    for s in ["", "a", "a@b", "@", "a@b@c", "\u{e9}@\u{e9}"] {
        let expected = s.split_once('@').map(|(a, b)| (a.to_string(), b.to_string()));
        assert_eq!(split_at_char(s, '@'), expected);
        let parts: Vec<&str> = s.split('@').collect();
        assert_eq!(split(s, '@'), parts);
        assert_eq!(join(&split(s, '@'), "@"), s);
    }
    assert_eq!(strip_prefix("Arkel x", "Arkel "), Some("x".to_string()));
    assert_eq!(strip_prefix("arkel x", "Arkel "), None);
    assert!(occurs("abcd", "bc") && occurs("abc", "") && !occurs("abc", "ac"));
    assert!(same_text("a", "a") && !same_text("a", "b"));
}

#[test]
fn numbers_are_read_as_in_std() {
    for s in ["", "0", "007", "+5", "+", "-1", "12a", " 1", "18446744073709551615",
        "18446744073709551616", "99999999999999999999999"]
    {
        assert_eq!(parse_decimal(s, u64::MAX), s.parse::<u64>().ok());
    }
    assert_eq!(parse_decimal("256", 255), None);
    for n in [0, 9, 10, 1234567890, u64::MAX] {
        assert_eq!(decimal_of(n), n.to_string());
        assert_eq!(parse_decimal(&decimal_of(n), u64::MAX), Some(n));
    }
}
