use tapa_core::command::{escape_into, parse_count, parse_i64, push_bools};
use tapa_core::config::settings_lines;

#[test]
fn coordinates_parse_or_explain() {
    assert_eq!(parse_i64(Some("12")), Ok(12));
    assert_eq!(parse_i64(Some("-3")), Ok(-3));
    assert_eq!(parse_i64(Some("+7")), Ok(7));
    assert_eq!(parse_i64(None), Err("missing coordinate".to_string()));
    assert_eq!(parse_i64(Some("x")), Err("bad coordinate".to_string()));
    assert_eq!(parse_i64(Some("")), Err("bad coordinate".to_string()));
    assert_eq!(
        parse_i64(Some("99999999999999999999")),
        Err("bad coordinate".to_string())
    );
}

#[test]
fn counts_are_clamped() {
    assert_eq!(parse_count(None, 1), Ok(1));
    assert_eq!(parse_count(None, 9), Ok(9));
    assert_eq!(parse_count(Some("0"), 1), Ok(1));
    assert_eq!(parse_count(Some("5"), 1), Ok(5));
    assert_eq!(parse_count(Some("999"), 1), Ok(200));
    assert_eq!(parse_count(Some("-1"), 1), Err("bad count".to_string()));
    assert_eq!(parse_count(Some("abc"), 1), Err("bad count".to_string()));
}

#[test]
fn flags_become_digits() {
    let mut out = String::from("x");
    push_bools(&mut out, &[true, false, false, true]);
    assert_eq!(out, "x1001");
    push_bools(&mut out, &[]);
    assert_eq!(out, "x1001");
}

#[test]
fn strings_are_escaped_for_json() {
    let mut out = String::new();
    escape_into(&mut out, "a\"b\\c\nd\re\tf\u{1}g\u{1f}é");
    assert_eq!(out, "a\\\"b\\\\c\\nd\\re\\tf\\u0001g\\u001fé");
    let mut plain = String::from("[");
    escape_into(&mut plain, "plain text");
    assert_eq!(plain, "[plain text");
}

#[test]
fn a_settings_file_reads_key_value_lines() {
    let text = "\u{feff}# comment\nsize = 12\n\n  seed=42  # fixed\ndensity = 0.3-0.4\r\n";
    let (entries, bad) = settings_lines(text);
    assert_eq!(
        entries,
        vec![
            (2, "size".to_string(), "12".to_string()),
            (4, "seed".to_string(), "42".to_string()),
            (5, "density".to_string(), "0.3-0.4".to_string()),
        ]
    );
    assert_eq!(bad, None);
}

#[test]
fn a_settings_file_stops_at_a_line_without_equals() {
    let (entries, bad) = settings_lines("size = 1\n  nonsense # x\nseed = 2");
    assert_eq!(entries, vec![(1, "size".to_string(), "1".to_string())]);
    assert_eq!(bad, Some((2, "nonsense".to_string())));
    let (entries, bad) = settings_lines("");
    assert!(entries.is_empty());
    assert_eq!(bad, None);
}
