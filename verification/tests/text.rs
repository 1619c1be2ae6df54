use diffier::columns::char_columns_or_none;
use diffier::style::{Color, Line, Span, Style};
use diffier::text::{
    char_count, chars_of, decimal, ends_with, first_line_of, has, join, repeated, same,
    starts_with, text_between, trim, trim_end, trim_slashes, two_lines,
};

#[test]
fn numbers_are_written_in_decimal() {
    assert_eq!(decimal(0), "0");
    assert_eq!(decimal(907), "907");
    assert_eq!(decimal(u64::MAX), "18446744073709551615");
}

#[test]
fn ends_and_parts_are_found() {
    assert!(starts_with("abc", "ab") && !starts_with("abc", "bc"));
    assert!(ends_with("abc", "bc") && !ends_with("abc", "ab"));
    assert!(has("abcd", "bc") && !has("abcd", "ca"));
    assert!(starts_with("x", "") && ends_with("x", "") && has("", ""));
    assert!(!starts_with("a", "ab") && !ends_with("a", "ba"));
    assert!(same("é", "é") && !same("e", "é"));
}

#[test]
fn white_space_is_trimmed() {
    assert_eq!(trim(" \t\u{a0}a b\r\n"), "a b");
    assert_eq!(trim(" \n"), "");
    assert_eq!(trim_end(" a \n"), " a");
    assert_eq!(trim_slashes("/a/b//"), "/a/b");
}

#[test]
fn lines_are_split_off() {
    assert_eq!(first_line_of("a\r\nb"), "a");
    assert_eq!(first_line_of("a"), "a");
    assert_eq!(first_line_of(""), "");
    assert_eq!(two_lines("a\nb\nc"), Some(("a".to_string(), "b".to_string())));
    assert_eq!(two_lines("a\n"), None);
}

#[test]
fn characters_are_counted_not_bytes() {
    assert_eq!(char_count("日本"), 2);
    assert_eq!(chars_of("aé"), ['a', 'é']);
    assert_eq!(text_between(&vec!['a', 'b', 'c'], 1, 3), "bc");
    assert_eq!(repeated('─', 3), "───");
    assert_eq!(join(&vec!["a".to_string(), "b".to_string()], ", "), "a, b");
    assert_eq!(join(&Vec::new(), ", "), "");
}

#[test]
fn wide_characters_take_two_columns() {
    assert_eq!(char_columns_or_none('a'), 1);
    assert_eq!(char_columns_or_none('日'), 2);
    assert_eq!(char_columns_or_none('\u{7}'), 0);
    let line = Line {
        spans: vec![
            Span::raw("日本".to_string()),
            Span::styled("ab".to_string(), Style::new().fg(Color::Red).bold()),
        ],
    };
    assert_eq!(line.width(), 6);
    assert_eq!(line.text(), "日本ab");
    assert_eq!(line.copy(), line);
}

#[test]
fn styles_are_built_up() {
    let s = Style::new().fg(Color::Green).bg(Color::AddedBg).dim().italic().reversed();
    assert_eq!((s.fg, s.bg), (Some(Color::Green), Some(Color::AddedBg)));
    assert!(s.dim && s.italic && s.reversed && !s.bold);
    assert_eq!(Color::Rgb(1, 2, 3).rgb(), Some((1, 2, 3)));
    assert_eq!(Color::Gutter.rgb(), Some((0x6c, 0x6c, 0x6c)));
    assert_eq!(Color::Red.rgb(), None);
}
