use coderag::text::{char_is_whitespace, chars_of, joined, lines_of, same_text, trimmed};

fn owned(parts: &[&str]) -> Vec<String> {
    parts.iter().map(|part| part.to_string()).collect()
}

#[test]
fn whitespace_agrees_with_std_on_every_char() {
    let mut code: u32 = 0;
    while code <= 0x10FFFF {
        if let Some(c) = char::from_u32(code) {
            assert_eq!(char_is_whitespace(c), c.is_whitespace(), "U+{:04X}", code);
        }
        code += 1;
    }
}

#[test]
fn whitespace_of_named_characters() {
    assert!(char_is_whitespace(' '));
    assert!(char_is_whitespace('\t'));
    assert!(char_is_whitespace('\n'));
    assert!(char_is_whitespace('\r'));
    assert!(char_is_whitespace('\u{00A0}'));
    assert!(char_is_whitespace('\u{3000}'));
    assert!(!char_is_whitespace('a'));
    assert!(!char_is_whitespace('#'));
    assert!(!char_is_whitespace('\u{200B}'));
}

#[test]
fn chars_of_keeps_every_character_in_order() {
    assert_eq!(chars_of(""), Vec::<char>::new());
    assert_eq!(chars_of("ab"), vec!['a', 'b']);
    assert_eq!(chars_of("é\u{3000}x"), vec!['é', '\u{3000}', 'x']);
}

#[test]
fn same_text_compares_characters() {
    assert!(same_text("", ""));
    assert!(same_text("rs", "rs"));
    assert!(!same_text("rs", "RS"));
    assert!(!same_text("rs", "rss"));
    assert!(!same_text("yml", "yaml"));
}

#[test]
fn trimmed_removes_both_ends_only() {
    assert_eq!(trimmed("  a b \t\n"), "a b");
    assert_eq!(trimmed("a"), "a");
    assert_eq!(trimmed(""), "");
    assert_eq!(trimmed(" \n\t "), "");
    assert_eq!(trimmed("\u{3000}é \u{00A0}"), "é");
}

#[test]
fn trimmed_agrees_with_std() {
    let samples = [
        "",
        " ",
        "x",
        " x",
        "x ",
        "  x  y  ",
        "\n\nx\r\n",
        "\u{2003}wide\u{2003}",
        "\u{200B}zero width stays\u{200B}",
        "héllo wörld ",
    ];
    for sample in samples {
        assert_eq!(trimmed(sample), sample.trim(), "{:?}", sample);
    }
}

#[test]
fn lines_of_splits_at_line_feeds() {
    assert_eq!(lines_of(""), Vec::<String>::new());
    assert_eq!(lines_of("a"), owned(&["a"]));
    assert_eq!(lines_of("a\n"), owned(&["a"]));
    assert_eq!(lines_of("a\nb"), owned(&["a", "b"]));
    assert_eq!(lines_of("a\n\nb"), owned(&["a", "", "b"]));
    assert_eq!(lines_of("\n"), owned(&[""]));
}

#[test]
fn lines_of_drops_a_carriage_return_only_before_a_line_feed() {
    assert_eq!(lines_of("a\r\nb"), owned(&["a", "b"]));
    assert_eq!(lines_of("a\r\nb\r"), owned(&["a", "b\r"]));
    assert_eq!(lines_of("a\rb\n"), owned(&["a\rb"]));
    assert_eq!(lines_of("a\r\r\n"), owned(&["a\r"]));
    assert_eq!(lines_of("\r\n"), owned(&[""]));
}

#[test]
fn lines_of_agrees_with_std() {
    let samples = [
        "",
        "\n",
        "\r\n",
        "\r",
        "one",
        "one\n",
        "one\ntwo",
        "one\r\ntwo\r\n",
        "one\n\n\ntwo\n\n",
        "*.bak\n# Comentario\ntemp/",
        "é\nü\r\n\u{3000}",
    ];
    for sample in samples {
        let expected: Vec<String> = sample.lines().map(String::from).collect();
        assert_eq!(lines_of(sample), expected, "{:?}", sample);
    }
}

#[test]
fn joined_puts_the_separator_between_neighbours() {
    assert_eq!(joined(&owned(&[]), "\n---\n"), "");
    assert_eq!(joined(&owned(&["a"]), "\n---\n"), "a");
    assert_eq!(joined(&owned(&["a", "b"]), "\n---\n"), "a\n---\nb");
    assert_eq!(joined(&owned(&["a", "", "c"]), ", "), "a, , c");
    assert_eq!(joined(&owned(&["a", "b", "c"]), ""), "abc");
}

#[test]
fn joined_agrees_with_std() {
    let parts = owned(&["Hello", "World", "", "x y"]);
    assert_eq!(joined(&parts, "\n---\n"), parts.join("\n---\n"));
}
