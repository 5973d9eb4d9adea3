use doc_search::words::{split_lines, split_words, trim_trailing};

#[test]
fn words_are_split_as_the_standard_library_does() {
    let texts = [
        "",
        " ",
        "one",
        "  leading and trailing  ",
        "tabs\tand\nnewlines\r\nmixed",
        "wide\u{3000}space and\u{a0}no-break",
        "日本語 のテキスト",
        "a  b   c",
    ];
    for text in texts {
        let expected: Vec<&str> = text.split_whitespace().collect();
        assert_eq!(split_words(text), expected);
    }
}

#[test]
fn words_of_a_sentence() {
    assert_eq!(split_words("the quick  brown fox"), vec!["the", "quick", "brown", "fox"]);
    assert!(split_words(" \t\n").is_empty());
}

#[test]
fn trailing_symbols_are_stripped() {
    assert_eq!(trim_trailing("dog."), "dog");
    assert_eq!(trim_trailing("what?!"), "what");
    assert_eq!(trim_trailing("(note)"), "(note");
    assert_eq!(trim_trailing("..."), "");
    assert_eq!(trim_trailing(""), "");
    assert_eq!(trim_trailing("plain"), "plain");
    assert_eq!(trim_trailing("año»"), "año");
    assert_eq!(trim_trailing("v2"), "v2");
}

#[test]
fn trailing_symbols_as_the_standard_library_strips_them() {
    let words = ["dog.", "a.b.", "日本語。", "x😀", "--", "e\u{301}"];
    for word in words {
        assert_eq!(trim_trailing(word), word.trim_end_matches(|c: char| !c.is_alphanumeric()));
    }
}

#[test]
fn lines_are_split_as_the_standard_library_does() {
    let texts = [
        "",
        "one line",
        "one\ntwo",
        "one\ntwo\n",
        "one\r\ntwo\r\n",
        "\n",
        "\n\n",
        "bare\rreturn",
        "ends with return\r",
        "\r\n",
        "a\r\r\nb",
        "日本語\nテキスト",
    ];
    for text in texts {
        let expected: Vec<&str> = text.lines().collect();
        assert_eq!(split_lines(text), expected);
    }
}

#[test]
fn lines_of_a_text() {
    assert_eq!(split_lines("first\r\nsecond\n\nlast"), vec!["first", "second", "", "last"]);
    assert_eq!(split_lines("only\n"), vec!["only"]);
}

#[test]
fn white_space_is_the_unicode_property() {
    let listed = |c: char| {
        matches!(
            c,
            '\u{9}'..='\u{d}'
                | ' '
                | '\u{85}'
                | '\u{a0}'
                | '\u{1680}'
                | '\u{2000}'..='\u{200a}'
                | '\u{2028}'
                | '\u{2029}'
                | '\u{202f}'
                | '\u{205f}'
                | '\u{3000}'
        )
    };
    let mut text = String::new();
    for code in 0..=0x10ffffu32 {
        if let Some(c) = char::from_u32(code) {
            text.clear();
            text.push('a');
            text.push(c);
            text.push('b');
            let words = split_words(&text).len();
            assert_eq!(words == 2, listed(c), "U+{:04X}", code);
            assert_eq!(c.is_whitespace(), listed(c), "U+{:04X}", code);
        }
    }
}
