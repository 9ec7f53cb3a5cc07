use psi_ask::text::{
    chars_of, contains, contains_text, ends_with, find_beginning, is_whitespace, lines, same_str,
    starts_with, string_of, strip_prefix, trim, word_at, words,
};

fn owned(parts: Vec<&[char]>) -> Vec<String> {
    parts.into_iter().map(string_of).collect()
}

#[test]
fn whitespace_is_that_of_unicode() {
    for c in '\0'..=char::MAX {
        assert_eq!(is_whitespace(c), c.is_whitespace(), "{:?}", c);
    }
}

#[test]
fn strings_and_characters() {
    assert_eq!(chars_of("aé·"), vec!['a', 'é', '·']);
    assert_eq!(string_of(&['a', 'é', '·']), "aé·");
    assert_eq!(string_of(&[]), "");
}

#[test]
fn lines_end_in_line_feeds() {
    for text in [
        "",
        "\n",
        "a",
        "a\n",
        "a\nb",
        "a\n\nb\n",
        "a\r\nb\r\n",
        "a\r",
        "\r\n",
        "a\rb\n",
        "a\r\r\nb",
        "\n\n",
    ] {
        let chars = chars_of(text);
        let want: Vec<String> = text.lines().map(|l| l.to_string()).collect();
        assert_eq!(owned(lines(&chars)), want, "{:?}", text);
    }
}

#[test]
fn words_are_separated_by_white_space() {
    for text in ["", "  ", "a", " a  b\tc\n", "PPid:\t12", "\u{a0}x\u{2003}y\u{3000}", "a\u{200b}b"] {
        let chars = chars_of(text);
        let want: Vec<String> = text.split_whitespace().map(|w| w.to_string()).collect();
        assert_eq!(owned(words(&chars)), want, "{:?}", text);
        for n in 0..4 {
            assert_eq!(
                word_at(&chars, n).map(string_of),
                text.split_whitespace().nth(n).map(|w| w.to_string())
            );
        }
    }
}

#[test]
fn trimming() {
    for text in ["", " ", "a", " a ", "\t a b \n", "\u{3000}a\u{85}", "a\u{feff}"] {
        let chars = chars_of(text);
        assert_eq!(string_of(trim(&chars)), text.trim());
        let once = chars_of(text.trim());
        assert_eq!(string_of(trim(&once)), text.trim());
    }
}

#[test]
fn prefixes_and_suffixes() {
    let s = chars_of("avg10=1.23");
    assert!(starts_with(&s, "avg10="));
    assert!(starts_with(&s, ""));
    assert!(!starts_with(&s, "avg60="));
    assert!(!starts_with(&s, "avg10=1.234"));
    assert_eq!(strip_prefix(&s, "avg10=").map(string_of), Some("1.23".to_string()));
    assert_eq!(strip_prefix(&s, "total="), None);
    assert!(ends_with(&s, ".23"));
    assert!(ends_with(&s, ""));
    assert!(!ends_with(&s, ".24"));
    assert!(!ends_with(&s, "xavg10=1.23"));
}

#[test]
fn searching() {
    let s = chars_of("firefox -contentproc -parent");
    assert!(contains(&s, "-contentproc"));
    assert!(contains(&s, ""));
    assert!(contains(&s, "-parent"));
    assert!(!contains(&s, "-contentprox"));
    assert!(!contains(&[], "x"));
    assert!(same_str("abc", "abc"));
    assert!(!same_str("abc", "abd"));
    assert!(!same_str("abc", "ab"));
    let names = vec!["a".to_string(), "b".to_string()];
    assert!(contains_text(&names, "b"));
    assert!(!contains_text(&names, "c"));
    let (a, b, c) = (chars_of("xa"), chars_of("ya"), chars_of("yb"));
    let items: Vec<&[char]> = vec![&a, &b, &c];
    assert_eq!(find_beginning(&items, "y").map(string_of), Some("ya".to_string()));
    assert_eq!(find_beginning(&items, "z"), None);
}

#[test]
fn joined_words_and_lines_are_found_again() {
    let parts = vec!["some", "avg10=0.00", "total=5"];
    let line = chars_of(&parts.join(" "));
    assert_eq!(owned(words(&line)), parts);
    let text = chars_of(&format!("{}\r\nnext", parts.join(" ")));
    assert_eq!(owned(lines(&text)), vec![parts.join(" "), "next".to_string()]);
}
