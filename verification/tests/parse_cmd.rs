use moo_rust::ascii_string::AsciiString;
use moo_rust::parse_cmd::parse_into_words;

#[test]
fn example_words() {
    let examples = [
        ("hello", vec!["hello"]),
        ("hello world", vec!["hello", "world"]),
        ("     hello world", vec!["hello", "world"]),
        ("hello      world", vec!["hello", "world"]),
        ("hello world     ", vec!["hello", "world"]),
        ("\"hello world\"", vec!["hello world"]),
        ("\"hello     world\"", vec!["hello     world"]),
        ("\\ hello world", vec![" hello", "world"]),
        ("\\\\hello world", vec!["\\hello", "world"]),
        ("\\hello world", vec!["hello", "world"]),
        ("\"hello\\\"world\"", vec!["hello\"world"]),
    ];

    for (index, (original, expected_words)) in examples.iter().enumerate() {
        let actual_words = parse_into_words(AsciiString(original));
        assert_eq!(actual_words, *expected_words, "example: {}", index);
    }
}

#[test]
fn words_of_empty_and_blank_input() {
    assert!(parse_into_words(AsciiString("")).is_empty());
    assert!(parse_into_words(AsciiString("    ")).is_empty());
}

#[test]
fn empty_quotes_make_no_word() {
    assert!(parse_into_words(AsciiString("\"\"")).is_empty());
    assert_eq!(parse_into_words(AsciiString("a \"\" b")), vec!["a", "b"]);
}

#[test]
fn quotes_join_parts_of_a_word() {
    assert_eq!(parse_into_words(AsciiString("ab\"c d\"e f")), vec!["abc de", "f"]);
}

#[test]
fn unclosed_quote_runs_to_the_end() {
    assert_eq!(parse_into_words(AsciiString("a \"b c")), vec!["a", "b c"]);
}

#[test]
fn trailing_backslash_is_dropped() {
    assert_eq!(parse_into_words(AsciiString("ab\\")), vec!["ab"]);
    assert!(parse_into_words(AsciiString("\\")).is_empty());
}

#[test]
fn escaped_character_is_a_word() {
    assert_eq!(parse_into_words(AsciiString("\\\"")), vec!["\""]);
    assert_eq!(parse_into_words(AsciiString("\\\\")), vec!["\\"]);
}

#[test]
fn space_separates_words() {
    let a = "one \"two three\"";
    let b = "four\\ five";
    let joined = format!("{} {}", a, b);
    let mut expected = parse_into_words(AsciiString(a));
    expected.extend(parse_into_words(AsciiString(b)));
    assert_eq!(parse_into_words(AsciiString(&joined)), expected);
}

#[test]
fn spaces_merge_and_leading_space_ignored() {
    assert_eq!(
        parse_into_words(AsciiString("a  b")),
        parse_into_words(AsciiString("a b"))
    );
    assert_eq!(
        parse_into_words(AsciiString(" a b")),
        parse_into_words(AsciiString("a b"))
    );
}

#[test]
fn non_ascii_characters_are_kept() {
    assert_eq!(parse_into_words(AsciiString("héllo wörld")), vec!["héllo", "wörld"]);
}
