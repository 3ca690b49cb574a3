use std::cmp::Ordering;

use moo_rust::ascii_string::{
    mystrcasecmp, mystrncasecmp, ordering_to_c_int, position_to_c_int, strindex, strrindex,
    AsciiString,
};

#[test]
fn example_strcasecmp() {
    let examples: &[(&str, &str, Ordering)] = &[
        ("", "", Ordering::Equal),
        ("hello", "", Ordering::Equal),
        ("", "world", Ordering::Equal),
        ("hello", "world", Ordering::Less),
        ("hello world", "HELLO", Ordering::Equal),
        ("HELLO", "hello world", Ordering::Equal),
        ("foo1", "FOO2", Ordering::Less),
        ("foo2", "FOO1", Ordering::Greater),
    ];

    for (index, (str1, str2, expected)) in examples.iter().enumerate() {
        let actual = mystrcasecmp(AsciiString(str1), AsciiString(str2));
        assert_eq!(
            actual,
            *expected,
            "example: {} ({} ~=~ {})",
            index,
            str1,
            str2
        );
    }
}

#[test]
fn example_strncasecmp() {
    let examples: &[(&str, &str, usize, Ordering)] = &[
        ("", "", 100, Ordering::Equal),
        ("hello", "", 100, Ordering::Equal),
        ("", "world", 100, Ordering::Equal),
        ("hello", "world", 0, Ordering::Equal),
        ("hello", "world", 100, Ordering::Less),
        ("hello world", "HELLO", 1, Ordering::Equal),
        ("hello world", "HELLO", 100, Ordering::Equal),
        ("HELLO", "hello world", 1, Ordering::Equal),
        ("HELLO", "hello world", 100, Ordering::Equal),
        ("foo1", "FOO2", 3, Ordering::Equal),
        ("foo1", "FOO2", 4, Ordering::Less),
        ("foo2", "FOO1", 3, Ordering::Equal),
        ("foo2", "FOO1", 4, Ordering::Greater),
    ];

    for (index, (str1, str2, len, expected)) in examples.iter().enumerate() {
        let actual = mystrncasecmp(AsciiString(str1), AsciiString(str2), *len);
        assert_eq!(
            actual,
            *expected,
            "example: {} ({} ~=~ {})",
            index,
            str1,
            str2
        );
    }
}

#[test]
fn example_strindex() {
    let examples: &[(&str, &str, bool, Option<usize>)] = &[
        ("foobar", "", false, Some(0)),
        ("foobar", "r", false, Some(5)),
        ("foobar", "o", false, Some(1)),
        ("foobar", "x", false, None),
        ("foobar", "oba", false, Some(2)),
        ("Foobar", "foo", true, None),
    ];

    for (index, (str1, str2, case_counts, expected)) in examples.iter().enumerate() {
        let actual = strindex(AsciiString(str1), AsciiString(str2), *case_counts);
        assert_eq!(
            actual,
            *expected,
            "example: {} ({} ~=~ {})",
            index,
            str1,
            str2
        );
    }
}

#[test]
fn example_strrindex() {
    let examples: &[(&str, &str, bool, Option<usize>)] = &[
        ("foobar", "", false, Some(6)),
        ("foobar", "r", false, Some(5)),
        ("foobar", "o", false, Some(2)),
        ("foobar", "x", false, None),
        ("foobar", "oba", false, Some(2)),
        ("Foobar", "foo", true, None),
    ];

    for (index, (str1, str2, case_counts, expected)) in examples.iter().enumerate() {
        let actual = strrindex(AsciiString(str1), AsciiString(str2), *case_counts);
        assert_eq!(
            actual,
            *expected,
            "example: {} ({} ~=~ {})",
            index,
            str1,
            str2
        );
    }
}

#[test]
fn casecmp_is_antisymmetric() {
    let pairs = [("abc", "abd"), ("ZZ", "aa"), ("same", "SAME"), ("", "x"), ("a[", "A_")];
    for (a, b) in pairs.iter() {
        let forward = mystrcasecmp(AsciiString(a), AsciiString(b));
        let backward = mystrcasecmp(AsciiString(b), AsciiString(a));
        assert_eq!(forward, backward.reverse());
    }
}

#[test]
fn casecmp_is_reflexive() {
    for s in ["", "a", "Hello, World!"].iter() {
        assert_eq!(mystrcasecmp(AsciiString(s), AsciiString(s)), Ordering::Equal);
        assert_eq!(mystrncasecmp(AsciiString(s), AsciiString(s), 3), Ordering::Equal);
    }
}

#[test]
fn casecmp_ignores_case_of_letters_only() {
    assert_eq!(mystrcasecmp(AsciiString("abc"), AsciiString("ABC")), Ordering::Equal);
    // '[' (0x5B) sorts after 'Z' (0x5A) and before 'a' (0x61): letters are
    // compared upper-cased.
    assert_eq!(mystrcasecmp(AsciiString("a"), AsciiString("[")), Ordering::Less);
    assert_eq!(mystrcasecmp(AsciiString("z"), AsciiString("[")), Ordering::Less);
    assert_eq!(mystrcasecmp(AsciiString("_"), AsciiString("Z")), Ordering::Greater);
}

#[test]
fn ncasecmp_limits() {
    // A limit of zero compares nothing.
    assert_eq!(mystrncasecmp(AsciiString("abc"), AsciiString("xyz"), 0), Ordering::Equal);
    // A long limit compares as mystrcasecmp does.
    assert_eq!(
        mystrncasecmp(AsciiString("abc"), AsciiString("abD"), usize::MAX),
        mystrcasecmp(AsciiString("abc"), AsciiString("abD"))
    );
    assert_eq!(mystrncasecmp(AsciiString("abc"), AsciiString("abD"), 2), Ordering::Equal);
    assert_eq!(mystrncasecmp(AsciiString("abc"), AsciiString("abD"), 3), Ordering::Less);
}

#[test]
fn casecmp_compares_bytes_beyond_ascii() {
    // 'é' is two bytes; the shorter string is one character of two bytes.
    assert_eq!(mystrcasecmp(AsciiString("é"), AsciiString("éa")), Ordering::Equal);
    assert_eq!(mystrcasecmp(AsciiString("é"), AsciiString("ab")), Ordering::Greater);
}

#[test]
fn search_ignoring_case() {
    assert_eq!(strindex(AsciiString("Foobar"), AsciiString("foo"), false), Some(0));
    assert_eq!(strindex(AsciiString("xFOOfoo"), AsciiString("foo"), false), Some(1));
    assert_eq!(strrindex(AsciiString("xFOOfoo"), AsciiString("FOO"), false), Some(4));
    assert_eq!(strrindex(AsciiString("xFOOfoo"), AsciiString("FOO"), true), Some(1));
}

#[test]
fn search_edge_cases() {
    assert_eq!(strindex(AsciiString(""), AsciiString(""), true), Some(0));
    assert_eq!(strrindex(AsciiString(""), AsciiString(""), true), Some(0));
    assert_eq!(strindex(AsciiString("ab"), AsciiString("abc"), true), None);
    assert_eq!(strrindex(AsciiString("ab"), AsciiString("abc"), true), None);
    assert_eq!(strindex(AsciiString("aaaa"), AsciiString("aa"), true), Some(0));
    assert_eq!(strrindex(AsciiString("aaaa"), AsciiString("aa"), true), Some(2));
    assert_eq!(strindex(AsciiString("abc"), AsciiString("abc"), true), Some(0));
    assert_eq!(strrindex(AsciiString("abc"), AsciiString("abc"), true), Some(0));
}

#[test]
fn search_offsets_are_bytes() {
    // 'é' takes two bytes, so 'x' starts at byte 2.
    assert_eq!(strindex(AsciiString("éx"), AsciiString("x"), true), Some(2));
    assert_eq!(strrindex(AsciiString("éxéx"), AsciiString("éx"), false), Some(3));
}

#[test]
fn first_occurrence_not_after_last() {
    let cases = [("abcabc", "bc"), ("abc", "d"), ("mississippi", "ssi"), ("xy", "")];
    for (hay, needle) in cases.iter() {
        let first = strindex(AsciiString(hay), AsciiString(needle), true);
        let last = strrindex(AsciiString(hay), AsciiString(needle), true);
        assert_eq!(first.is_some(), last.is_some());
        if let (Some(i), Some(j)) = (first, last) {
            assert!(i <= j);
        }
    }
}

#[test]
fn c_conventions() {
    assert_eq!(ordering_to_c_int(Ordering::Less), -1);
    assert_eq!(ordering_to_c_int(Ordering::Equal), 0);
    assert_eq!(ordering_to_c_int(Ordering::Greater), 1);
    assert_eq!(position_to_c_int(None), 0);
    assert_eq!(position_to_c_int(Some(0)), 1);
    assert_eq!(position_to_c_int(Some(41)), 42);
}
