use simplealbum::text::{
    decimal_chars, from_chars, is_blank, join_chars, replace_chars, same_text, split_chars,
    text_at_most, to_chars, trim_chars, trim_end_chars,
};
use simplealbum::util::lower_extension;

#[test]
fn texts_split_and_join() {
    for text in ["", "a", "a/b", "/", "a//b/", "\u{e9}/\u{1f4f7}"] {
        let parts = split_chars(&to_chars(text), '/');
        let expected: Vec<String> = text.split('/').map(str::to_string).collect();
        let found: Vec<String> = parts.iter().map(|p| from_chars(p)).collect();
        assert_eq!(found, expected);
        assert_eq!(from_chars(&join_chars(&parts, '/')), text);
    }
}

#[test]
fn texts_are_trimmed_as_the_standard_library_does() {
    for text in ["", " a ", "\u{a0}b\u{3000}", "\t\n", "\u{200b}c", "d\u{85}"] {
        assert_eq!(from_chars(&trim_chars(&to_chars(text))), text.trim());
        assert_eq!(is_blank(text), text.trim().is_empty());
    }
    for c in '\0'..='\u{10ffff}' {
        assert_eq!(is_blank(&c.to_string()), c.is_whitespace(), "{:x}", c as u32);
    }
    assert_eq!(from_chars(&trim_end_chars(&to_chars("a//"), '/')), "a");
}

#[test]
fn texts_are_ordered_by_their_characters() {
    let texts = ["", "A", "a", "aa", "b", "\u{e9}", "\u{fffd}", "\u{1f4f7}"];
    for a in texts {
        for b in texts {
            assert_eq!(text_at_most(&to_chars(a), &to_chars(b)), a <= b, "{a} {b}");
            assert_eq!(same_text(a, b), a == b);
        }
    }
}

#[test]
fn characters_are_replaced() {
    let spaced = replace_chars(&to_chars("a/b/"), '/', &to_chars(" / "));
    assert_eq!(from_chars(&spaced), "a / b / ");
}

#[test]
fn numbers_are_written_in_decimal() {
    for n in [0, 7, 10, 409, 1_000_000, u64::MAX] {
        assert_eq!(from_chars(&decimal_chars(n)), n.to_string());
    }
}

#[test]
fn extensions_are_compared_in_lowercase() {
    assert_eq!(lower_extension("a.JPG"), "jpg");
    assert_eq!(lower_extension("a.b.MP4"), "mp4");
    assert_eq!(lower_extension("README"), "readme");
    // Beyond ASCII the mapping of the standard library applies.
    assert_eq!(lower_extension("a.\u{c9}\u{130}"), "\u{c9}\u{130}".to_lowercase());
}
