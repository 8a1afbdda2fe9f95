use qtpl::span::{gap, SpanPos};
use qtpl::tags::{text_eq, whitespace_insensitive};
use qtpl::text::{append_chars, chars_of, collapse, is_whitespace, trim_end, trim_start};

fn chars(s: &str) -> Vec<char> {
    s.chars().collect()
}

fn collapsed(s: &str) -> String {
    collapse(&chars(s)).into_iter().collect()
}

#[test]
fn gap_is_inequality_of_offsets() {
    assert!(!gap(3, 3));
    assert!(gap(3, 4));
    assert!(gap(4, 3));
    assert!(!gap(0, 0));
    assert!(gap(0, usize::MAX));
}

#[test]
fn move_end_takes_the_end_and_keeps_the_start() {
    let mut s = SpanPos { start: 2, end: 3 };
    s.move_end(SpanPos { start: 7, end: 9 });
    assert_eq!(s, SpanPos { start: 2, end: 9 });
}

#[test]
fn default_span_is_empty() {
    assert_eq!(SpanPos::default(), SpanPos { start: 0, end: 0 });
}

#[test]
fn span_is_read_from_its_description() {
    assert_eq!(SpanPos::from_debug("#0 bytes(12..15)"), Some(SpanPos { start: 12, end: 15 }));
    assert_eq!(SpanPos::from_debug("bytes(1..2)"), Some(SpanPos { start: 1, end: 2 }));
    assert_eq!(SpanPos::from_debug("(0..0)"), Some(SpanPos { start: 0, end: 0 }));
    assert_eq!(SpanPos::from_debug("bytes(+7..+8)"), Some(SpanPos { start: 7, end: 8 }));
    assert_eq!(SpanPos::from_debug("bytes(007..010)"), Some(SpanPos { start: 7, end: 10 }));
}

#[test]
fn span_description_without_a_span_gives_none() {
    assert_eq!(SpanPos::from_debug(""), None);
    assert_eq!(SpanPos::from_debug("Span"), None);
    assert_eq!(SpanPos::from_debug("bytes(12,15)"), None);
    assert_eq!(SpanPos::from_debug("bytes(..3)"), None);
    assert_eq!(SpanPos::from_debug("bytes(1..)"), None);
    assert_eq!(SpanPos::from_debug("bytes(1.."), None);
    assert_eq!(SpanPos::from_debug("bytes(a..2)"), None);
    assert_eq!(SpanPos::from_debug("bytes(1..b)"), None);
    assert_eq!(SpanPos::from_debug("bytes(-1..2)"), None);
    assert_eq!(SpanPos::from_debug("1..2)("), None);
    assert_eq!(SpanPos::from_debug("v1.0 bytes(1..2)"), None);
}

#[test]
fn span_numbers_must_fit_the_word() {
    let max = usize::MAX;
    assert_eq!(
        SpanPos::from_debug(&format!("bytes({}..{})", max, max)),
        Some(SpanPos { start: max, end: max })
    );
    assert_eq!(SpanPos::from_debug(&format!("bytes({}0..1)", max)), None);
    assert_eq!(SpanPos::from_debug("bytes(1..99999999999999999999999999999999)"), None);
    assert_eq!(SpanPos::from_debug("bytes(18446744073709551616..1)"), None);
}

#[test]
fn whitespace_is_the_unicode_set() {
    for c in [' ', '\t', '\n', '\r', '\u{0B}', '\u{0C}', '\u{85}', '\u{A0}', '\u{1680}'] {
        assert!(is_whitespace(c), "{:?}", c);
    }
    for c in ['\u{2000}', '\u{200A}', '\u{2028}', '\u{2029}', '\u{202F}', '\u{205F}', '\u{3000}'] {
        assert!(is_whitespace(c), "{:?}", c);
    }
    for c in ['a', '0', '<', '\u{08}', '\u{0E}', '\u{200B}', '\u{FEFF}', '\u{1F}'] {
        assert!(!is_whitespace(c), "{:?}", c);
    }
}

#[test]
fn whitespace_agrees_with_the_standard_library() {
    let mut n = 0u32;
    while n < 0x3100 {
        if let Some(c) = char::from_u32(n) {
            assert_eq!(is_whitespace(c), c.is_whitespace(), "{:?}", c);
        }
        n += 1;
    }
}

#[test]
fn collapse_reduces_every_run_to_one_space() {
    assert_eq!(collapsed(""), "");
    assert_eq!(collapsed("abc"), "abc");
    assert_eq!(collapsed("a b"), "a b");
    assert_eq!(collapsed("a   b"), "a b");
    assert_eq!(collapsed("a \n\t b"), "a b");
    assert_eq!(collapsed("\n"), " ");
    assert_eq!(collapsed("   "), " ");
    assert_eq!(collapsed("  a  "), " a ");
    assert_eq!(collapsed("a\tb\nc"), "a b c");
    assert_eq!(collapsed("a\u{A0}\u{3000}b"), "a b");
}

#[test]
fn collapse_is_idempotent() {
    for s in ["", " ", "a", "  a \n b\t\tc  ", "x  y", "\u{2003}\u{2003}z", "no-space"] {
        let once = collapsed(s);
        assert_eq!(collapsed(&once), once, "{:?}", s);
    }
}

#[test]
fn collapse_leaves_single_spaces_alone() {
    for s in ["a b c", " a b ", "<a>Hello, world!</a>", "x"] {
        assert_eq!(collapsed(s), s);
    }
}

#[test]
fn trim_end_drops_trailing_whitespace_only() {
    let mut v = chars("  a b \n\t");
    trim_end(&mut v);
    assert_eq!(v, chars("  a b"));
    let mut all = chars(" \n ");
    trim_end(&mut all);
    assert_eq!(all, chars(""));
    let mut none = chars("ab");
    trim_end(&mut none);
    assert_eq!(none, chars("ab"));
    let mut empty = chars("");
    trim_end(&mut empty);
    assert_eq!(empty, chars(""));
}

#[test]
fn trim_start_drops_leading_whitespace_only() {
    assert_eq!(trim_start(&chars(" \n a b ")), chars("a b "));
    assert_eq!(trim_start(&chars("   ")), chars(""));
    assert_eq!(trim_start(&chars("ab")), chars("ab"));
    assert_eq!(trim_start(&chars("")), chars(""));
}

#[test]
fn chars_of_gives_every_character() {
    assert_eq!(chars_of(""), chars(""));
    assert_eq!(chars_of("abc"), chars("abc"));
    assert_eq!(chars_of("h\u{e9}llo \u{2713}"), vec!['h', '\u{e9}', 'l', 'l', 'o', ' ', '\u{2713}']);
}

#[test]
fn append_chars_adds_at_the_end() {
    let mut v = chars("ab");
    append_chars(&mut v, &chars("cd"));
    assert_eq!(v, chars("abcd"));
    append_chars(&mut v, &chars(""));
    assert_eq!(v, chars("abcd"));
}

#[test]
fn text_eq_compares_characters() {
    assert!(text_eq("", ""));
    assert!(text_eq("div", "div"));
    assert!(!text_eq("div", "Div"));
    assert!(!text_eq("div", "di"));
    assert!(!text_eq("", "a"));
}

#[test]
fn block_level_tags_are_whitespace_insensitive() {
    let names = [
        "!doctype", "address", "article", "aside", "blockquote", "body", "br", "caption", "col",
        "colgroup", "dd", "div", "dl", "dt", "embed", "fieldset", "figcaption", "figure",
        "footer", "form", "h1", "h2", "h3", "h4", "h5", "h6", "head", "header", "hgroup", "hr",
        "html", "li", "main", "meta", "nav", "noscript", "ol", "output", "p", "pre", "section",
        "style", "table", "tbody", "td", "tfoot", "th", "thead", "title", "tr", "ul",
    ];
    assert_eq!(names.len(), 51);
    for name in names {
        assert!(whitespace_insensitive(name), "{}", name);
    }
}

#[test]
fn other_tags_are_whitespace_sensitive() {
    for name in ["a", "i", "b", "span", "strong", "em", "", "DIV", "Div", "div ", "br/", "h7", "doctype"] {
        assert!(!whitespace_insensitive(name), "{:?}", name);
    }
}
