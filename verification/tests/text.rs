use dashboard_metrics::text::{
    chars_of, compare_text, is_space_char, lower_char, parse_u64, to_ascii_lower, trim_end_char,
    TextOrder,
};

#[test]
fn whitespace_is_what_std_calls_whitespace() {
    for code in 0u32..=0x10FFFF {
        if let Some(c) = char::from_u32(code) {
            assert_eq!(is_space_char(c), c.is_whitespace(), "char U+{code:04X}");
        }
    }
}

#[test]
fn lower_char_is_ascii_lowercasing() {
    for code in 0u32..=0x3000 {
        if let Some(c) = char::from_u32(code) {
            assert_eq!(lower_char(c), c.to_ascii_lowercase(), "char U+{code:04X}");
        }
    }
    assert_eq!(to_ascii_lower("Spark-ÄÖ CLOUD"), "spark-ÄÖ cloud");
}

#[test]
fn chars_of_lists_every_char() {
    assert_eq!(chars_of("añ€😀"), vec!['a', 'ñ', '€', '😀']);
    assert!(chars_of("").is_empty());
}

#[test]
fn compare_text_orders_as_str_does() {
    let words = ["", "a", "b", "ab", "aa", "B", "é", "ä", "z", "😀", "\u{ffff}", "a\u{0}", "€"];
    for x in words {
        for y in words {
            let expected = match x.cmp(y) {
                std::cmp::Ordering::Less => TextOrder::Less,
                std::cmp::Ordering::Equal => TextOrder::Equal,
                std::cmp::Ordering::Greater => TextOrder::Greater,
            };
            assert_eq!(compare_text(x, y), expected, "{x:?} vs {y:?}");
        }
    }
}

#[test]
fn parse_u64_agrees_with_std() {
    let inputs = [
        "",
        "+",
        "-",
        "0",
        "+0",
        "-0",
        "007",
        "134217728000",
        "18446744073709551615",
        "18446744073709551616",
        "99999999999999999999999",
        "12a",
        " 1",
        "1 ",
        "++1",
        "1.5",
        "１",
    ];
    for s in inputs {
        assert_eq!(parse_u64(s), s.parse::<u64>().ok(), "input {s:?}");
    }
}

#[test]
fn trim_end_char_agrees_with_std() {
    for s in ["", "/", "///", "http://host:19999/", "http://host//", "a/b", "/a"] {
        assert_eq!(trim_end_char(s, '/'), s.trim_end_matches('/'), "input {s:?}");
    }
}
