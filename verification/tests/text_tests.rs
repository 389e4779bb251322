use biomass::text::{ascii_lower, chars_of, decimal_chars, is_white_space, parse_usize, replace_chars, trim_chars};

#[test]
fn white_space_agrees_with_std_on_every_char() {
    for code in 0u32..=0x10FFFF {
        if let Some(c) = char::from_u32(code) {
            assert_eq!(is_white_space(c), c.is_whitespace(), "U+{:04X}", code);
        }
    }
}

#[test]
fn trimming_agrees_with_std() {
    for s in ["  ru-RU \n", "\u{3000}x\u{A0}", "", "   ", "a b", "\t\u{2009}5\u{85}"] {
        let t: String = trim_chars(&chars_of(s)).into_iter().collect();
        assert_eq!(t, s.trim());
    }
}

#[test]
fn ascii_lowercasing_touches_only_capitals() {
    assert_eq!(ascii_lower('A'), 'a');
    assert_eq!(ascii_lower('Z'), 'z');
    assert_eq!(ascii_lower('a'), 'a');
    assert_eq!(ascii_lower('-'), '-');
    assert_eq!(ascii_lower('Ä'), 'Ä');
}

#[test]
fn decimal_text_and_parsing() {
    let s: String = decimal_chars(4096).into_iter().collect();
    assert_eq!(s, "4096");
    assert_eq!(parse_usize(&chars_of("+17")), Some(17));
    assert_eq!(parse_usize(&chars_of("")), None);
    assert_eq!(parse_usize(&chars_of("+")), None);
    assert_eq!(parse_usize(&chars_of("1x")), None);
    assert_eq!(parse_usize(&chars_of("99999999999999999999999")), None);
}

#[test]
fn replacement_scans_left_to_right() {
    let r: String = replace_chars(&chars_of("aaa"), &chars_of("aa"), &chars_of("b"))
        .into_iter()
        .collect();
    assert_eq!(r, "aaa".replace("aa", "b"));
    let r: String = replace_chars(&chars_of("{t} of {t}"), &chars_of("{t}"), &chars_of("7"))
        .into_iter()
        .collect();
    assert_eq!(r, "7 of 7");
}
