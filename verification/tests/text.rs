use bms_score_manager::text::{
    ascii_lower_char, ascii_upper_char, chars_less, is_whitespace_char, str_to_chars, trim_chars,
};

#[test]
fn whitespace_agrees_with_std() {
    for u in 0u32..=0x10FFFF {
        if let Some(c) = char::from_u32(u) {
            assert_eq!(is_whitespace_char(c), c.is_whitespace(), "U+{u:04X}");
        }
    }
}

#[test]
fn ascii_case_agrees_with_std() {
    for u in 0u32..0x300 {
        if let Some(c) = char::from_u32(u) {
            assert_eq!(ascii_lower_char(c), c.to_ascii_lowercase());
            assert_eq!(ascii_upper_char(c), c.to_ascii_uppercase());
        }
    }
}

#[test]
fn trim_agrees_with_std() {
    for s in ["  a b  ", "\u{3000}x\u{a0}", "", "   ", "\tq\n", "\u{200b}z"] {
        let t: String = trim_chars(&str_to_chars(s)).into_iter().collect();
        assert_eq!(t, s.trim());
    }
}

#[test]
fn code_point_order_agrees_with_str_order() {
    let words = ["", "a", "A", "ab", "a-c", "a/z", "é", "日本", "z"];
    for x in words {
        for y in words {
            assert_eq!(chars_less(&str_to_chars(x), &str_to_chars(y)), x < y, "{x} {y}");
        }
    }
}

#[test]
fn cjk_ideographs_and_ascii_lowercase_as_ascii() {
    let ideographs: String = (0x4E00u32..=0x9FFF).filter_map(char::from_u32).collect();
    assert_eq!(ideographs.to_lowercase(), ideographs);
    let ascii: String = (0u8..128).map(|b| b as char).collect();
    assert_eq!(ascii.to_lowercase(), ascii.to_ascii_lowercase());
    assert_eq!("差分".to_lowercase(), "差分");
}
