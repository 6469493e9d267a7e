use runner::order::{lex_less, sort_indices};
use runner::text::{chars_of, is_space_char, parse_unsigned_at, trim_range};

#[test]
fn white_space_agrees_with_char_is_whitespace() {
    for u in 0u32..=0x10FFFF {
        if let Some(c) = char::from_u32(u) {
            assert_eq!(is_space_char(c), c.is_whitespace(), "U+{:04X}", u);
        }
    }
}

#[test]
fn trim_agrees_with_str_trim() {
    for s in ["", "  ", " a ", "\u{3000}x\u{2028}", "a b", "\t\n\r x y \u{85}"] {
        let v = chars_of(s);
        let (a, b) = trim_range(&v, 0, v.len());
        let got: String = v[a..b].iter().collect();
        assert_eq!(got, s.trim());
    }
}

#[test]
fn numbers_agree_with_str_parse() {
    for s in ["", "+", "-", "0", "+7", "-7", "12a", "18446744073709551615", "18446744073709551616", "++1", " 1", "00042"] {
        let v = chars_of(s);
        let ours = parse_unsigned_at(&v, 0, v.len(), u64::MAX);
        assert_eq!(ours, s.parse::<u64>().ok(), "{:?}", s);
        let small = parse_unsigned_at(&v, 0, v.len(), 65535);
        assert_eq!(small.map(|n| n as u16), s.parse::<u16>().ok(), "{:?}", s);
    }
    let v = chars_of("65536");
    assert_eq!(parse_unsigned_at(&v, 0, v.len(), 65535), None);
}

#[test]
fn text_order_is_byte_order() {
    let words = ["b", "a", "ab", "", "é", "z", "aa", "a"];
    for x in words {
        for y in words {
            assert_eq!(lex_less(&chars_of(x), &chars_of(y)), x.as_bytes() < y.as_bytes());
        }
    }
}

#[test]
fn sorting_is_stable() {
    let keys: Vec<Vec<char>> = ["c", "a", "b", "a", ""].iter().map(|s| chars_of(s)).collect();
    assert_eq!(sort_indices(&keys), vec![4, 1, 3, 2, 0]);
}
