use excel_splitter::text::{
    contains_text, i64_text, is_white_space, parse_usize, text_lt, trim_text, usize_text, bool_to_text,
};

#[test]
fn decimal_text_matches_std() {
    for n in [0usize, 1, 9, 10, 42, 100, 65535, 1_000_000, usize::MAX] {
        assert_eq!(usize_text(n), n.to_string());
    }
    for i in [0i64, 1, -1, 9, -10, 123456, i64::MIN, i64::MAX] {
        assert_eq!(i64_text(i), i.to_string());
    }
    assert_eq!(bool_to_text(true), "true");
    assert_eq!(bool_to_text(false), "false");
}

#[test]
fn white_space_matches_std_for_every_char() {
    for u in 0u32..=0x10FFFF {
        if let Some(c) = char::from_u32(u) {
            assert_eq!(is_white_space(c), c.is_whitespace(), "char {:x}", u);
        }
    }
}

#[test]
fn trim_matches_std() {
    let cases = ["", " ", "  a  ", "\tB\n", "a b", "\u{3000}列\u{3000}", "\u{a0}x\u{2028}", "xyz", " \u{85} "];
    for c in cases {
        assert_eq!(trim_text(c), c.trim());
    }
}

#[test]
fn parse_usize_matches_std() {
    let cases = [
        "", "+", "-", "0", "1", "+5", "-5", "007", "12a", " 1", "1 ", "18446744073709551615",
        "18446744073709551616", "99999999999999999999", "++1", "+0", "٣",
    ];
    for c in cases {
        assert_eq!(parse_usize(c), c.parse::<usize>().ok(), "case {:?}", c);
    }
}

#[test]
fn text_order_matches_std() {
    let words = ["", "a", "b", "ab", "abc", "B", "中", "中文", "z", "Ä", "a\u{10000}", "a\u{ffff}"];
    for x in words {
        for y in words {
            assert_eq!(text_lt(x, y), x < y, "{:?} < {:?}", x, y);
        }
    }
}

#[test]
fn contains_matches_std() {
    let hay = ["", "a", "abc", "分组写出失败", "完成！成功", "aaab"];
    let needles = ["", "a", "bc", "失败", "成功", "aab", "abcd", "c"];
    for h in hay {
        for n in needles {
            assert_eq!(contains_text(h, n), h.contains(n), "{:?} in {:?}", n, h);
        }
    }
}

#[test]
fn decimal_round_trip() {
    for n in [0usize, 7, 10, 99, 1000, usize::MAX] {
        assert_eq!(parse_usize(&usize_text(n)), Some(n));
    }
}
