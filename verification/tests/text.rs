use aether::text::{
    characters, fill_left, number, pad_left, pad_right, part, replace, same, strip,
    to_ascii_lowercase, trim,
};

const SAMPLES: [&str; 8] = [
    "",
    " ",
    "  a b \t\r\n",
    "\u{2003}x\u{a0}\u{3000}",
    "\u{200b}y\u{feff}",
    "ΑΘΗΝΑ",
    "MiXeD Ä",
    "\u{85}\u{1680}z\u{2028}\u{2029}\u{202f}\u{205f}",
];

#[test]
fn trimming_is_that_of_the_standard_library() {
    for s in SAMPLES {
        assert_eq!(trim(s), s.trim());
    }
}

#[test]
fn every_white_character_is_trimmed_and_no_other() {
    for c in (0..=0x10ffff).filter_map(char::from_u32).filter(|c| *c as u32 <= 0x3100) {
        let s = c.to_string();
        assert_eq!(trim(&s).is_empty(), c.is_whitespace(), "{:x}", c as u32);
    }
}

#[test]
fn letters_are_lowered_as_the_standard_library_does() {
    for s in SAMPLES {
        assert_eq!(to_ascii_lowercase(s), s.to_ascii_lowercase());
    }
}

#[test]
fn quotes_are_stripped_on_both_sides() {
    for s in ["", "\"\"", "\"\"x\"", "x", "a\"b", "\"\"\""] {
        assert_eq!(strip(s, '"'), s.trim_matches('"'));
    }
}

#[test]
fn patterns_are_replaced_from_the_left() {
    for (s, p, w) in [
        ("aaaa", "aa", "b"),
        ("aaa", "aa", "aa"),
        ("{lat}/{lat}", "{lat}", "1"),
        ("{la{lat}", "{lat}", "{lat}"),
        ("", "x", "y"),
        ("ΑΘΗΝΑ", "Α", ""),
        ("short", "longer than it", "z"),
    ] {
        assert_eq!(replace(s, p, w), s.replace(p, w));
    }
}

#[test]
fn numbers_and_padding() {
    for n in [0, 9, 10, 42, 1_000_000, u128::MAX] {
        assert_eq!(number(n), n.to_string());
    }
    for s in ["", "ab", "abcdef", "±°"] {
        assert_eq!(pad_right(s, 4), format!("{s:<4}"));
        assert_eq!(pad_left(s, 4), format!("{s:>4}"));
    }
    assert_eq!(fill_left("7", 2, '0'), "07");
    assert_eq!(fill_left("123", 2, '0'), "123");
}

#[test]
fn texts_are_compared_by_character() {
    assert!(same("ΑΘΗΝΑ", "ΑΘΗΝΑ"));
    assert!(!same("a", "b"));
    assert!(!same("a", "ab"));
    assert_eq!(part(&characters("ΑΘΗΝΑ"), 1, 3), "ΘΗ");
}
