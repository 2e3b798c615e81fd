use bft::parser::byte_to_char_index;
use bft::text::{
    all_white_space, char_width, chars_precede, nth_word_of, replace_char, starts_with, starts_with_lowercase,
    str_byte_len, str_eq, to_chars, to_decimal, trim,
};

#[test]
fn byte_offsets_become_character_offsets() {
    let s = "ls 中文";
    assert_eq!(byte_to_char_index(s, 0), 0);
    assert_eq!(byte_to_char_index(s, 3), 3);
    assert_eq!(byte_to_char_index(s, 4), 4);
    assert_eq!(byte_to_char_index(s, 6), 4);
    assert_eq!(byte_to_char_index(s, 7), 5);
    assert_eq!(byte_to_char_index(s, 9), 5);
    assert_eq!(byte_to_char_index(s, 100), 5);
    assert_eq!(byte_to_char_index("", 3), 0);
}

#[test]
fn byte_to_char_index_counts_like_char_indices() {
    let s = "aé中😀b";
    for b in 0..=s.len() + 2 {
        let expected = s.char_indices().take_while(|(i, _)| *i < b).count();
        assert_eq!(byte_to_char_index(s, b), expected);
    }
}

#[test]
fn character_widths() {
    assert_eq!(char_width('a'), 1);
    assert_eq!(char_width('\u{7f}'), 1);
    assert_eq!(char_width('é'), 2);
    assert_eq!(char_width('\u{7ff}'), 2);
    assert_eq!(char_width('中'), 3);
    assert_eq!(char_width('\u{ffff}'), 3);
    assert_eq!(char_width('😀'), 4);
    for c in ['a', 'é', '中', '😀', '\u{80}', '\u{800}', '\u{10000}'] {
        assert_eq!(char_width(c), c.len_utf8());
    }
    assert_eq!(str_byte_len("aé中😀"), 10);
    assert_eq!(to_chars("aé"), vec!['a', 'é']);
}

#[test]
fn comparing_text() {
    assert!(str_eq("abc", "abc"));
    assert!(!str_eq("abc", "abd"));
    assert!(!str_eq("abc", "ab"));
    assert!(starts_with("abc", "ab"));
    assert!(starts_with("abc", ""));
    assert!(!starts_with("ab", "abc"));
    assert!(starts_with_lowercase("Git Status", "git s"));
    assert!(starts_with_lowercase("git", "GIT"));
    assert!(!starts_with_lowercase("git", "gitk"));
}

#[test]
fn order_of_strings_is_that_of_std() {
    let samples = ["", "a", "ab", "b", "B", "é", "中", "abc", "ab "];
    for x in samples {
        for y in samples {
            assert_eq!(chars_precede(&to_chars(x), &to_chars(y)), x < y);
        }
    }
}

#[test]
fn trimming() {
    assert_eq!(trim("  a b \t\n"), "a b");
    assert_eq!(trim("a"), "a");
    assert_eq!(trim("   "), "");
    assert_eq!(trim(""), "");
    assert_eq!(trim("\u{a0}x\u{3000}"), "x");
}

#[test]
fn words_by_number() {
    assert_eq!(nth_word_of("  git   checkout main ", 0), Some("git".to_string()));
    assert_eq!(nth_word_of("  git   checkout main ", 1), Some("checkout".to_string()));
    assert_eq!(nth_word_of("  git   checkout main ", 2), Some("main".to_string()));
    assert_eq!(nth_word_of("  git   checkout main ", 3), None);
    assert_eq!(nth_word_of("", 0), None);
    assert_eq!(nth_word_of("   ", 0), None);
}

#[test]
fn replacing_and_digits() {
    assert_eq!(replace_char("it's 'x'", '\'', "'\\''"), "it'\\''s '\\''x'\\''");
    assert_eq!(replace_char("abc", 'x', "y"), "abc");
    assert_eq!(to_decimal(0), "0");
    assert_eq!(to_decimal(7), "7");
    assert_eq!(to_decimal(10), "10");
    assert_eq!(to_decimal(12345), "12345");
    assert_eq!(to_decimal(usize::MAX), usize::MAX.to_string());
}

fn has_white_space_property(c: char) -> bool {
    matches!(
        c as u32,
        0x09..=0x0D
            | 0x20
            | 0x85
            | 0xA0
            | 0x1680
            | 0x2000..=0x200A
            | 0x2028
            | 0x2029
            | 0x202F
            | 0x205F
            | 0x3000
    )
}

#[test]
fn white_space_is_the_unicode_set() {
    let mut count = 0;
    for u in 0..=0x10FFFFu32 {
        if let Some(c) = char::from_u32(u) {
            let expected = has_white_space_property(c);
            assert_eq!(all_white_space(&vec![c]), expected);
            assert_eq!(c.is_whitespace(), expected);
            if expected {
                count += 1;
            }
        }
    }
    assert_eq!(count, 25);
}
