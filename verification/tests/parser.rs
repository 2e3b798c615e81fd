use bft::parser::{
    fallback_parse, find_last_pipe_index, get_command_after_pipe, parse_shell_line, parse_tokens,
    unquote_string, Token,
};

#[test]
fn test_parse_simple() {
    let input = "ls -la";
    let parsed = parse_shell_line(input, 2).unwrap();
    assert_eq!(parsed.words, vec!["ls", "-la"]);
    assert_eq!(parsed.current_word_index, 0);

    let parsed = parse_shell_line(input, 3).unwrap();
    assert_eq!(parsed.current_word_index, 1);
    assert_eq!(parsed.words[1], "-la");
}

#[test]
fn test_parse_gap() {
    let input = "ls  -la";
    let parsed = parse_shell_line(input, 3).unwrap();
    assert_eq!(parsed.words, vec!["ls", "", "-la"]);
    assert_eq!(parsed.current_word_index, 1);
    assert_eq!(parsed.words[1], "");
}

#[test]
fn test_parse_quoted() {
    let input = "echo 'hello world'";
    let parsed = parse_shell_line(input, 10).unwrap();
    assert_eq!(parsed.words, vec!["echo", "hello world"]);
    assert_eq!(parsed.raw_words, vec!["echo", "'hello world'"]);
    assert_eq!(parsed.current_word_index, 1);
}

#[test]
fn test_parse_trailing_space() {
    let input = "ls ";
    let parsed = parse_shell_line(input, 3).unwrap();
    assert_eq!(parsed.words, vec!["ls", ""]);
    assert_eq!(parsed.current_word_index, 1);
}

#[test]
fn test_adjacent_tokens() {
    let input = "echo \"a\"\"b\"";
    let parsed = parse_shell_line(input, 9).unwrap();
    assert_eq!(parsed.words, vec!["echo", "ab"]);
}

#[test]
fn test_parse_chinese() {
    let input = "ls 中文";
    let parsed = parse_shell_line(input, 9).unwrap();
    assert_eq!(parsed.words, vec!["ls", "中文"]);
    assert_eq!(parsed.current_word_index, 1);
}

#[test]
fn test_parse_mixed_utf8() {
    let input = "git checkout feature-中文";
    let parsed = parse_shell_line(input, 10).unwrap();
    assert_eq!(parsed.words, vec!["git", "checkout", "feature-中文"]);
    assert_eq!(parsed.current_word_index, 1);
}

#[test]
fn test_find_last_pipe_index() {
    let words = vec![
        "cat".to_string(),
        "foo.txt".to_string(),
        "|".to_string(),
        "grep".to_string(),
    ];
    assert_eq!(find_last_pipe_index(&words), Some(2));

    let words_no_pipe = vec!["ls".to_string(), "-la".to_string()];
    assert_eq!(find_last_pipe_index(&words_no_pipe), None);
}

#[test]
fn test_get_command_after_pipe() {
    let words = vec![
        "cat".to_string(),
        "foo.txt".to_string(),
        "|".to_string(),
        "grep".to_string(),
        "bar".to_string(),
    ];
    let result = get_command_after_pipe(&words);
    assert_eq!(result, Some(("grep".to_string(), vec!["bar".to_string()])));

    let words_no_pipe = vec!["ls".to_string(), "-la".to_string()];
    assert_eq!(get_command_after_pipe(&words_no_pipe), None);

    let words_empty_after_pipe =
        vec!["cat".to_string(), "foo.txt".to_string(), "|".to_string()];
    assert_eq!(get_command_after_pipe(&words_empty_after_pipe), None);
}

#[test]
fn test_fallback_parse() {
    let input = "ls $(cat ";
    let parsed = parse_shell_line(input, 9).unwrap();
    assert_eq!(parsed.words, vec!["ls", "$(cat", ""]);
    assert_eq!(parsed.current_word_index, 2);
}

#[test]
fn fallback_keeps_quotes_and_escapes() {
    let parsed = fallback_parse("echo 'a b' c\\ d \"e", 3);
    assert_eq!(parsed.words, vec!["echo", "'a b'", "c\\ d", "\"e"]);
    assert_eq!(parsed.raw_words, parsed.words);
    assert_eq!(parsed.current_word_index, 0);
}

#[test]
fn fallback_cursor_between_words_gets_empty_word() {
    let parsed = fallback_parse("ls   -la", 4);
    assert_eq!(parsed.words, vec!["ls", "", "-la"]);
    assert_eq!(parsed.current_word_index, 1);
}

#[test]
fn fallback_cursor_before_first_word_takes_it() {
    let parsed = fallback_parse("   ls -la", 1);
    assert_eq!(parsed.words, vec!["ls", "-la"]);
    assert_eq!(parsed.current_word_index, 0);
}

#[test]
fn fallback_line_without_words() {
    let parsed = fallback_parse("   ", 2);
    assert_eq!(parsed.words, vec![""]);
    assert_eq!(parsed.current_word_index, 0);
}

#[test]
fn fallback_multibyte_ranges_are_bytes() {
    // "中文" takes bytes 0..6, "ls" bytes 7..9
    let parsed = fallback_parse("中文 ls", 6);
    assert_eq!(parsed.words, vec!["中文", "ls"]);
    assert_eq!(parsed.current_word_index, 0);
    let parsed = fallback_parse("中文 ls", 7);
    assert_eq!(parsed.current_word_index, 1);
}

#[test]
fn blank_line_is_one_empty_word() {
    let parsed = parse_shell_line("", 0).unwrap();
    assert_eq!(parsed.words, vec![""]);
    assert_eq!(parsed.raw_words, vec![""]);
    assert_eq!(parsed.current_word_index, 0);
    let parsed = parse_shell_line("   ", 2).unwrap();
    assert_eq!(parsed.words, vec![""]);
    assert_eq!(parsed.current_word_index, 0);
}

#[test]
fn cursor_at_token_end_attaches_to_it() {
    let parsed = parse_shell_line("ls -la", 2).unwrap();
    assert_eq!(parsed.current_word_index, 0);
    let parsed = parse_shell_line("ls  -la", 2).unwrap();
    assert_eq!(parsed.words, vec!["ls", "-la"]);
    assert_eq!(parsed.current_word_index, 0);
    let parsed = parse_shell_line("ls  -la", 4).unwrap();
    assert_eq!(parsed.words, vec!["ls", "-la"]);
    assert_eq!(parsed.current_word_index, 1);
}

#[test]
fn cursor_in_leading_gap_gets_empty_word() {
    let parsed = parse_shell_line("  ls", 0).unwrap();
    assert_eq!(parsed.words, vec!["", "ls"]);
    assert_eq!(parsed.current_word_index, 0);
}

#[test]
fn parse_tokens_places_cursor() {
    let tokens = vec![
        Token { text: "echo".to_string(), start: 0, end: 4 },
        Token { text: "'a b'".to_string(), start: 7, end: 12 },
    ];
    let parsed = parse_tokens("echo   'a b'  ", &tokens, 5);
    assert_eq!(parsed.words, vec!["echo", "", "a b"]);
    assert_eq!(parsed.raw_words, vec!["echo", "", "'a b'"]);
    assert_eq!(parsed.current_word_index, 1);
    assert_eq!(parsed.cursor_position, 5);

    let parsed = parse_tokens("echo   'a b'  ", &tokens, 14);
    assert_eq!(parsed.words, vec!["echo", "a b", ""]);
    assert_eq!(parsed.current_word_index, 2);

    let parsed = parse_tokens("echo   'a b'", &tokens, 12);
    assert_eq!(parsed.words, vec!["echo", "a b"]);
    assert_eq!(parsed.current_word_index, 1);
}

#[test]
fn parse_tokens_without_tokens() {
    let parsed = parse_tokens("# note", &Vec::new(), 0);
    assert_eq!(parsed.words, vec![""]);
    assert_eq!(parsed.current_word_index, 0);
}

#[test]
fn unquote_removes_quotes_and_backslashes() {
    assert_eq!(unquote_string("'hello world'"), "hello world");
    assert_eq!(unquote_string("a\\ b"), "a b");
    assert_eq!(unquote_string("\"a\"\"b\""), "ab");
    assert_eq!(unquote_string("a\\\\b"), "a\\b");
    assert_eq!(unquote_string("plain"), "plain");
}

#[test]
fn multibyte_text_in_front_of_a_token() {
    let parsed = parse_shell_line("中文 ls", 9).unwrap();
    assert_eq!(parsed.words, vec!["中文", "ls"]);
    assert_eq!(parsed.current_word_index, 1);
    let parsed = parse_shell_line("中文 ls", 6).unwrap();
    assert_eq!(parsed.current_word_index, 0);
    let parsed = parse_shell_line("中文  ls", 7).unwrap();
    assert_eq!(parsed.words, vec!["中文", "", "ls"]);
    assert_eq!(parsed.current_word_index, 1);
    let parsed = parse_shell_line("echo 'é è' ü ", 16).unwrap();
    assert_eq!(parsed.words, vec!["echo", "é è", "ü", ""]);
    assert_eq!(parsed.raw_words, vec!["echo", "'é è'", "ü", ""]);
    assert_eq!(parsed.current_word_index, 3);
}

#[test]
fn character_spans_become_byte_spans() {
    let counted = vec![
        Token { text: "中文".to_string(), start: 0, end: 2 },
        Token { text: "ls".to_string(), start: 3, end: 5 },
        Token { text: "x".to_string(), start: 5, end: 99 },
    ];
    let spanned = bft::parser::to_byte_spans("中文 ls", &counted);
    let spans: Vec<(String, usize, usize)> =
        spanned.iter().map(|t| (t.text.clone(), t.start, t.end)).collect();
    assert_eq!(
        spans,
        vec![
            ("中文".to_string(), 0, 6),
            ("ls".to_string(), 7, 9),
            ("x".to_string(), 9, 9),
        ]
    );
}

#[test]
fn parse_tokens_takes_byte_spans() {
    // "中文" takes bytes 0..6, "ls" bytes 7..9
    let tokens = vec![
        Token { text: "中文".to_string(), start: 0, end: 6 },
        Token { text: "ls".to_string(), start: 7, end: 9 },
    ];
    let parsed = parse_tokens("中文 ls", &tokens, 9);
    assert_eq!(parsed.words, vec!["中文", "ls"]);
    assert_eq!(parsed.current_word_index, 1);
    // a cursor inside a character counts as behind it
    let parsed = parse_tokens("中文 ls", &tokens, 4);
    assert_eq!(parsed.current_word_index, 0);
}

#[test]
fn parse_error_messages() {
    assert_eq!(
        bft::parser::ParseError::TokenizationError("x".to_string()).message(),
        "Failed to tokenize input: x"
    );
    assert_eq!(
        bft::parser::ParseError::ParsingError("x".to_string()).message(),
        "Failed to parse tokens: x"
    );
    assert_eq!(
        bft::parser::ParseError::WordExtractionError.message(),
        "Failed to extract words from AST"
    );
    assert_eq!(
        bft::parser::ParseError::CursorOutOfBounds.message(),
        "Cursor position out of bounds"
    );
    assert_eq!(bft::parser::ParseError::Other("x".to_string()).message(), "Other error: x");
}

fn plain_line(seed: &mut u64) -> String {
    let alphabet = ['a', 'Z', '0', '9', '-', '.', '/', ' ', ' ', ' '];
    let mut next = || {
        *seed = seed.wrapping_mul(6364136223846793005).wrapping_add(1442695040888963407);
        (*seed >> 33) as usize
    };
    let len = next() % 12;
    (0..len).map(|_| alphabet[next() % alphabet.len()]).collect()
}

#[test]
fn plain_lines_split_at_their_blanks() {
    let mut seed = 7u64;
    for _ in 0..400 {
        let line = plain_line(&mut seed);
        let expected: Vec<String> = line.split_whitespace().map(|w| w.to_string()).collect();
        for cursor in 0..=line.len() + 1 {
            let parsed = parse_shell_line(&line, cursor).unwrap();
            assert_eq!(parsed.raw_words, parsed.words);
            assert!(parsed.current_word_index < parsed.words.len());
            let mut without_empty = parsed.words.clone();
            if parsed.words != expected {
                assert_eq!(parsed.words[parsed.current_word_index], "");
                without_empty.remove(parsed.current_word_index);
            }
            assert_eq!(without_empty, expected);

            let bytes = line.as_bytes();
            let c = cursor.min(line.len());
            let touches_word = (c < bytes.len() && bytes[c] != b' ')
                || (c > 0 && bytes[c - 1] != b' ');
            if touches_word {
                assert_eq!(parsed.words, expected);
            }
        }
    }
}

#[test]
fn cursor_between_two_words_gets_the_empty_word() {
    for blanks in 2..5 {
        let line = format!("ls{}-la", " ".repeat(blanks));
        for cursor in 3..2 + blanks {
            let parsed = parse_shell_line(&line, cursor).unwrap();
            assert_eq!(parsed.words, vec!["ls", "", "-la"]);
            assert_eq!(parsed.raw_words, vec!["ls", "", "-la"]);
            assert_eq!(parsed.current_word_index, 1);
        }
    }
}
