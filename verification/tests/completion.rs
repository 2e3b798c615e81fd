use bft::completion::CompletionContext;
use bft::parser::ParsedLine;

fn create_parsed(words: Vec<String>, current_word_index: usize) -> ParsedLine {
    ParsedLine::new(words.clone(), words, 0, current_word_index)
}

#[test]
fn test_completion_context_no_pipe() {
    let parsed = create_parsed(vec!["ls".to_string(), "-la".to_string()], 1);
    let ctx = CompletionContext::from_parsed(&parsed, "ls -la".to_string(), 3);

    assert!(!ctx.is_after_pipe);
    assert_eq!(ctx.command, "ls");
    assert_eq!(ctx.previous_command, None);
    assert!(ctx.pipe_command_args.is_empty());
}

#[test]
fn test_completion_context_after_pipe() {
    let parsed = create_parsed(
        vec![
            "cat".to_string(),
            "foo.txt".to_string(),
            "|".to_string(),
            "grep".to_string(),
            "bar".to_string(),
        ],
        4,
    );
    let ctx = CompletionContext::from_parsed(&parsed, "cat foo.txt | grep bar".to_string(), 20);

    assert!(ctx.is_after_pipe);
    assert_eq!(ctx.command, "grep");
    assert_eq!(ctx.previous_command, Some("foo.txt".to_string()));
    assert_eq!(ctx.pipe_command_args, vec!["bar".to_string()]);
}

#[test]
fn test_completion_context_at_pipe_command() {
    let parsed = create_parsed(
        vec![
            "cat".to_string(),
            "foo.txt".to_string(),
            "|".to_string(),
            "gre".to_string(),
        ],
        3,
    );
    let ctx = CompletionContext::from_parsed(&parsed, "cat foo.txt | gre".to_string(), 19);

    assert!(ctx.is_after_pipe);
    assert_eq!(ctx.command, "gre");
    assert_eq!(ctx.previous_command, Some("foo.txt".to_string()));
}

#[test]
fn test_completion_context_before_pipe() {
    let parsed = create_parsed(
        vec![
            "cat".to_string(),
            "foo.txt".to_string(),
            "|".to_string(),
            "grep".to_string(),
        ],
        1,
    );
    let ctx = CompletionContext::from_parsed(&parsed, "cat foo.txt | grep".to_string(), 8);

    assert!(!ctx.is_after_pipe);
    assert_eq!(ctx.command, "cat");
}

#[test]
fn test_completion_context_multiple_pipes() {
    let parsed = create_parsed(
        vec![
            "cat".to_string(),
            "a.txt".to_string(),
            "|".to_string(),
            "grep".to_string(),
            "x".to_string(),
            "|".to_string(),
            "wc".to_string(),
            "-l".to_string(),
        ],
        7,
    );
    let ctx =
        CompletionContext::from_parsed(&parsed, "cat a.txt | grep x | wc -l".to_string(), 25);

    assert!(ctx.is_after_pipe);
    assert_eq!(ctx.command, "wc");
    assert_eq!(ctx.previous_command, Some("x".to_string()));
    assert_eq!(ctx.pipe_command_args, vec!["-l".to_string()]);
}

#[test]
fn context_words_and_neighbours() {
    let parsed = create_parsed(vec!["git".to_string(), "checkout".to_string(), "ma".to_string()], 2);
    let ctx = CompletionContext::from_parsed(&parsed, "git checkout ma".to_string(), 15);
    assert_eq!(ctx.words, vec!["git", "checkout", "ma"]);
    assert_eq!(ctx.current_word_idx, 2);
    assert_eq!(ctx.line, "git checkout ma");
    assert_eq!(ctx.point, 15);
    assert_eq!(ctx.current_word, "ma");
    assert_eq!(ctx.previous_word, Some("checkout".to_string()));
    assert!(!ctx.is_completing_pipe_command());
}

#[test]
fn context_first_word_has_no_previous() {
    let parsed = create_parsed(vec!["gi".to_string()], 0);
    let ctx = CompletionContext::from_parsed(&parsed, "gi".to_string(), 2);
    assert_eq!(ctx.command, "gi");
    assert_eq!(ctx.current_word, "gi");
    assert_eq!(ctx.previous_word, None);
}

#[test]
fn context_without_words() {
    let parsed = ParsedLine::new(vec![], vec![], 0, 0);
    let ctx = CompletionContext::from_parsed(&parsed, String::new(), 0);
    assert_eq!(ctx.command, "");
    assert_eq!(ctx.current_word, "");
    assert_eq!(ctx.previous_word, None);
    assert!(!ctx.is_after_pipe);
}

#[test]
fn completing_pipe_command_only_right_behind_the_pipe() {
    let words = vec![
        "cat".to_string(),
        "foo.txt".to_string(),
        "|".to_string(),
        "gre".to_string(),
        "x".to_string(),
    ];
    let at_command =
        CompletionContext::from_parsed(&create_parsed(words.clone(), 3), "cat foo.txt | gre x".to_string(), 17);
    assert!(at_command.is_completing_pipe_command());
    let at_argument =
        CompletionContext::from_parsed(&create_parsed(words.clone(), 4), "cat foo.txt | gre x".to_string(), 19);
    assert!(at_argument.is_after_pipe);
    assert!(!at_argument.is_completing_pipe_command());
    let before = CompletionContext::from_parsed(&create_parsed(words, 1), "cat foo.txt | gre x".to_string(), 5);
    assert!(!before.is_completing_pipe_command());
}

#[test]
fn context_with_pipe_at_line_start() {
    let parsed = create_parsed(vec!["|".to_string(), "wc".to_string()], 1);
    let ctx = CompletionContext::from_parsed(&parsed, "| wc".to_string(), 4);
    assert!(ctx.is_after_pipe);
    assert_eq!(ctx.command, "wc");
    assert_eq!(ctx.previous_command, None);
    assert!(ctx.pipe_command_args.is_empty());
    assert!(ctx.is_completing_pipe_command());
}

#[test]
fn context_with_nothing_behind_the_pipe_keeps_first_command() {
    // the cursor's word index lies past the words
    let parsed = create_parsed(vec!["cat".to_string(), "|".to_string()], 2);
    let ctx = CompletionContext::from_parsed(&parsed, "cat | ".to_string(), 6);
    assert!(ctx.is_after_pipe);
    assert_eq!(ctx.command, "cat");
    assert_eq!(ctx.current_word, "");
}

#[test]
fn pipe_as_first_word_has_no_previous_command() {
    let parsed = create_parsed(vec!["|".to_string(), "grep".to_string()], 1);
    let ctx = CompletionContext::from_parsed(&parsed, "| grep".to_string(), 6);
    assert!(ctx.is_after_pipe);
    assert_eq!(ctx.command, "grep");
    assert_eq!(ctx.previous_command, None);
    assert_eq!(ctx.previous_word, Some("|".to_string()));
}
