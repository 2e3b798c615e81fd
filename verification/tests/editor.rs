use bft::editor::insert_completion;

#[test]
fn test_insert_completion_ascii() {
    let line = "ls file";
    let point = line.len();
    let completion = "file.txt";
    let current_word = "file";

    let result = insert_completion(line, point, completion, false, current_word);
    assert_eq!(result, ("ls file.txt ".to_string(), 12));
}

#[test]
fn test_insert_completion_chinese() {
    let line = "ls 中文";
    let point = line.len();
    let completion = "test.txt";
    let current_word = "中文";

    let result = insert_completion(line, point, completion, false, current_word);
    assert_eq!(result, ("ls test.txt ".to_string(), 12));
}

#[test]
fn test_insert_completion_mixed() {
    let line = "git checkout feat";
    let point = line.len();
    let completion = "feature-中文";
    let current_word = "feat";

    let result = insert_completion(line, point, completion, false, current_word);
    assert_eq!(result, ("git checkout feature-中文 ".to_string(), 28));
}

#[test]
fn test_insert_completion_nospace() {
    let line = "cd path";
    let point = line.len();
    let completion = "/";
    let current_word = "path";

    let result = insert_completion(line, point, completion, true, current_word);
    assert_eq!(result, ("cd /".to_string(), 4));
}

#[test]
fn test_insert_completion_empty_word() {
    let line = "ls ";
    let point = line.len();
    let completion = "file.txt";
    let current_word = "";

    let result = insert_completion(line, point, completion, false, current_word);
    assert_eq!(result, ("ls file.txt ".to_string(), 12));
}

#[test]
fn test_insert_completion_trailing_utf8() {
    let line = "ls 中文";
    let point = line.chars().take(4).collect::<String>().len();
    let completion = "file.txt";
    let current_word = "中";

    let result = insert_completion(line, point, completion, false, current_word);
    assert_eq!(result, ("ls file.txt 文".to_string(), 12));
}

#[test]
fn insert_completion_keeps_text_behind_the_cursor() {
    let result = insert_completion("git chec --force", 8, "checkout", false, "chec");
    assert_eq!(result, ("git checkout  --force".to_string(), 13));
}

#[test]
fn insert_completion_directory_gets_no_space() {
    let result = insert_completion("cd sr", 5, "src/", false, "sr");
    assert_eq!(result, ("cd src/".to_string(), 7));
}

#[test]
fn insert_completion_opt_out_of_space() {
    let result = insert_completion("ls fi", 5, "file", true, "fi");
    assert_eq!(result, ("ls file".to_string(), 7));
}

#[test]
fn insert_completion_word_longer_than_line_start() {
    // more characters are to be replaced than stand in front of the cursor
    let result = insert_completion("ab", 2, "xyz", false, "abcd");
    assert_eq!(result, ("xyz ".to_string(), 4));
}

#[test]
fn insert_completion_cursor_past_the_end() {
    let result = insert_completion("ls a", 99, "abc", false, "a");
    assert_eq!(result, ("ls abc ".to_string(), 7));
}
