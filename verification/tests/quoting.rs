use bft::completion::{CompletionEntry, ProviderKind};
use bft::quoting::{
    apply_filter, find_common_prefix, find_longest_common_prefix, mark_directories,
    quote_filename, substitute_word,
};

fn values(entries: &[CompletionEntry]) -> Vec<String> {
    entries.iter().map(|e| e.value.clone()).collect()
}

#[test]
fn test_quote_filename() {
    assert_eq!(quote_filename("foo bar", true), "'foo bar'");
    assert_eq!(quote_filename("~user/foo bar", true), "~user/'foo bar'");
    assert_eq!(quote_filename("simple", true), "simple");
}

#[test]
fn quote_filename_leaves_other_values_alone() {
    assert_eq!(quote_filename("foo bar", false), "foo bar");
    assert_eq!(quote_filename("~user", true), "~user");
    assert_eq!(quote_filename("~/a b/c", true), "~/'a b/c'");
}

#[test]
fn test_common_prefix() {
    let candidates = [
        CompletionEntry::new("file1".to_string(), ProviderKind::Bash),
        CompletionEntry::new("file2".to_string(), ProviderKind::Bash),
    ];
    let (res, _nospace, prefix) = find_common_prefix(&candidates, 0, false);
    assert_eq!(prefix, "");
    assert_eq!(res.len(), 2);

    let (res, nospace, prefix) = find_common_prefix(&candidates, 0, true);
    assert_eq!(res.len(), 1);
    assert_eq!(res[0].value, "file");
    assert_eq!(prefix, "file");
    assert!(nospace);
}

#[test]
fn common_prefix_of_nothing() {
    let (res, nospace, prefix) = find_common_prefix(&[], 0, true);
    assert!(res.is_empty());
    assert!(!nospace);
    assert_eq!(prefix, "");
}

#[test]
fn common_prefix_unchanged_list_keeps_order_and_kinds() {
    let candidates = [
        CompletionEntry::new("file1".to_string(), ProviderKind::History),
        CompletionEntry::new("file2".to_string(), ProviderKind::Bash),
    ];
    let (res, nospace, prefix) = find_common_prefix(&candidates, 0, false);
    assert_eq!(values(&res), vec!["file1", "file2"]);
    assert_eq!(res[0].kind, ProviderKind::History);
    assert_eq!(res[1].kind, ProviderKind::Bash);
    assert!(!nospace);
    assert_eq!(prefix, "");
}

#[test]
fn common_prefix_not_longer_than_typed() {
    let candidates = [
        CompletionEntry::new("file1".to_string(), ProviderKind::Bash),
        CompletionEntry::new("file2".to_string(), ProviderKind::Bash),
    ];
    let (res, nospace, prefix) = find_common_prefix(&candidates, 4, true);
    assert_eq!(res.len(), 2);
    assert!(!nospace);
    assert_eq!(prefix, "");
}

#[test]
fn common_prefix_single_candidate_collapses_with_space() {
    let candidates = [CompletionEntry::new("file.txt".to_string(), ProviderKind::Carapace)];
    let (res, nospace, prefix) = find_common_prefix(&candidates, 4, false);
    assert_eq!(values(&res), vec!["file.txt"]);
    assert_eq!(res[0].kind, ProviderKind::Carapace);
    assert!(!nospace);
    assert_eq!(prefix, "file.txt");
}

#[test]
fn common_prefix_identical_candidates() {
    let candidates = [
        CompletionEntry::new("same".to_string(), ProviderKind::Bash),
        CompletionEntry::new("same".to_string(), ProviderKind::History),
    ];
    let (res, nospace, prefix) = find_common_prefix(&candidates, 1, false);
    assert_eq!(values(&res), vec!["same"]);
    assert_eq!(res[0].kind, ProviderKind::Bash);
    assert!(nospace);
    assert_eq!(prefix, "same");
}

#[test]
fn common_prefix_counts_typed_bytes() {
    // the shared prefix "中" has one character and three bytes
    let candidates = [
        CompletionEntry::new("中文".to_string(), ProviderKind::Bash),
        CompletionEntry::new("中国".to_string(), ProviderKind::Bash),
    ];
    let (res, _, prefix) = find_common_prefix(&candidates, 2, true);
    assert_eq!(values(&res), vec!["中"]);
    assert_eq!(prefix, "中");
    let (res, _, prefix) = find_common_prefix(&candidates, 3, true);
    assert_eq!(res.len(), 2);
    assert_eq!(prefix, "");
}

#[test]
fn common_prefix_is_idempotent() {
    let candidates = [
        CompletionEntry::new("file1".to_string(), ProviderKind::Bash),
        CompletionEntry::new("file2".to_string(), ProviderKind::Bash),
    ];
    let (first, _, prefix) = find_common_prefix(&candidates, 0, true);
    let (second, nospace, again) = find_common_prefix(&first, prefix.len(), true);
    assert_eq!(values(&second), values(&first));
    assert!(!nospace);
    assert_eq!(again, "");
}

#[test]
fn longest_common_prefix_cases() {
    let of = |v: &[&str]| {
        let owned: Vec<String> = v.iter().map(|s| s.to_string()).collect();
        find_longest_common_prefix(&owned)
    };
    assert_eq!(of(&[]), "");
    assert_eq!(of(&["abc"]), "abc");
    assert_eq!(of(&["abc", "abd", "ab"]), "ab");
    assert_eq!(of(&["abc", "xyz"]), "");
    assert_eq!(of(&["日本語", "日本"]), "日本");
}

#[test]
fn test_filter() {
    let candidates = [
        CompletionEntry::new("foo".to_string(), ProviderKind::Bash),
        CompletionEntry::new("bar".to_string(), ProviderKind::Bash),
        CompletionEntry::new("baz".to_string(), ProviderKind::Bash),
    ];
    let filtered = apply_filter(&Some("!b*".to_string()), &candidates, "").unwrap();
    assert_eq!(filtered.len(), 1);
    assert_eq!(filtered[0].value, "foo");

    let filtered = apply_filter(&Some("*z".to_string()), &candidates, "").unwrap();
    assert_eq!(filtered.len(), 1);
    assert_eq!(filtered[0].value, "baz");
}

#[test]
fn filter_absent_passes_everything() {
    let candidates = [
        CompletionEntry::new("foo".to_string(), ProviderKind::Bash),
        CompletionEntry::new("bar".to_string(), ProviderKind::History),
    ];
    let filtered = apply_filter(&None, &candidates, "f").unwrap();
    assert_eq!(values(&filtered), vec!["foo", "bar"]);
    assert_eq!(filtered[1].kind, ProviderKind::History);
}

#[test]
fn filter_substitutes_current_word() {
    let candidates = [
        CompletionEntry::new("foo".to_string(), ProviderKind::Bash),
        CompletionEntry::new("food".to_string(), ProviderKind::Bash),
        CompletionEntry::new("bar".to_string(), ProviderKind::Bash),
    ];
    let filtered = apply_filter(&Some("&*".to_string()), &candidates, "fo").unwrap();
    assert_eq!(values(&filtered), vec!["foo", "food"]);
    let filtered = apply_filter(&Some("!&".to_string()), &candidates, "foo").unwrap();
    assert_eq!(values(&filtered), vec!["food", "bar"]);
}

#[test]
fn filter_with_bad_pattern_is_an_error() {
    let candidates = [CompletionEntry::new("foo".to_string(), ProviderKind::Bash)];
    let result = apply_filter(&Some("a***".to_string()), &candidates, "");
    match result {
        Err(bft::completion::CompletionError::Other(m)) => {
            assert_eq!(m, glob::Pattern::new("a***").unwrap_err().to_string());
            assert_eq!(m, "Pattern syntax error near position 3: wildcards are either regular `*` or recursive `**`");
        }
        _ => panic!("a pattern that does not compile must be refused"),
    }
    let result = apply_filter(&Some("[".to_string()), &[], "");
    assert!(result.is_err());
}

#[test]
fn substitute_word_replaces_every_ampersand() {
    assert_eq!(substitute_word("a&b&", "xy"), "axybxy");
    assert_eq!(substitute_word("plain", "xy"), "plain");
    assert_eq!(substitute_word("&", ""), "");
}

#[test]
fn mark_directories_appends_slash_once() {
    let candidates = vec![
        CompletionEntry::new("src".to_string(), ProviderKind::Bash),
        CompletionEntry::new("target/".to_string(), ProviderKind::Bash),
        CompletionEntry::new("Cargo.toml".to_string(), ProviderKind::History),
        CompletionEntry::new("docs".to_string(), ProviderKind::Bash),
    ];
    let marked = mark_directories(candidates, &vec![true, true, false]);
    assert_eq!(values(&marked), vec!["src/", "target/", "Cargo.toml", "docs"]);
    assert_eq!(marked[2].kind, ProviderKind::History);
}
