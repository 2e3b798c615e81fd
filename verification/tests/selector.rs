use bft::completion::CompletionContext;
use bft::parser::ParsedLine;
use bft::selector::{
    contains_str, rank_candidates, DialoguerSelector, Selection, SelectorConfig, SelectorError,
};
use fuzzy_matcher::FuzzyMatcher;
use std::rc::Rc;

fn strings(v: &[&str]) -> Vec<String> {
    v.iter().map(|s| s.to_string()).collect()
}

fn config(line: &str, fuzzy: bool) -> SelectorConfig {
    let parsed = ParsedLine::new(vec![line.to_string()], vec![line.to_string()], 0, 0);
    SelectorConfig {
        ctx: Rc::new(CompletionContext::from_parsed(&parsed, line.to_string(), line.len())),
        fuzzy,
        ..SelectorConfig::default()
    }
}

#[test]
fn selector_config_default() {
    let config = SelectorConfig::default();
    assert_eq!(config.prompt, "> ");
    assert_eq!(config.height, "40%");
    assert_eq!(config.header, None);
    assert!(config.fuzzy);
    assert!(config.ctx.words.is_empty());
    assert_eq!(config.ctx.line, "");
}

#[test]
fn prepare_without_candidates() {
    let selector = DialoguerSelector::new();
    match selector.prepare(&[], "x", &config("ls x", true)) {
        Selection::Done(None) => {}
        _ => panic!("no candidate, no choice"),
    }
}

#[test]
fn prepare_with_one_candidate() {
    let selector = DialoguerSelector::new();
    match selector.prepare(&strings(&["only"]), "zzz", &config("ls zzz", true)) {
        Selection::Done(Some(c)) => assert_eq!(c, "only"),
        _ => panic!("a single candidate is the choice"),
    }
}

#[test]
fn prepare_asks_with_all_candidates_when_not_fuzzy() {
    let selector = DialoguerSelector::new();
    let candidates = strings(&["beta", "alpha", "gamma"]);
    match selector.prepare(&candidates, "al", &config("ls al", false)) {
        Selection::Ask { prompt, items } => {
            assert_eq!(prompt, "ls ");
            assert_eq!(items, candidates);
        }
        _ => panic!("the user is to be asked"),
    }
    // an empty current word switches the matching off too
    match selector.prepare(&candidates, "", &config("ls ", true)) {
        Selection::Ask { prompt, items } => {
            assert_eq!(prompt, "ls ");
            assert_eq!(items, candidates);
        }
        _ => panic!("the user is to be asked"),
    }
}

#[test]
fn prepare_prompt_keeps_line_that_does_not_end_in_word() {
    let selector = DialoguerSelector::new();
    let candidates = strings(&["a", "b"]);
    match selector.prepare(&candidates, "xy", &config("ls a", false)) {
        Selection::Ask { prompt, .. } => assert_eq!(prompt, "ls a"),
        _ => panic!("the user is to be asked"),
    }
}

#[test]
fn prepare_ranks_fuzzy_matches() {
    let selector = DialoguerSelector::new();
    let candidates = strings(&["xaxb", "zzz", "ab", "ab"]);
    match selector.prepare(&candidates, "ab", &config("ls ab", true)) {
        Selection::Ask { items, .. } => assert_eq!(items, vec!["ab", "ab", "xaxb"]),
        _ => panic!("the user is to be asked"),
    }
    match selector.prepare(&strings(&["zzz", "yyy"]), "ab", &config("ls ab", true)) {
        Selection::Done(None) => {}
        _ => panic!("nothing matches, nothing to ask"),
    }
}

fn reference_ranking(candidates: &[String], pattern: &str) -> Vec<String> {
    let matcher = fuzzy_matcher::skim::SkimMatcherV2::default();
    let mut scored: Vec<(i64, usize, String)> = Vec::new();
    for (idx, cand) in candidates.iter().enumerate() {
        if let Some(score) = matcher.fuzzy_match(cand, pattern) {
            scored.push((score, idx, cand.clone()));
        }
    }
    scored.sort_by_key(|(score, idx, _)| (-score, *idx));
    scored.into_iter().map(|(_, _, cand)| cand).collect()
}

#[test]
fn rank_candidates_orders_by_score_then_place() {
    let candidates = strings(&[
        "checkout",
        "cherry-pick",
        "bisect",
        "che",
        "cache",
        "fetch",
        "xcxhxe",
        "che",
        "archive",
    ]);
    for pattern in ["che", "c", "ch", "e", "arch", "zz", "CHE"] {
        assert_eq!(rank_candidates(&candidates, pattern), reference_ranking(&candidates, pattern));
    }
    assert_eq!(rank_candidates(&strings(&["xaxb", "ab"]), "ab"), vec!["ab", "xaxb"]);
    assert_eq!(rank_candidates(&strings(&["same", "same"]), "same"), vec!["same", "same"]);
    assert!(rank_candidates(&strings(&["abc"]), "x").is_empty());
    assert!(rank_candidates(&[], "x").is_empty());
}

#[test]
fn conclude_reads_the_outcome() {
    let selector = DialoguerSelector::new();
    let items = strings(&["a", "b", "c"]);
    assert_eq!(selector.conclude(&items, Ok(Some(1))).unwrap(), Some("b".to_string()));
    assert_eq!(selector.conclude(&items, Ok(None)).unwrap(), None);
    assert_eq!(selector.conclude(&items, Err("read interrupted".to_string())).unwrap(), None);
    assert_eq!(selector.conclude(&items, Err("Interrupted system call".to_string())).unwrap(), None);
    match selector.conclude(&items, Err("not a terminal".to_string())) {
        Err(SelectorError::ExecutionError(m)) => {
            assert_eq!(m, "Dialoguer selection failed: not a terminal")
        }
        _ => panic!("other errors are handed on"),
    }
}

#[test]
fn contains_str_finds_substrings() {
    assert!(contains_str("hello", "ell"));
    assert!(contains_str("hello", ""));
    assert!(contains_str("hello", "hello"));
    assert!(contains_str("", ""));
    assert!(!contains_str("hello", "elo"));
    assert!(!contains_str("he", "hello"));
    assert!(contains_str("日本語", "本語"));
}
