use bft::bash::BashError;
use bft::completion::{
    CompletionContext, CompletionEntry, CompletionError, CompletionSpec, ProviderKind,
};
use bft::parser::ParsedLine;
use bft::provider::{
    contains_value, get_env_variables, merge_into, tag_all, BashProvider, CarapaceItem,
    CarapaceProvider, CompletionEngine, CompletionProvider, EnvVarProvider, HistoryProvider,
    PipelineProvider, Provider,
};

fn strings(v: &[&str]) -> Vec<String> {
    v.iter().map(|s| s.to_string()).collect()
}

fn context(words: &[&str], index: usize, line: &str) -> CompletionContext {
    let words = strings(words);
    let parsed = ParsedLine::new(words.clone(), words, line.len(), index);
    CompletionContext::from_parsed(&parsed, line.to_string(), line.len())
}

fn item(value: &str) -> CarapaceItem {
    CarapaceItem {
        value: value.to_string(),
        display: value.to_string(),
        description: None,
        style: None,
    }
}

fn pairs(entries: &[CompletionEntry]) -> Vec<(String, ProviderKind)> {
    entries.iter().map(|e| (e.value.clone(), e.kind)).collect()
}

#[test]
fn pipeline_merges_in_priority_order() {
    let a = Provider::Bash(BashProvider::new(Ok(strings(&["x", "y"]))));
    let b = Provider::Carapace(CarapaceProvider::new(Some(vec![item("y"), item("z")])));
    let pipeline = PipelineProvider::new("pipeline").with(a).with(b);
    let ctx = context(&["cmd", ""], 1, "cmd ");
    let merged = pipeline.try_complete(&ctx).unwrap().unwrap();
    assert_eq!(
        pairs(&merged),
        vec![
            ("x".to_string(), ProviderKind::Bash),
            ("y".to_string(), ProviderKind::Bash),
            ("z".to_string(), ProviderKind::Carapace),
        ]
    );
}

#[test]
fn pipeline_order_follows_the_sources() {
    let a = Provider::Bash(BashProvider::new(Ok(strings(&["x", "y"]))));
    let b = Provider::Carapace(CarapaceProvider::new(Some(vec![item("y"), item("z")])));
    let pipeline = PipelineProvider::new("pipeline").with(b).with_boxed(Box::new(a));
    let ctx = context(&["cmd", ""], 1, "cmd ");
    let merged = pipeline.try_complete(&ctx).unwrap().unwrap();
    assert_eq!(
        pairs(&merged),
        vec![
            ("y".to_string(), ProviderKind::Carapace),
            ("z".to_string(), ProviderKind::Carapace),
            ("x".to_string(), ProviderKind::Bash),
        ]
    );
}

#[test]
fn pipeline_drops_repeats_within_one_source() {
    let a = Provider::Bash(BashProvider::new(Ok(strings(&["x", "x", "y", "x"]))));
    let pipeline = PipelineProvider::new("p").with(a);
    let ctx = context(&["cmd"], 0, "cmd");
    let merged = pipeline.try_complete(&ctx).unwrap().unwrap();
    assert_eq!(pairs(&merged).len(), 2);
    assert_eq!(merged[0].value, "x");
    assert_eq!(merged[1].value, "y");
}

#[test]
fn pipeline_without_candidates_has_no_opinion() {
    let ctx = context(&["cmd"], 0, "cmd");
    let empty = PipelineProvider::new("p");
    assert!(empty.try_complete(&ctx).unwrap().is_none());
    let nothing = PipelineProvider::new("p")
        .with(Provider::Bash(BashProvider::new(Ok(vec![]))))
        .with(Provider::Carapace(CarapaceProvider::new(None)));
    assert!(nothing.try_complete(&ctx).unwrap().is_none());
}

#[test]
fn pipeline_stops_at_the_first_error() {
    let failing = Provider::Bash(BashProvider::new(Err(BashError::ExecutionError(
        "no shell".to_string(),
    ))));
    let fine = Provider::Carapace(CarapaceProvider::new(Some(vec![item("a")])));
    let pipeline = PipelineProvider::new("p").with(fine).with(failing);
    let ctx = context(&["cmd"], 0, "cmd");
    match pipeline.try_complete(&ctx) {
        Err(CompletionError::BashModuleError(BashError::ExecutionError(m))) => {
            assert_eq!(m, "no shell")
        }
        _ => panic!("the error of a source must end the run"),
    }
}

#[test]
fn pipeline_skips_sources_that_do_not_apply() {
    let env = Provider::EnvVar(EnvVarProvider::new(strings(&["HOME"])));
    let history = Provider::History(HistoryProvider::new(strings(&["ls -la"]), Some(20)));
    let bash = Provider::Bash(BashProvider::new(Ok(strings(&["-la"]))));
    let pipeline = PipelineProvider::new("p").with(env).with(history).with(bash);
    // a blank line: neither the environment nor the history applies
    let ctx = context(&[""], 0, "  ");
    let merged = pipeline.try_complete(&ctx).unwrap().unwrap();
    assert_eq!(pairs(&merged), vec![("-la".to_string(), ProviderKind::Bash)]);
}

#[test]
fn pipeline_name_and_kind() {
    let pipeline = PipelineProvider::new("merged");
    assert_eq!(pipeline.name(), "merged");
    assert_eq!(pipeline.kind(), ProviderKind::Merged);
    assert!(pipeline.should_try(&context(&["x"], 0, "x")));
}

#[test]
fn merge_into_keeps_first_seen() {
    let mut merged = vec![
        CompletionEntry::new("x".to_string(), ProviderKind::History),
        CompletionEntry::new("y".to_string(), ProviderKind::History),
    ];
    let batch = vec![
        CompletionEntry::new("y".to_string(), ProviderKind::Bash),
        CompletionEntry::new("z".to_string(), ProviderKind::Bash),
        CompletionEntry::new("z".to_string(), ProviderKind::Carapace),
    ];
    merge_into(&mut merged, batch);
    assert_eq!(
        pairs(&merged),
        vec![
            ("x".to_string(), ProviderKind::History),
            ("y".to_string(), ProviderKind::History),
            ("z".to_string(), ProviderKind::Bash),
        ]
    );
    assert!(contains_value(&merged, &"z".to_string()));
    assert!(!contains_value(&merged, &"q".to_string()));
}

#[test]
fn tag_all_keeps_order() {
    let tagged = tag_all(&strings(&["b", "a"]), ProviderKind::EnvVar);
    assert_eq!(
        pairs(&tagged),
        vec![("b".to_string(), ProviderKind::EnvVar), ("a".to_string(), ProviderKind::EnvVar)]
    );
}

#[test]
fn env_variables_match_without_case() {
    let vars = strings(&["HOME", "HOSTNAME", "PATH", "home_dir"]);
    assert_eq!(get_env_variables(&vars, "ho"), vec!["$HOME", "$HOSTNAME", "$home_dir"]);
    assert_eq!(get_env_variables(&vars, "HOME"), vec!["$HOME", "$home_dir"]);
    assert_eq!(get_env_variables(&vars, ""), vec!["$HOME", "$HOSTNAME", "$PATH", "$home_dir"]);
    assert!(get_env_variables(&vars, "x").is_empty());
}

#[test]
fn env_provider_needs_a_dollar() {
    let provider = EnvVarProvider::new(strings(&["HOME", "PATH"]));
    assert_eq!(provider.name(), "envvar");
    assert_eq!(provider.kind(), ProviderKind::EnvVar);

    let ctx = context(&["echo", "$pa"], 1, "echo $pa");
    assert!(provider.should_try(&ctx));
    let found = provider.try_complete(&ctx).unwrap().unwrap();
    assert_eq!(pairs(&found), vec![("$PATH".to_string(), ProviderKind::EnvVar)]);

    let ctx = context(&["echo", "pa"], 1, "echo pa");
    assert!(!provider.should_try(&ctx));
    assert!(provider.try_complete(&ctx).unwrap().is_none());

    // a dollar alone lists every variable; none found is an empty list
    let ctx = context(&["echo", "$"], 1, "echo $");
    assert_eq!(provider.try_complete(&ctx).unwrap().unwrap().len(), 2);
    let ctx = context(&["echo", "$zz"], 1, "echo $zz");
    assert_eq!(provider.try_complete(&ctx).unwrap().unwrap().len(), 0);
}

#[test]
fn history_provider_gives_newest_first() {
    let lines = strings(&["git status", "ls", "git log", "git status", "GIT push"]);
    let provider = HistoryProvider::new(lines.clone(), Some(20));
    assert_eq!(provider.name(), "history");
    assert_eq!(provider.kind(), ProviderKind::History);

    let ctx = context(&["git", ""], 1, "git ");
    assert!(provider.should_try(&ctx));
    let found = provider.try_complete(&ctx).unwrap().unwrap();
    assert_eq!(
        pairs(&found),
        vec![
            ("GIT push".to_string(), ProviderKind::History),
            ("git log".to_string(), ProviderKind::History),
            ("git status".to_string(), ProviderKind::History),
        ]
    );

    let capped = HistoryProvider::new(lines, Some(1));
    let found = capped.try_complete(&ctx).unwrap().unwrap();
    assert_eq!(pairs(&found), vec![("GIT push".to_string(), ProviderKind::History)]);
}

#[test]
fn history_provider_without_match_has_no_opinion() {
    let provider = HistoryProvider::new(strings(&["git status"]), None);
    let ctx = context(&["cargo"], 0, "cargo");
    assert!(provider.try_complete(&ctx).unwrap().is_none());
    let blank = context(&[""], 0, "   ");
    assert!(!provider.should_try(&blank));
    assert!(provider.try_complete(&blank).unwrap().is_none());
}

#[test]
fn carapace_provider_hands_values_on() {
    let provider = CarapaceProvider::new(Some(vec![item("add"), item("commit")]));
    assert_eq!(provider.name(), "carapace");
    let ctx = context(&["git", ""], 1, "git ");
    assert!(provider.should_try(&ctx));
    let found = provider.try_complete(&ctx).unwrap().unwrap();
    assert_eq!(
        pairs(&found),
        vec![
            ("add".to_string(), ProviderKind::Carapace),
            ("commit".to_string(), ProviderKind::Carapace),
        ]
    );
    let unavailable = CarapaceProvider::new(None);
    assert!(unavailable.try_complete(&ctx).unwrap().is_none());
    let silent = CarapaceProvider::new(Some(vec![]));
    assert_eq!(silent.try_complete(&ctx).unwrap().unwrap().len(), 0);
}

#[test]
fn carapace_arguments_stop_at_the_cursor() {
    let ctx = context(&["git", "checkout", "ma", "--force"], 2, "git checkout ma --force");
    assert_eq!(CarapaceProvider::arguments(&ctx), vec!["git", "checkout", "ma"]);
    let ctx = context(&["git"], 0, "git");
    assert_eq!(CarapaceProvider::arguments(&ctx), vec!["git"]);
}

#[test]
fn carapace_arguments_behind_a_pipe() {
    let ctx = context(&["cat", "f", "|", "grep", "-i", "x"], 5, "cat f | grep -i x");
    assert_eq!(CarapaceProvider::arguments(&ctx), vec!["grep", "-i", "x"]);
    let ctx = context(&["cat", "f", "|", "gre"], 3, "cat f | gre");
    assert_eq!(CarapaceProvider::arguments(&ctx), vec!["gre"]);
}

#[test]
fn bash_provider_hands_lines_on() {
    let provider = BashProvider::new(Ok(strings(&["a", "a"])));
    assert_eq!(provider.name(), "bash");
    assert_eq!(provider.kind(), ProviderKind::Bash);
    let ctx = context(&["x"], 0, "x");
    let found = provider.try_complete(&ctx).unwrap().unwrap();
    assert_eq!(found.len(), 2);
    let failing = BashProvider::new(Err(BashError::Other("boom".to_string())));
    match failing.try_complete(&ctx) {
        Err(CompletionError::BashModuleError(BashError::Other(m))) => assert_eq!(m, "boom"),
        _ => panic!("the backend's error must come back"),
    }
}

#[test]
fn engine_takes_the_first_source_with_candidates() {
    let spec = CompletionSpec { filter: Some("*.rs".to_string()), ..CompletionSpec::default() };
    let engine = CompletionEngine::new(
        vec![
            Provider::EnvVar(EnvVarProvider::new(strings(&["HOME"]))),
            Provider::Carapace(CarapaceProvider::new(Some(vec![]))),
            Provider::History(HistoryProvider::new(strings(&["ls -la", "ls"]), Some(20))),
            Provider::Bash(BashProvider::new(Ok(strings(&["-la"])))),
        ],
        spec,
    );
    let ctx = context(&["ls", ""], 1, "ls ");
    let result = engine.complete(&ctx).unwrap();
    assert_eq!(result.used_provider, "history");
    assert_eq!(
        pairs(&result.candidates),
        vec![
            ("ls".to_string(), ProviderKind::History),
            ("ls -la".to_string(), ProviderKind::History),
        ]
    );
    assert_eq!(result.spec.filter, Some("*.rs".to_string()));
    assert!(!result.is_empty());
}

#[test]
fn engine_without_candidates_reports_none() {
    let spec = CompletionSpec { filter: Some("*.rs".to_string()), ..CompletionSpec::default() };
    let engine = CompletionEngine::new(
        vec![Provider::Bash(BashProvider::new(Ok(vec![])))],
        spec,
    );
    let ctx = context(&["ls", ""], 1, "ls ");
    let result = engine.complete(&ctx).unwrap();
    assert!(result.is_empty());
    assert_eq!(result.used_provider, "none");
    assert_eq!(result.spec.filter, None);
}

#[test]
fn engine_hands_errors_on() {
    let engine = CompletionEngine::new(
        vec![
            Provider::Bash(BashProvider::new(Err(BashError::IoError("gone".to_string())))),
            Provider::Carapace(CarapaceProvider::new(Some(vec![item("a")]))),
        ],
        CompletionSpec::default(),
    );
    let ctx = context(&["ls"], 0, "ls");
    match engine.complete(&ctx) {
        Err(CompletionError::BashModuleError(BashError::IoError(m))) => assert_eq!(m, "gone"),
        _ => panic!("a failing source must fail the engine"),
    }
}

#[test]
fn engine_prefers_the_pipeline() {
    let engine = CompletionEngine::new(
        vec![Provider::Bash(BashProvider::new(Ok(strings(&["fallback"]))))],
        CompletionSpec::default(),
    );
    let ctx = context(&["ls"], 0, "ls");
    let pipeline = PipelineProvider::new("pipeline")
        .with(Provider::Carapace(CarapaceProvider::new(Some(vec![item("a")]))));
    let result = engine.complete_pipeline(&ctx, &pipeline).unwrap();
    assert_eq!(result.used_provider, "pipeline");
    assert_eq!(pairs(&result.candidates), vec![("a".to_string(), ProviderKind::Carapace)]);

    let empty = PipelineProvider::new("pipeline");
    let result = engine.complete_pipeline(&ctx, &empty).unwrap();
    assert_eq!(result.used_provider, "bash");
    assert_eq!(pairs(&result.candidates), vec![("fallback".to_string(), ProviderKind::Bash)]);
}
