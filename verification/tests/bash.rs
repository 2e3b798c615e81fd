use bft::bash::{
    backend_calls, complete_query, execute_completion, gather_outputs, is_command_name_completion,
    join_quoted, output_lines, parse_compspec_args, parse_compspec_output, parse_option,
    resolve_compspec, BackendCall, BashError,
};
use bft::completion::{CompletionContext, CompletionError, CompletionOptions, CompletionSpec};
use bft::parser::ParsedLine;

fn strings(v: &[&str]) -> Vec<String> {
    v.iter().map(|s| s.to_string()).collect()
}

fn context(words: &[&str], index: usize, line: &str, point: usize) -> CompletionContext {
    let words = strings(words);
    let parsed = ParsedLine::new(words.clone(), words, point, index);
    CompletionContext::from_parsed(&parsed, line.to_string(), point)
}

fn compgen_args(call: &BackendCall) -> Vec<String> {
    match call {
        BackendCall::Compgen { args } => args.clone(),
        BackendCall::Function { .. } => panic!("a generator call was expected"),
    }
}

#[test]
fn parse_declaration_with_function() {
    let spec = parse_compspec_output("complete -o bashdefault -o default -o nospace -F __git_wrap__git_main git\n")
        .unwrap()
        .unwrap();
    assert_eq!(spec.function, Some("__git_wrap__git_main".to_string()));
    assert!(spec.options.bashdefault);
    assert!(spec.options.default);
    assert!(spec.options.nospace);
    assert!(!spec.options.filenames);
    assert_eq!(spec.wordlist, None);
    assert_eq!(spec.command, None);
    assert_eq!(spec.filter, None);
    assert_eq!(spec.prefix, "");
    assert_eq!(spec.suffix, "");
}

#[test]
fn parse_declaration_with_every_flag() {
    let spec = parse_compspec_output(
        "complete -W 'start stop' -C gen -X '!*.txt' -P pre -S suf -o filenames -o dirnames -o noquote -o plusdirs -o nosort svc",
    )
    .unwrap()
    .unwrap();
    assert_eq!(spec.wordlist, Some("start stop".to_string()));
    assert_eq!(spec.command, Some("gen".to_string()));
    assert_eq!(spec.filter, Some("!*.txt".to_string()));
    assert_eq!(spec.prefix, "pre");
    assert_eq!(spec.suffix, "suf");
    assert!(spec.options.filenames);
    assert!(spec.options.dirnames);
    assert!(spec.options.noquote);
    assert!(spec.options.plusdirs);
    assert!(spec.options.nosort);
    assert_eq!(spec.function, None);
    assert_eq!(spec.glob_pattern, None);
}

#[test]
fn parse_declaration_later_flag_wins() {
    let spec = parse_compspec_output("complete -F first -W a -F second cmd").unwrap().unwrap();
    assert_eq!(spec.function, Some("second".to_string()));
    assert_eq!(spec.wordlist, Some("a".to_string()));
}

#[test]
fn parse_declaration_flag_takes_the_next_word() {
    // "-C" is the value of "-F" here, and "x" an ordinary word
    let spec = parse_compspec_args(&strings(&["complete", "-F", "-C", "x"])).unwrap();
    assert_eq!(spec.function, Some("-C".to_string()));
    assert_eq!(spec.command, None);
    // a flag at the very end has no value
    let spec = parse_compspec_args(&strings(&["complete", "cmd", "-F"])).unwrap();
    assert_eq!(spec.function, None);
}

#[test]
fn parse_declaration_of_something_else() {
    assert!(parse_compspec_output("alias ls='ls --color'").unwrap().is_none());
    assert!(parse_compspec_output("").unwrap().is_none());
    assert!(parse_compspec_args(&Vec::new()).is_none());
}

#[test]
fn parse_declaration_that_does_not_split() {
    match parse_compspec_output("complete -W 'unterminated") {
        Err(BashError::ParseError(m)) => assert_eq!(m, "Failed to split output"),
        _ => panic!("text that does not split must be refused"),
    }
}

#[test]
fn parse_option_switches_one_option_on() {
    let names = [
        "bashdefault",
        "default",
        "dirnames",
        "filenames",
        "noquote",
        "nospace",
        "plusdirs",
        "nosort",
    ];
    for (i, name) in names.iter().enumerate() {
        let mut options = CompletionOptions::default();
        parse_option(name, &mut options);
        let flags = [
            options.bashdefault,
            options.default,
            options.dirnames,
            options.filenames,
            options.noquote,
            options.nospace,
            options.plusdirs,
            options.nosort,
        ];
        for (j, flag) in flags.iter().enumerate() {
            assert_eq!(*flag, i == j);
        }
    }
    let mut options = CompletionOptions::default();
    parse_option("unknown", &mut options);
    assert_eq!(options, CompletionOptions::default());
    options.nospace = true;
    parse_option("default", &mut options);
    assert!(options.nospace && options.default);
}

#[test]
fn resolve_for_empty_command_is_blank() {
    let spec = resolve_compspec("", Some("complete -F _x x")).unwrap();
    assert_eq!(spec.function, None);
    assert_eq!(spec.options, CompletionOptions::default());
}

#[test]
fn resolve_without_declaration_asks_for_default_filenames() {
    let spec = resolve_compspec("ls", None).unwrap();
    assert!(spec.options.default);
    assert!(!spec.options.filenames);
    assert_eq!(spec.function, None);
    let spec = resolve_compspec("ls", Some("not a declaration")).unwrap();
    assert!(spec.options.default);
}

#[test]
fn resolve_with_declaration() {
    let spec = resolve_compspec("git", Some("complete -F _git git")).unwrap();
    assert_eq!(spec.function, Some("_git".to_string()));
    assert!(!spec.options.default);
    match resolve_compspec("git", Some("complete 'oops")) {
        Err(CompletionError::BashModuleError(BashError::ParseError(_))) => {}
        _ => panic!("a declaration that does not split must be refused"),
    }
}

#[test]
fn execution_follows_the_fixed_order() {
    let spec = CompletionSpec {
        function: Some("_f".to_string()),
        wordlist: Some("a b".to_string()),
        glob_pattern: Some("*.rs".to_string()),
        command: Some("gen".to_string()),
        filter: None,
        prefix: String::new(),
        suffix: String::new(),
        options: CompletionOptions { filenames: true, dirnames: true, ..CompletionOptions::default() },
    };
    let ctx = context(&["cmd", "sub", "wo"], 2, "cmd sub wo", 10);
    let calls = execute_completion(&spec, &ctx);
    assert_eq!(calls.len(), 6);
    match &calls[0] {
        BackendCall::Function { function, words, cword, line, point } => {
            assert_eq!(function, "_f");
            assert_eq!(words, &strings(&["cmd", "sub", "wo"]));
            assert_eq!(*cword, 2);
            assert_eq!(line, "cmd sub wo");
            assert_eq!(*point, 10);
        }
        _ => panic!("the function comes first"),
    }
    assert_eq!(compgen_args(&calls[1]), vec!["-W", "a b", "--", "wo"]);
    assert_eq!(compgen_args(&calls[2]), vec!["-C", "gen", "--", "wo"]);
    assert_eq!(compgen_args(&calls[3]), vec!["-G", "*.rs", "--", "wo"]);
    assert_eq!(compgen_args(&calls[4]), vec!["-f", "--", "wo"]);
    assert_eq!(compgen_args(&calls[5]), vec!["-d", "--", "wo"]);
}

#[test]
fn execution_of_default_only_lists_files() {
    let spec = resolve_compspec("ls", None).unwrap();
    let ctx = context(&["ls", "sr"], 1, "ls sr", 5);
    let calls = execute_completion(&spec, &ctx);
    assert_eq!(calls.len(), 1);
    assert_eq!(compgen_args(&calls[0]), vec!["-f", "--", "sr"]);
    assert!(execute_completion(&CompletionSpec::default(), &ctx).is_empty());
}

#[test]
fn command_names_are_listed_at_line_start_and_behind_a_pipe() {
    let blank = CompletionSpec::default();
    let ctx = context(&["gi"], 0, "gi", 2);
    assert!(is_command_name_completion(&blank, &ctx));
    let calls = backend_calls(&blank, &ctx);
    assert_eq!(calls.len(), 1);
    assert_eq!(compgen_args(&calls[0]), vec!["-c", "--", "gi"]);

    let with_function = CompletionSpec { function: Some("_f".to_string()), ..CompletionSpec::default() };
    assert!(!is_command_name_completion(&with_function, &ctx));
    assert!(matches!(backend_calls(&with_function, &ctx)[0], BackendCall::Function { .. }));

    let behind_pipe = context(&["cat", "f", "|", "gre"], 3, "cat f | gre", 11);
    let calls = backend_calls(&with_function, &behind_pipe);
    assert_eq!(calls.len(), 1);
    assert_eq!(compgen_args(&calls[0]), vec!["-c", "--", "gre"]);

    let argument = context(&["ls", "x"], 1, "ls x", 4);
    assert!(!is_command_name_completion(&blank, &argument));
    assert!(backend_calls(&blank, &argument).is_empty());
}

#[test]
fn generator_script_quotes_its_arguments() {
    let call = BackendCall::Compgen { args: strings(&["-W", "a b", "--", "it's"]) };
    assert_eq!(call.script(), "compgen -W 'a b' -- \"it's\"");
    let call = BackendCall::Compgen { args: strings(&["-c", "--", ""]) };
    assert_eq!(call.script(), "compgen -c -- ''");
}

#[test]
fn function_script_sets_up_the_request() {
    let call = BackendCall::Function {
        function: "_git".to_string(),
        words: strings(&["git", "commit", "a b"]),
        cword: 2,
        line: "git commit 'a b".to_string(),
        point: 15,
    };
    let expected = "\nCOMP_WORDS=(git commit 'a b')\nexport COMP_CWORD=2\nexport COMP_LINE='git commit '\\''a b'\nexport COMP_POINT=15\nexport COMP_KEY=\"\"\nexport COMP_TYPE=\"9\"\n\nCOMPREPLY=()\n\"_git\" 2>/dev/null\n\nfor reply in \"${COMPREPLY[@]}\"; do\n    echo \"$reply\"\ndone\n";
    assert_eq!(call.script(), expected);
}

#[test]
fn join_quoted_puts_blanks_between() {
    assert_eq!(join_quoted(&strings(&[])), "");
    assert_eq!(join_quoted(&strings(&["a"])), "a");
    assert_eq!(join_quoted(&strings(&["a", "b c", "d"])), "a 'b c' d");
}

#[test]
fn query_for_a_declaration() {
    assert_eq!(complete_query("git").unwrap(), "complete -p -- git");
    assert_eq!(complete_query("my cmd").unwrap(), "complete -p -- 'my cmd'");
    match complete_query("a\0b") {
        Err(BashError::Other(_)) => {}
        _ => panic!("a command with a nul byte cannot be quoted"),
    }
}

#[test]
fn output_lines_split_at_line_feeds() {
    assert_eq!(output_lines("a\nb\n"), vec!["a", "b"]);
    assert_eq!(output_lines("a\nb"), vec!["a", "b"]);
    assert_eq!(output_lines("a\r\nb\r\n"), vec!["a", "b"]);
    assert_eq!(output_lines("a\n\nb"), vec!["a", "", "b"]);
    assert_eq!(output_lines("\n"), vec![""]);
    assert!(output_lines("").is_empty());
    assert_eq!(output_lines("a\rb\n"), vec!["a\rb"]);
    let text = "x y\r\n\r\nlast\r";
    let expected: Vec<String> = text.lines().map(|l| l.to_string()).collect();
    assert_eq!(output_lines(text), expected);
}

#[test]
fn gather_outputs_concatenates() {
    let outputs = vec![strings(&["a", "b"]), strings(&[]), strings(&["b", "c"])];
    assert_eq!(gather_outputs(&outputs), vec!["a", "b", "b", "c"]);
    assert!(gather_outputs(&Vec::new()).is_empty());
}

#[test]
fn error_messages() {
    assert_eq!(BashError::ExecutionError("x".to_string()).message(), "Bash execution failed: x");
    assert_eq!(BashError::ParseError("x".to_string()).message(), "Failed to parse completion spec: x");
    assert_eq!(BashError::IoError("x".to_string()).message(), "IO error: x");
    assert_eq!(BashError::Other("x".to_string()).message(), "Other error: x");
    assert_eq!(CompletionError::NoCompleter("c".to_string()).message(), "No completer found for command: c");
    assert_eq!(CompletionError::BashError("c".to_string()).message(), "Bash completion error: c");
    assert_eq!(CompletionError::IoError("c".to_string()).message(), "IO error: c");
    assert_eq!(
        CompletionError::BashModuleError(BashError::Other("x".to_string())).message(),
        "Bash module error: Other error: x"
    );
    assert_eq!(CompletionError::Other("c".to_string()).message(), "Other error: c");
}
