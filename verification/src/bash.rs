//! The shell completion backend seen from the library: how its declarations
//! read, and which calls executing a declaration takes.
use vstd::prelude::*;
use vstd::string::StringExecFns;
use crate::completion::{
    blank_spec, default_only_spec, opt_text, CompletionContext, CompletionError,
    CompletionOptions, CompletionSpec, CompletionSpecView,
};
use crate::quoting::{quoted_or_same, shell_quote, shell_quoted, try_quote};
use crate::text::{
    concat, decimal, replace_char, replaced, str_eq, string_from, texts, to_chars, to_decimal,
};

verus! {

/// What can go wrong with the shell backend.
#[derive(Debug)]
pub enum BashError {
    ExecutionError(String),
    ParseError(String),
    IoError(String),
    Other(String),
}

/// What a `BashError` holds, with its text as a character sequence.
pub enum BashErrorView {
    ExecutionError(Seq<char>),
    ParseError(Seq<char>),
    IoError(Seq<char>),
    Other(Seq<char>),
}

impl View for BashError {
    type V = BashErrorView;

    open spec fn view(&self) -> BashErrorView {
        match self {
            BashError::ExecutionError(m) => BashErrorView::ExecutionError(m@),
            BashError::ParseError(m) => BashErrorView::ParseError(m@),
            BashError::IoError(m) => BashErrorView::IoError(m@),
            BashError::Other(m) => BashErrorView::Other(m@),
        }
    }
}

impl BashError {
    /// A copy of this error.
    pub fn duplicate(&self) -> (e: Self)
        ensures
            e@ == self@,
    {
        match self {
            BashError::ExecutionError(m) => BashError::ExecutionError(m.clone()),
            BashError::ParseError(m) => BashError::ParseError(m.clone()),
            BashError::IoError(m) => BashError::IoError(m.clone()),
            BashError::Other(m) => BashError::Other(m.clone()),
        }
    }

    /// The error as a line of text.
    pub fn message(&self) -> (m: String)
        ensures
            m@ == match self@ {
                BashErrorView::ExecutionError(t) => "Bash execution failed: "@ + t,
                BashErrorView::ParseError(t) => "Failed to parse completion spec: "@ + t,
                BashErrorView::IoError(t) => "IO error: "@ + t,
                BashErrorView::Other(t) => "Other error: "@ + t,
            },
    {
        match self {
            BashError::ExecutionError(t) => concat("Bash execution failed: ", t.as_str()),
            BashError::ParseError(t) => concat("Failed to parse completion spec: ", t.as_str()),
            BashError::IoError(t) => concat("IO error: ", t.as_str()),
            BashError::Other(t) => concat("Other error: ", t.as_str()),
        }
    }
}

/// The words that `shlex::split` cuts `s` into, or `None` where it finds `s`
/// malformed.
pub uninterp spec fn shell_split(s: Seq<char>) -> Option<Seq<Seq<char>>>;

/// The view of an optional list of strings.
pub open spec fn opt_texts(o: Option<Vec<String>>) -> Option<Seq<Seq<char>>> {
    match o {
        Some(v) => Some(texts(v@)),
        None => None,
    }
}

/// Calls `shlex::split`, which splits a string into words as a POSIX shell
/// would. The words depend on the string alone and are named `shell_split`.
#[verifier::external_body]
fn shell_words(s: &str) -> (r: Option<Vec<String>>)
    ensures
        opt_texts(r) == shell_split(s@),
{
    shlex::split(s)
}

/// `opts` with the option called `name` switched on; unknown names change
/// nothing.
pub open spec fn with_option(opts: CompletionOptions, name: Seq<char>) -> CompletionOptions {
    if name == "bashdefault"@ {
        CompletionOptions { bashdefault: true, ..opts }
    } else if name == "default"@ {
        CompletionOptions { default: true, ..opts }
    } else if name == "dirnames"@ {
        CompletionOptions { dirnames: true, ..opts }
    } else if name == "filenames"@ {
        CompletionOptions { filenames: true, ..opts }
    } else if name == "noquote"@ {
        CompletionOptions { noquote: true, ..opts }
    } else if name == "nospace"@ {
        CompletionOptions { nospace: true, ..opts }
    } else if name == "plusdirs"@ {
        CompletionOptions { plusdirs: true, ..opts }
    } else if name == "nosort"@ {
        CompletionOptions { nosort: true, ..opts }
    } else {
        opts
    }
}

/// Switches on the option called `opt`.
pub fn parse_option(opt: &str, options: &mut CompletionOptions)
    ensures
        *final(options) == with_option(*old(options), opt@),
{
    if str_eq(opt, "bashdefault") {
        options.bashdefault = true;
    } else if str_eq(opt, "default") {
        options.default = true;
    } else if str_eq(opt, "dirnames") {
        options.dirnames = true;
    } else if str_eq(opt, "filenames") {
        options.filenames = true;
    } else if str_eq(opt, "noquote") {
        options.noquote = true;
    } else if str_eq(opt, "nospace") {
        options.nospace = true;
    } else if str_eq(opt, "plusdirs") {
        options.plusdirs = true;
    } else if str_eq(opt, "nosort") {
        options.nosort = true;
    }
}

/// `flag` is one of the flags that are followed by a value.
pub open spec fn takes_value(flag: Seq<char>) -> bool {
    ||| flag == "-F"@
    ||| flag == "-C"@
    ||| flag == "-W"@
    ||| flag == "-P"@
    ||| flag == "-S"@
    ||| flag == "-X"@
    ||| flag == "-o"@
}

/// `m` after `flag` was read with `value` behind it.
pub open spec fn with_flag(
    m: CompletionSpecView,
    flag: Seq<char>,
    value: Seq<char>,
) -> CompletionSpecView {
    if flag == "-F"@ {
        CompletionSpecView { function: Some(value), ..m }
    } else if flag == "-C"@ {
        CompletionSpecView { command: Some(value), ..m }
    } else if flag == "-W"@ {
        CompletionSpecView { wordlist: Some(value), ..m }
    } else if flag == "-P"@ {
        CompletionSpecView { prefix: value, ..m }
    } else if flag == "-S"@ {
        CompletionSpecView { suffix: value, ..m }
    } else if flag == "-X"@ {
        CompletionSpecView { filter: Some(value), ..m }
    } else if flag == "-o"@ {
        CompletionSpecView { options: with_option(m.options, value), ..m }
    } else {
        m
    }
}

/// The declaration read from `args[i..]`, starting from `m`. A flag that
/// takes a value consumes the word behind it; a later occurrence of a flag
/// overwrites an earlier one; a flag at the very end without a value, and any
/// other word, is passed over.
pub open spec fn scan_flags(args: Seq<Seq<char>>, i: int, m: CompletionSpecView) -> CompletionSpecView
    decreases args.len() - i,
{
    if i < 0 || i >= args.len() {
        m
    } else if takes_value(args[i]) && i + 1 < args.len() {
        scan_flags(args, i + 2, with_flag(m, args[i], args[i + 1]))
    } else {
        scan_flags(args, i + 1, m)
    }
}

/// The declaration that the words of a `complete` line stand for, if the
/// first word is `complete`.
pub open spec fn compspec_of_args(args: Seq<Seq<char>>) -> Option<CompletionSpecView> {
    if args.len() > 0 && args[0] == "complete"@ {
        Some(scan_flags(args, 1, blank_spec()))
    } else {
        None
    }
}

/// Records `value` for `flag` in `spec`, if `flag` is one that takes a value.
fn apply_flag(spec: &mut CompletionSpec, flag: &str, value: &String) -> (took: bool)
    ensures
        took == takes_value(flag@),
        final(spec)@ == with_flag(old(spec)@, flag@, value@),
{
    if str_eq(flag, "-F") {
        spec.function = Some(value.clone());
        true
    } else if str_eq(flag, "-C") {
        spec.command = Some(value.clone());
        true
    } else if str_eq(flag, "-W") {
        spec.wordlist = Some(value.clone());
        true
    } else if str_eq(flag, "-P") {
        spec.prefix = value.clone();
        true
    } else if str_eq(flag, "-S") {
        spec.suffix = value.clone();
        true
    } else if str_eq(flag, "-X") {
        spec.filter = Some(value.clone());
        true
    } else if str_eq(flag, "-o") {
        parse_option(value.as_str(), &mut spec.options);
        true
    } else {
        false
    }
}

/// Reads a completion declaration from the words of a `complete` line.
/// Returns `None` when the first word is not `complete`.
pub fn parse_compspec_args(args: &Vec<String>) -> (r: Option<CompletionSpec>)
    ensures
        match r {
            Some(spec) => compspec_of_args(texts(args@)) == Some(spec@),
            None => compspec_of_args(texts(args@)) is None,
        },
{
    let ghost ws = texts(args@);
    if args.len() == 0 || !str_eq(args[0].as_str(), "complete") {
        return None;
    }
    let mut spec = CompletionSpec::default();
    let mut i: usize = 1;
    while i < args.len()
        invariant
            1 <= i,
            ws == texts(args@),
            scan_flags(ws, 1, blank_spec()) == scan_flags(ws, i as int, spec@),
        decreases args.len() - i,
    {
        assert(ws[i as int] == args@[i as int]@);
        if args.len() - i > 1 {
            assert(ws[i as int + 1] == args@[i as int + 1]@);
            if apply_flag(&mut spec, args[i].as_str(), &args[i + 1]) {
                i = i + 2;
            } else {
                i = i + 1;
            }
        } else {
            i = i + 1;
        }
    }
    Some(spec)
}

/// The declaration that a `complete` line stands for, given how the line
/// splits into words: an error when it does not split, `None` when it is no
/// `complete` line.
pub open spec fn compspec_of_line(split: Option<Seq<Seq<char>>>) -> Option<
    Option<CompletionSpecView>,
> {
    match split {
        Some(args) => Some(compspec_of_args(args)),
        None => None,
    }
}

/// Reads the declaration that the shell printed for a command. The text is
/// split into words as a shell would; text that does not split is an error.
pub fn parse_compspec_output(output: &str) -> (r: Result<Option<CompletionSpec>, BashError>)
    ensures
        match r {
            Ok(Some(spec)) => compspec_of_line(shell_split(output@)) == Some(Some(spec@)),
            Ok(None) => compspec_of_line(shell_split(output@)) == Some(
                None::<CompletionSpecView>,
            ),
            Err(e) => shell_split(output@) is None && e is ParseError,
        },
{
    match shell_words(output) {
        Some(args) => Ok(parse_compspec_args(&args)),
        None => Err(BashError::ParseError("Failed to split output".to_string())),
    }
}

/// The declaration to use for `command`, given the text that the shell
/// printed when asked for it (`None` when it has none registered). An empty
/// command gets the blank declaration without a look at the text; a command
/// without a registered declaration gets default filename completion. The
/// result is `None` where the text does not split into words.
pub open spec fn resolved_spec(
    command: Seq<char>,
    declaration: Option<Seq<char>>,
) -> Option<CompletionSpecView> {
    if command.len() == 0 {
        Some(blank_spec())
    } else {
        match declaration {
            None => Some(default_only_spec()),
            Some(text) => match compspec_of_line(shell_split(text)) {
                None => None,
                Some(None) => Some(default_only_spec()),
                Some(Some(m)) => Some(m),
            },
        }
    }
}

/// The view of an optional string slice.
pub open spec fn opt_str(o: Option<&str>) -> Option<Seq<char>> {
    match o {
        Some(s) => Some(s@),
        None => None,
    }
}

/// Resolves the completion declaration for `command` from the shell's answer
/// to the query for it: `declaration` holds the text that the shell printed,
/// or `None` when the shell has nothing registered.
pub fn resolve_compspec(command: &str, declaration: Option<&str>) -> (r: Result<
    CompletionSpec,
    CompletionError,
>)
    ensures
        match r {
            Ok(spec) => resolved_spec(command@, opt_str(declaration)) == Some(spec@),
            Err(e) => {
                &&& resolved_spec(command@, opt_str(declaration)) is None
                &&& e matches CompletionError::BashModuleError(b) && b is ParseError
            },
        },
{
    if command.unicode_len() == 0 {
        return Ok(CompletionSpec::default());
    }
    match declaration {
        None => Ok(default_filenames_spec()),
        Some(text) => match parse_compspec_output(text) {
            Ok(Some(spec)) => Ok(spec),
            Ok(None) => Ok(default_filenames_spec()),
            Err(e) => Err(CompletionError::BashModuleError(e)),
        },
    }
}

/// The declaration that only asks for default filename completion.
pub fn default_filenames_spec() -> (spec: CompletionSpec)
    ensures
        spec@ == default_only_spec(),
{
    let mut spec = CompletionSpec::default();
    spec.options.default = true;
    spec
}

/// One call into the shell backend.
#[derive(Debug, Clone)]
pub enum BackendCall {
    /// Run a completion function with the request's words, the index of the
    /// cursor's word, the line and the cursor's byte offset.
    Function { function: String, words: Vec<String>, cword: usize, line: String, point: usize },
    /// Run the shell's candidate generator with these arguments.
    Compgen { args: Vec<String> },
}

/// What a `BackendCall` holds, with its strings as character sequences.
pub enum BackendCallView {
    Function { function: Seq<char>, words: Seq<Seq<char>>, cword: int, line: Seq<char>, point: int },
    Compgen { args: Seq<Seq<char>> },
}

impl View for BackendCall {
    type V = BackendCallView;

    open spec fn view(&self) -> BackendCallView {
        match self {
            BackendCall::Function { function, words, cword, line, point } => {
                BackendCallView::Function {
                    function: function@,
                    words: texts(words@),
                    cword: *cword as int,
                    line: line@,
                    point: *point as int,
                }
            },
            BackendCall::Compgen { args } => BackendCallView::Compgen { args: texts(args@) },
        }
    }
}

/// The views of a list of calls, in order.
pub open spec fn call_views(cs: Seq<BackendCall>) -> Seq<BackendCallView> {
    Seq::new(cs.len(), |i: int| cs[i]@)
}

/// The generator call with `flags`, then `--`, then the word to complete.
pub open spec fn compgen_call(flags: Seq<Seq<char>>, word: Seq<char>) -> BackendCallView {
    BackendCallView::Compgen { args: flags + seq!["--"@, word] }
}

/// The generator call for `flag` with an optional value, or no call.
pub open spec fn optional_call(
    flag: Seq<char>,
    value: Option<Seq<char>>,
    word: Seq<char>,
) -> Seq<BackendCallView> {
    match value {
        Some(v) => seq![compgen_call(seq![flag, v], word)],
        None => Seq::empty(),
    }
}

/// The generator call for a bare `flag` when `wanted`, or no call.
pub open spec fn switch_call(flag: Seq<char>, wanted: bool, word: Seq<char>) -> Seq<
    BackendCallView,
> {
    if wanted {
        seq![compgen_call(seq![flag], word)]
    } else {
        Seq::empty()
    }
}

/// The call of the declared completion function, or no call.
pub open spec fn function_call(
    function: Option<Seq<char>>,
    words: Seq<Seq<char>>,
    cword: int,
    line: Seq<char>,
    point: int,
) -> Seq<BackendCallView> {
    match function {
        Some(f) => seq![BackendCallView::Function { function: f, words, cword, line, point }],
        None => Seq::empty(),
    }
}

/// The calls that executing `spec` takes, in their fixed order: the
/// completion function, the word list, the generator command, the glob
/// pattern, filename completion when `filenames` or `default` is set, and
/// directory completion when `dirnames` is set. The results of all calls are
/// to be concatenated.
pub open spec fn execution_calls(
    spec: CompletionSpecView,
    words: Seq<Seq<char>>,
    cword: int,
    line: Seq<char>,
    point: int,
    word: Seq<char>,
) -> Seq<BackendCallView> {
    function_call(spec.function, words, cword, line, point) + optional_call(
        "-W"@,
        spec.wordlist,
        word,
    ) + optional_call("-C"@, spec.command, word) + optional_call("-G"@, spec.glob_pattern, word)
        + switch_call("-f"@, spec.options.filenames || spec.options.default, word) + switch_call(
        "-d"@,
        spec.options.dirnames,
        word,
    )
}

/// A copy of a list of strings.
pub fn copy_strings(v: &Vec<String>) -> (r: Vec<String>)
    ensures
        texts(r@) == texts(v@),
{
    let r = crate::parser::words_from(v.as_slice(), 0);
    assert(texts(v@).skip(0) =~= texts(v@));
    r
}

/// The generator call with `flag`, an optional value for it, `--` and `word`.
pub fn compgen(flag: &str, value: Option<&String>, word: &str) -> (call: BackendCall)
    ensures
        call@ == compgen_call(
            match value {
                Some(v) => seq![flag@, v@],
                None => seq![flag@],
            },
            word@,
        ),
{
    let mut args: Vec<String> = Vec::new();
    args.push(flag.to_owned());
    match value {
        Some(v) => {
            args.push(v.clone());
        },
        None => {},
    }
    args.push("--".to_owned());
    args.push(word.to_owned());
    let call = BackendCall::Compgen { args };
    proof {
        let flags = match value {
            Some(v) => seq![flag@, v@],
            None => seq![flag@],
        };
        assert(texts(args@) =~= flags + seq!["--"@, word@]);
    }
    call
}

/// Lays out the backend calls that executing `spec` for `ctx` takes. The
/// caller makes them in order and concatenates what they print.
pub fn execute_completion(spec: &CompletionSpec, ctx: &CompletionContext) -> (calls: Vec<
    BackendCall,
>)
    ensures
        call_views(calls@) == execution_calls(
            spec@,
            texts(ctx.words@),
            ctx.current_word_idx as int,
            ctx.line@,
            ctx.point as int,
            ctx.current_word@,
        ),
{
    let word = ctx.current_word.as_str();
    let mut calls: Vec<BackendCall> = Vec::new();
    let ghost s = spec@;
    let ghost ws = texts(ctx.words@);
    let ghost f = function_call(
        s.function,
        ws,
        ctx.current_word_idx as int,
        ctx.line@,
        ctx.point as int,
    );
    let ghost w = optional_call("-W"@, s.wordlist, word@);
    let ghost c = optional_call("-C"@, s.command, word@);
    let ghost g = optional_call("-G"@, s.glob_pattern, word@);
    let ghost fl = switch_call("-f"@, s.options.filenames || s.options.default, word@);
    let ghost d = switch_call("-d"@, s.options.dirnames, word@);

    match &spec.function {
        Some(function) => {
            calls.push(
                BackendCall::Function {
                    function: function.clone(),
                    words: copy_strings(&ctx.words),
                    cword: ctx.current_word_idx,
                    line: ctx.line.clone(),
                    point: ctx.point,
                },
            );
        },
        None => {},
    }
    assert(call_views(calls@) =~= f);
    match &spec.wordlist {
        Some(wordlist) => {
            calls.push(compgen("-W", Some(wordlist), word));
        },
        None => {},
    }
    assert(call_views(calls@) =~= f + w);
    match &spec.command {
        Some(command) => {
            calls.push(compgen("-C", Some(command), word));
        },
        None => {},
    }
    assert(call_views(calls@) =~= f + w + c);
    match &spec.glob_pattern {
        Some(glob) => {
            calls.push(compgen("-G", Some(glob), word));
        },
        None => {},
    }
    assert(call_views(calls@) =~= f + w + c + g);
    if spec.options.filenames || spec.options.default {
        calls.push(compgen("-f", None, word));
    }
    assert(call_views(calls@) =~= f + w + c + g + fl);
    if spec.options.dirnames {
        calls.push(compgen("-d", None, word));
    }
    assert(call_views(calls@) =~= f + w + c + g + fl + d);
    calls
}

/// The request is for a command name at the start of the line: the cursor is
/// in the first word and `spec` declares no function, word list, command or
/// glob pattern.
pub fn is_command_name_completion(spec: &CompletionSpec, ctx: &CompletionContext) -> (b: bool)
    ensures
        b == (ctx.current_word_idx == 0 && spec@.function is None && spec@.wordlist is None
            && spec@.command is None && spec@.glob_pattern is None),
{
    ctx.current_word_idx == 0 && spec.function.is_none() && spec.wordlist.is_none()
        && spec.command.is_none() && spec.glob_pattern.is_none()
}

/// The request is for a command name: right behind a pipe, or at the start
/// of the line without a declared generator.
pub open spec fn wants_command_name(spec: CompletionSpecView, ctx: &CompletionContext) -> bool {
    ||| (ctx.is_after_pipe && ctx.current_word_idx > 0 && crate::parser::last_pipe(
        texts(ctx.words@),
    ) == Some(ctx.current_word_idx as int - 1))
    ||| (ctx.current_word_idx == 0 && spec.function is None && spec.wordlist is None
        && spec.command is None && spec.glob_pattern is None)
}

/// The backend calls for one request: a listing of the command names that
/// start with the current word when a command name is asked for, else the
/// calls that executing `spec` takes.
pub fn backend_calls(spec: &CompletionSpec, ctx: &CompletionContext) -> (calls: Vec<BackendCall>)
    ensures
        call_views(calls@) == if wants_command_name(spec@, ctx) {
            seq![compgen_call(seq!["-c"@], ctx.current_word@)]
        } else {
            execution_calls(
                spec@,
                texts(ctx.words@),
                ctx.current_word_idx as int,
                ctx.line@,
                ctx.point as int,
                ctx.current_word@,
            )
        },
{
    if ctx.is_completing_pipe_command() || is_command_name_completion(spec, ctx) {
        let mut calls: Vec<BackendCall> = Vec::new();
        calls.push(compgen("-c", None, ctx.current_word.as_str()));
        assert(call_views(calls@) =~= seq![compgen_call(seq!["-c"@], ctx.current_word@)]);
        calls
    } else {
        execute_completion(spec, ctx)
    }
}

/// `parts` with one blank between neighbours.
pub open spec fn joined(parts: Seq<Seq<char>>) -> Seq<char>
    decreases parts.len(),
{
    if parts.len() == 0 {
        Seq::empty()
    } else if parts.len() == 1 {
        parts[0]
    } else {
        joined(parts.drop_last()) + seq![' '] + parts.last()
    }
}

/// Each of `words` quoted for the shell.
pub open spec fn quoted_words(words: Seq<Seq<char>>) -> Seq<Seq<char>> {
    Seq::new(words.len(), |i: int| quoted_or_same(words[i]))
}

/// `words`, each quoted for the shell, with one blank between neighbours.
pub fn join_quoted(words: &Vec<String>) -> (r: String)
    ensures
        r@ == joined(quoted_words(texts(words@))),
{
    let ghost qs = quoted_words(texts(words@));
    let mut r = String::new();
    let mut i: usize = 0;
    while i < words.len()
        invariant
            i <= words.len(),
            qs == quoted_words(texts(words@)),
            r@ == joined(qs.take(i as int)),
        decreases words.len() - i,
    {
        let q = shell_quote(words[i].as_str());
        assert(qs.take(i as int + 1).drop_last() =~= qs.take(i as int));
        assert(qs.take(i as int + 1).last() == q@);
        if i > 0 {
            r.push(' ');
            assert(r@ =~= joined(qs.take(i as int)) + seq![' ']);
        } else {
            assert(r@ + q@ =~= q@);
        }
        r.append(q.as_str());
        i = i + 1;
    }
    assert(qs.take(words.len() as int) =~= qs);
    r
}

/// The shell command that asks for the completion declaration of `command`.
pub open spec fn query_script(command: Seq<char>) -> Result<Seq<char>, Seq<char>> {
    match shell_quoted(command) {
        Ok(q) => Ok("complete -p -- "@ + q),
        Err(m) => Err(m),
    }
}

/// The shell command that prints the completion declaration registered for
/// `command`. A command that cannot be quoted is refused.
pub fn complete_query(command: &str) -> (r: Result<String, BashError>)
    ensures
        match r {
            Ok(script) => query_script(command@) == Ok::<Seq<char>, Seq<char>>(script@),
            Err(e) => e matches BashError::Other(m) && query_script(command@) == Err::<
                Seq<char>,
                Seq<char>,
            >(m@),
        },
{
    match try_quote(command) {
        Ok(q) => Ok(concat("complete -p -- ", q.as_str())),
        Err(m) => Err(BashError::Other(m)),
    }
}

/// The shell command that runs the candidate generator with `args`.
pub open spec fn compgen_script(args: Seq<Seq<char>>) -> Seq<char> {
    "compgen "@ + joined(quoted_words(args))
}

/// The text of `line` inside single quotes: every `'` closes the quotes,
/// stands escaped, and opens them again.
pub open spec fn single_quoted_body(line: Seq<char>) -> Seq<char> {
    replaced(line, '\'', "'\\''"@)
}

/// The shell script that runs a completion function: it sets up the words of
/// the line, the index of the cursor's word, the line and the cursor's offset
/// as the function expects them, calls the function, and prints each reply on
/// a line of its own.
pub open spec fn function_script(
    function: Seq<char>,
    words: Seq<Seq<char>>,
    cword: nat,
    line: Seq<char>,
    point: nat,
) -> Seq<char> {
    "\nCOMP_WORDS=("@ + joined(quoted_words(words)) + ")\nexport COMP_CWORD="@ + decimal(cword)
        + "\nexport COMP_LINE='"@ + single_quoted_body(line) + "'\nexport COMP_POINT="@ + decimal(
        point,
    ) + "\nexport COMP_KEY=\"\"\nexport COMP_TYPE=\"9\"\n\nCOMPREPLY=()\n\""@ + function
        + "\" 2>/dev/null\n\nfor reply in \"${COMPREPLY[@]}\"; do\n    echo \"$reply\"\ndone\n"@
}

/// The shell script that a backend call stands for.
pub open spec fn call_script(call: BackendCallView) -> Seq<char> {
    match call {
        BackendCallView::Function { function, words, cword, line, point } => function_script(
            function,
            words,
            cword as nat,
            line,
            point as nat,
        ),
        BackendCallView::Compgen { args } => compgen_script(args),
    }
}

impl BackendCall {
    /// The script to hand to the shell for this call. Each line that the
    /// script prints is a candidate.
    pub fn script(&self) -> (r: String)
        ensures
            r@ == call_script(self@),
    {
        match self {
            BackendCall::Compgen { args } => {
                let joined_args = join_quoted(args);
                concat("compgen ", joined_args.as_str())
            },
            BackendCall::Function { function, words, cword, line, point } => {
                let words_text = join_quoted(words);
                let cword_text = to_decimal(*cword);
                let line_text = replace_char(line.as_str(), '\'', "'\\''");
                let point_text = to_decimal(*point);
                let mut r = "\nCOMP_WORDS=(".to_owned();
                r.append(words_text.as_str());
                r.append(")\nexport COMP_CWORD=");
                r.append(cword_text.as_str());
                r.append("\nexport COMP_LINE='");
                r.append(line_text.as_str());
                r.append("'\nexport COMP_POINT=");
                r.append(point_text.as_str());
                r.append("\nexport COMP_KEY=\"\"\nexport COMP_TYPE=\"9\"\n\nCOMPREPLY=()\n\"");
                r.append(function.as_str());
                r.append(
                    "\" 2>/dev/null\n\nfor reply in \"${COMPREPLY[@]}\"; do\n    echo \"$reply\"\ndone\n",
                );
                r
            },
        }
    }
}

/// Position of the first line feed at or after `k`; the length of `s` when
/// there is none.
pub open spec fn next_newline(s: Seq<char>, k: int) -> int
    decreases s.len() - k,
{
    if k < 0 || k >= s.len() || s[k] == '\n' {
        k
    } else {
        next_newline(s, k + 1)
    }
}

/// End of the line that starts at `k` and runs to the line feed at `e`: a
/// carriage return right in front of the line feed is left out.
pub open spec fn line_end(s: Seq<char>, k: int, e: int) -> int {
    if k < e < s.len() && s[e - 1] == '\r' {
        e - 1
    } else {
        e
    }
}

/// Position behind the line that starts at `k`.
pub open spec fn next_line(s: Seq<char>, k: int) -> int {
    if next_newline(s, k) < k {
        k + 1
    } else if next_newline(s, k) >= s.len() {
        s.len() as int
    } else {
        next_newline(s, k) + 1
    }
}

/// The lines of `s` from position `k` on. A line ends at a line feed; a
/// carriage return right in front of that line feed belongs to the line
/// ending. Text behind the last line feed is a line too, unless it is empty.
pub open spec fn lines_from(s: Seq<char>, k: int) -> Seq<Seq<char>>
    decreases s.len() - k,
{
    if k < 0 || k >= s.len() {
        Seq::empty()
    } else {
        seq![s.subrange(k, line_end(s, k, next_newline(s, k)))] + lines_from(s, next_line(s, k))
    }
}

/// The lines of what a backend call printed, one candidate each.
pub fn output_lines(text: &str) -> (lines: Vec<String>)
    ensures
        texts(lines@) == lines_from(text@, 0),
{
    let chars = to_chars(text);
    let ghost s = text@;
    let mut lines: Vec<String> = Vec::new();
    let mut k: usize = 0;
    assert(texts(lines@) + lines_from(s, 0) =~= lines_from(s, 0));
    while k < chars.len()
        invariant
            k <= chars.len(),
            chars@ == s,
            lines_from(s, 0) == texts(lines@) + lines_from(s, k as int),
        decreases chars.len() - k,
    {
        let mut e: usize = k;
        while e < chars.len() && chars[e] != '\n'
            invariant
                k <= e <= chars.len(),
                chars@ == s,
                next_newline(s, k as int) == next_newline(s, e as int),
            decreases chars.len() - e,
        {
            e = e + 1;
        }
        let end = if k < e && e < chars.len() && chars[e - 1] == '\r' {
            e - 1
        } else {
            e
        };
        let ghost before = texts(lines@);
        let line = string_from(&chars, k, end);
        lines.push(line);
        proof {
            let piece = s.subrange(k as int, end as int);
            assert(texts(lines@) =~= before.push(piece));
            assert(before + (seq![piece] + lines_from(s, next_line(s, k as int))) =~= before.push(
                piece,
            ) + lines_from(s, next_line(s, k as int)));
        }
        if e == chars.len() {
            k = e;
        } else {
            k = e + 1;
        }
    }
    assert(texts(lines@) + lines_from(s, k as int) =~= texts(lines@));
    lines
}

/// What the calls of one request printed, in the order of the calls.
pub open spec fn gathered(outputs: Seq<Seq<Seq<char>>>) -> Seq<Seq<char>>
    decreases outputs.len(),
{
    if outputs.len() == 0 {
        Seq::empty()
    } else {
        gathered(outputs.drop_last()) + outputs.last()
    }
}

/// The views of a list of lists of strings.
pub open spec fn text_lists(outputs: Seq<Vec<String>>) -> Seq<Seq<Seq<char>>> {
    Seq::new(outputs.len(), |i: int| texts(outputs[i]@))
}

/// Puts the candidates of all calls of a request into one list, in the order
/// of the calls. Nothing is dropped here, a value may occur twice.
pub fn gather_outputs(outputs: &Vec<Vec<String>>) -> (all: Vec<String>)
    ensures
        texts(all@) == gathered(text_lists(outputs@)),
{
    let ghost os = text_lists(outputs@);
    let mut all: Vec<String> = Vec::new();
    let mut i: usize = 0;
    assert(texts(all@) =~= Seq::<Seq<char>>::empty());
    while i < outputs.len()
        invariant
            i <= outputs.len(),
            os == text_lists(outputs@),
            texts(all@) == gathered(os.take(i as int)),
        decreases outputs.len() - i,
    {
        let batch = &outputs[i];
        let ghost before = texts(all@);
        assert(os.take(i as int + 1).drop_last() =~= os.take(i as int));
        assert(os.take(i as int + 1).last() == texts(batch@));
        let mut j: usize = 0;
        assert(before + texts(batch@).take(0) =~= before);
        while j < batch.len()
            invariant
                j <= batch.len(),
                texts(all@) == before + texts(batch@).take(j as int),
            decreases batch.len() - j,
        {
            let ghost cur = texts(all@);
            all.push(batch[j].clone());
            assert(texts(all@) =~= cur.push(batch@[j as int]@));
            assert(before + texts(batch@).take(j as int + 1) =~= (before + texts(batch@).take(
                j as int,
            )).push(batch@[j as int]@));
            j = j + 1;
        }
        assert(texts(batch@).take(batch.len() as int) =~= texts(batch@));
        i = i + 1;
    }
    assert(os.take(outputs.len() as int) =~= os);
    all
}

} // verus!
