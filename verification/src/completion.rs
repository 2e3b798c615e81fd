//! The values that one completion request works on: the context derived from a
//! parsed line, candidate entries, and the shape of a completion declaration.
use vstd::prelude::*;
use crate::bash::{BashError, BashErrorView};
use crate::parser::{find_last_pipe_index, last_pipe, lemma_last_pipe, words_from, ParsedLine};
use crate::text::{concat, texts};

verus! {

/// What can go wrong while candidates are gathered.
#[derive(Debug)]
pub enum CompletionError {
    NoCompleter(String),
    BashError(String),
    IoError(String),
    BashModuleError(BashError),
    Other(String),
}

/// What a `CompletionError` holds, with its text as a character sequence.
pub enum CompletionErrorView {
    NoCompleter(Seq<char>),
    BashError(Seq<char>),
    IoError(Seq<char>),
    BashModuleError(BashErrorView),
    Other(Seq<char>),
}

impl View for CompletionError {
    type V = CompletionErrorView;

    open spec fn view(&self) -> CompletionErrorView {
        match self {
            CompletionError::NoCompleter(m) => CompletionErrorView::NoCompleter(m@),
            CompletionError::BashError(m) => CompletionErrorView::BashError(m@),
            CompletionError::IoError(m) => CompletionErrorView::IoError(m@),
            CompletionError::BashModuleError(e) => CompletionErrorView::BashModuleError(e@),
            CompletionError::Other(m) => CompletionErrorView::Other(m@),
        }
    }
}

impl CompletionError {
    /// The error as a line of text.
    pub fn message(&self) -> (m: String)
        ensures
            m@ == match *self {
                CompletionError::NoCompleter(t) => "No completer found for command: "@ + t@,
                CompletionError::BashError(t) => "Bash completion error: "@ + t@,
                CompletionError::IoError(t) => "IO error: "@ + t@,
                CompletionError::BashModuleError(e) => "Bash module error: "@ + match e@ {
                    BashErrorView::ExecutionError(t) => "Bash execution failed: "@ + t,
                    BashErrorView::ParseError(t) => "Failed to parse completion spec: "@ + t,
                    BashErrorView::IoError(t) => "IO error: "@ + t,
                    BashErrorView::Other(t) => "Other error: "@ + t,
                },
                CompletionError::Other(t) => "Other error: "@ + t@,
            },
    {
        match self {
            CompletionError::NoCompleter(t) => concat(
                "No completer found for command: ",
                t.as_str(),
            ),
            CompletionError::BashError(t) => concat("Bash completion error: ", t.as_str()),
            CompletionError::IoError(t) => concat("IO error: ", t.as_str()),
            CompletionError::BashModuleError(e) => {
                let inner = e.message();
                concat("Bash module error: ", inner.as_str())
            },
            CompletionError::Other(t) => concat("Other error: ", t.as_str()),
        }
    }
}

/// The source that produced a candidate.
#[derive(Debug, Clone, Copy, PartialEq, Eq, Structural)]
pub enum ProviderKind {
    History,
    Bash,
    Carapace,
    EnvVar,
    /// A pipeline, or an entry made up from several candidates.
    Merged,
}

/// One suggestion. Two entries with the same `value` count as the same
/// suggestion; `kind` only records where it came from.
#[derive(Debug, Clone)]
pub struct CompletionEntry {
    pub value: String,
    pub kind: ProviderKind,
}

impl View for CompletionEntry {
    type V = (Seq<char>, ProviderKind);

    open spec fn view(&self) -> (Seq<char>, ProviderKind) {
        (self.value@, self.kind)
    }
}

impl CompletionEntry {
    /// An entry with this value and kind.
    pub fn new(value: String, kind: ProviderKind) -> (e: Self)
        ensures
            e.value == value,
            e.kind == kind,
    {
        CompletionEntry { value, kind }
    }

    /// A copy of this entry.
    pub fn duplicate(&self) -> (e: Self)
        ensures
            e@ == self@,
    {
        CompletionEntry { value: self.value.clone(), kind: self.kind }
    }
}

/// The views of a list of entries, in order.
pub open spec fn entry_views(es: Seq<CompletionEntry>) -> Seq<(Seq<char>, ProviderKind)> {
    Seq::new(es.len(), |i: int| es[i]@)
}

/// The values of a list of entries, in order.
pub open spec fn entry_values(es: Seq<CompletionEntry>) -> Seq<Seq<char>> {
    Seq::new(es.len(), |i: int| es[i].value@)
}

/// The independent switches of a completion declaration.
#[derive(Debug, Clone, Copy, PartialEq, Eq, Structural)]
pub struct CompletionOptions {
    pub filenames: bool,
    pub noquote: bool,
    pub nospace: bool,
    pub bashdefault: bool,
    pub default: bool,
    pub dirnames: bool,
    pub plusdirs: bool,
    pub nosort: bool,
}

impl CompletionOptions {
    /// Every switch off.
    pub open spec fn none() -> Self {
        CompletionOptions {
            filenames: false,
            noquote: false,
            nospace: false,
            bashdefault: false,
            default: false,
            dirnames: false,
            plusdirs: false,
            nosort: false,
        }
    }
}

impl Default for CompletionOptions {
    fn default() -> (o: Self)
        ensures
            o == CompletionOptions::none(),
    {
        CompletionOptions {
            filenames: false,
            noquote: false,
            nospace: false,
            bashdefault: false,
            default: false,
            dirnames: false,
            plusdirs: false,
            nosort: false,
        }
    }
}

/// How completions for one command are to be generated.
#[derive(Debug, Clone)]
pub struct CompletionSpec {
    pub function: Option<String>,
    pub wordlist: Option<String>,
    pub glob_pattern: Option<String>,
    pub command: Option<String>,
    pub filter: Option<String>,
    pub prefix: String,
    pub suffix: String,
    pub options: CompletionOptions,
}

/// The view of an optional string.
pub open spec fn opt_text(o: Option<String>) -> Option<Seq<char>> {
    match o {
        Some(s) => Some(s@),
        None => None,
    }
}

/// What a `CompletionSpec` holds, with its strings as character sequences.
pub struct CompletionSpecView {
    pub function: Option<Seq<char>>,
    pub wordlist: Option<Seq<char>>,
    pub glob_pattern: Option<Seq<char>>,
    pub command: Option<Seq<char>>,
    pub filter: Option<Seq<char>>,
    pub prefix: Seq<char>,
    pub suffix: Seq<char>,
    pub options: CompletionOptions,
}

impl View for CompletionSpec {
    type V = CompletionSpecView;

    open spec fn view(&self) -> CompletionSpecView {
        CompletionSpecView {
            function: opt_text(self.function),
            wordlist: opt_text(self.wordlist),
            glob_pattern: opt_text(self.glob_pattern),
            command: opt_text(self.command),
            filter: opt_text(self.filter),
            prefix: self.prefix@,
            suffix: self.suffix@,
            options: self.options,
        }
    }
}

/// The declaration that declares nothing: no generator of any kind, empty
/// prefix and suffix, every option off.
pub open spec fn blank_spec() -> CompletionSpecView {
    CompletionSpecView {
        function: None,
        wordlist: None,
        glob_pattern: None,
        command: None,
        filter: None,
        prefix: Seq::empty(),
        suffix: Seq::empty(),
        options: CompletionOptions::none(),
    }
}

/// The declaration that only asks for default filename completion.
pub open spec fn default_only_spec() -> CompletionSpecView {
    CompletionSpecView {
        options: CompletionOptions { default: true, ..CompletionOptions::none() },
        ..blank_spec()
    }
}

impl CompletionSpec {
    /// A copy of this declaration.
    pub fn duplicate(&self) -> (s: Self)
        ensures
            s@ == self@,
    {
        CompletionSpec {
            function: copy_opt(&self.function),
            wordlist: copy_opt(&self.wordlist),
            glob_pattern: copy_opt(&self.glob_pattern),
            command: copy_opt(&self.command),
            filter: copy_opt(&self.filter),
            prefix: self.prefix.clone(),
            suffix: self.suffix.clone(),
            options: self.options,
        }
    }
}

impl Default for CompletionSpec {
    fn default() -> (s: Self)
        ensures
            s@ == blank_spec(),
    {
        CompletionSpec {
            function: None,
            wordlist: None,
            glob_pattern: None,
            command: None,
            filter: None,
            prefix: String::new(),
            suffix: String::new(),
            options: CompletionOptions::default(),
        }
    }
}

/// A copy of an optional string.
pub fn copy_opt(o: &Option<String>) -> (r: Option<String>)
    ensures
        opt_text(r) == opt_text(*o),
{
    match o {
        Some(s) => Some(s.clone()),
        None => None,
    }
}

/// The cursor's word lies behind the last pipe of `ws`.
pub open spec fn after_pipe(ws: Seq<Seq<char>>, idx: int) -> bool {
    last_pipe(ws) matches Some(p) && idx > p
}

/// Word `i` of `ws`, or the empty word when there is none.
pub open spec fn word_or_empty(ws: Seq<Seq<char>>, i: int) -> Seq<char> {
    if 0 <= i < ws.len() {
        ws[i]
    } else {
        Seq::empty()
    }
}

/// The command that the cursor's word belongs to: the word behind the last
/// pipe when the cursor lies behind that pipe and the word exists, else the
/// first word of the line (empty when the line has no word).
pub open spec fn effective_command(ws: Seq<Seq<char>>, idx: int) -> Seq<char> {
    match last_pipe(ws) {
        Some(p) => if idx > p && p + 1 < ws.len() {
            ws[p + 1]
        } else {
            word_or_empty(ws, 0)
        },
        None => word_or_empty(ws, 0),
    }
}

/// The word in front of the cursor's word.
pub open spec fn previous_word_of(ws: Seq<Seq<char>>, idx: int) -> Option<Seq<char>> {
    if 0 < idx <= ws.len() {
        Some(ws[idx - 1])
    } else {
        None
    }
}

/// The word in front of the last pipe, for a cursor behind that pipe. A pipe
/// that opens the line has no word in front of it.
pub open spec fn previous_command_of(ws: Seq<Seq<char>>, idx: int) -> Option<Seq<char>> {
    match last_pipe(ws) {
        Some(p) => if idx > p && p > 0 {
            Some(ws[p - 1])
        } else {
            None
        },
        None => None,
    }
}

/// The words behind the command that follows the last pipe, for a cursor
/// behind that pipe.
pub open spec fn pipe_args_of(ws: Seq<Seq<char>>, idx: int) -> Seq<Seq<char>> {
    match last_pipe(ws) {
        Some(p) => if idx > p && p + 2 < ws.len() {
            ws.skip(p + 2)
        } else {
            Seq::empty()
        },
        None => Seq::empty(),
    }
}

/// What one completion request knows about the line. Built once from a parsed
/// line and only read afterwards.
#[derive(Debug, Clone)]
pub struct CompletionContext {
    pub words: Vec<String>,
    pub current_word_idx: usize,
    pub line: String,
    pub point: usize,
    /// The effective command: the one whose arguments are being completed.
    pub command: String,
    pub current_word: String,
    pub previous_word: Option<String>,
    /// The cursor's word lies behind the last pipe of the line.
    pub is_after_pipe: bool,
    /// The word in front of that pipe, if there is one.
    pub previous_command: Option<String>,
    /// The arguments typed for the command behind that pipe.
    pub pipe_command_args: Vec<String>,
}

impl CompletionContext {
    /// The derived fields say what `words` and `current_word_idx` imply.
    pub open spec fn wf(&self) -> bool {
        let ws = texts(self.words@);
        let idx = self.current_word_idx as int;
        &&& self.command@ == effective_command(ws, idx)
        &&& self.current_word@ == word_or_empty(ws, idx)
        &&& opt_text(self.previous_word) == previous_word_of(ws, idx)
        &&& self.is_after_pipe == after_pipe(ws, idx)
        &&& opt_text(self.previous_command) == previous_command_of(ws, idx)
        &&& texts(self.pipe_command_args@) == pipe_args_of(ws, idx)
    }

    /// Derives the context of a request from the parsed line, the line's text
    /// and the cursor's byte offset.
    pub fn from_parsed(parsed: &ParsedLine, line: String, point: usize) -> (ctx: Self)
        ensures
            ctx.wf(),
            texts(ctx.words@) == texts(parsed.words@),
            ctx.current_word_idx == parsed.current_word_index,
            ctx.line == line,
            ctx.point == point,
    {
        let words = words_from(parsed.words.as_slice(), 0);
        let ghost ws = texts(parsed.words@);
        let idx = parsed.current_word_index;
        let n = words.len();
        proof {
            assert(ws.skip(0) =~= ws);
            assert(texts(words@).len() == words@.len());
            lemma_last_pipe(ws);
        }
        let first = if n > 0 {
            words[0].clone()
        } else {
            String::new()
        };
        let current_word = if idx < n {
            words[idx].clone()
        } else {
            String::new()
        };
        let previous_word = if idx > 0 && idx - 1 < n {
            Some(words[idx - 1].clone())
        } else {
            None
        };
        let pipe_idx = find_last_pipe_index(words.as_slice());
        let mut is_after_pipe = false;
        let mut previous_command: Option<String> = None;
        let mut pipe_command_args: Vec<String> = Vec::new();
        let mut command = first;
        assert(texts(pipe_command_args@) =~= Seq::<Seq<char>>::empty());
        match pipe_idx {
            Some(p) => {
                if idx > p {
                    is_after_pipe = true;
                    if p > 0 {
                        previous_command = Some(words[p - 1].clone());
                    }
                    if n - p > 2 {
                        pipe_command_args = words_from(words.as_slice(), p + 2);
                    }
                    if n - p > 1 {
                        command = words[p + 1].clone();
                    }
                }
            },
            None => {},
        }
        CompletionContext {
            words,
            current_word_idx: idx,
            line,
            point,
            command,
            current_word,
            previous_word,
            is_after_pipe,
            previous_command,
            pipe_command_args,
        }
    }

    /// Whether the word under the cursor is the command name right behind the
    /// last pipe, rather than one of its arguments.
    pub fn is_completing_pipe_command(&self) -> (b: bool)
        ensures
            b == (self.is_after_pipe && self.current_word_idx > 0 && last_pipe(texts(self.words@))
                == Some(self.current_word_idx as int - 1)),
            self.wf() ==> b == (last_pipe(texts(self.words@)) matches Some(p)
                && self.current_word_idx as int == p + 1),
    {
        proof {
            lemma_last_pipe(texts(self.words@));
        }
        if !self.is_after_pipe || self.current_word_idx == 0 {
            return false;
        }
        match find_last_pipe_index(self.words.as_slice()) {
            Some(p) => self.current_word_idx - 1 == p,
            None => false,
        }
    }
}

} // verus!
