//! Completion sources and the engine that consults them in order.
use vstd::prelude::*;
use crate::bash::BashError;
use crate::completion::{
    blank_spec, entry_views, CompletionContext, CompletionEntry, CompletionError,
    CompletionErrorView, CompletionSpec, CompletionSpecView, ProviderKind,
};
use crate::history::{first_matches, get_history_commands_by_prefix, history_of, limit_of, take_matches};
use crate::parser::words_from;
use crate::text::{concat, string_from, texts, to_chars, trim, trimmed};

verus! {

/// A source of candidates.
pub trait CompletionProvider: Send {
    /// The name under which results are reported.
    fn name(&self) -> &str;

    /// The tag that this source puts on its entries.
    fn kind(&self) -> ProviderKind;

    /// A cheap test whether this source applies to the request at all. A
    /// source that does not say otherwise applies to every request.
    fn should_try(&self, ctx: &CompletionContext) -> (b: bool)
        default_ensures
            b,
    {
        true
    }

    /// The candidates for the request. `None` says that the source has no
    /// opinion, which is not the same as an empty list.
    fn try_complete(&self, ctx: &CompletionContext) -> Result<
        Option<Vec<CompletionEntry>>,
        CompletionError,
    >;
}

/// `acc` holds an entry with value `v`.
pub open spec fn has_value(acc: Seq<(Seq<char>, ProviderKind)>, v: Seq<char>) -> bool {
    exists|j: int| 0 <= j < acc.len() && (#[trigger] acc[j]).0 == v
}

/// `acc` with `e` appended, unless its value is there already.
pub open spec fn merge_entry(
    acc: Seq<(Seq<char>, ProviderKind)>,
    e: (Seq<char>, ProviderKind),
) -> Seq<(Seq<char>, ProviderKind)> {
    if has_value(acc, e.0) {
        acc
    } else {
        acc.push(e)
    }
}

/// `acc` after the entries of `batch` were merged in, one after the other.
pub open spec fn merged(
    acc: Seq<(Seq<char>, ProviderKind)>,
    batch: Seq<(Seq<char>, ProviderKind)>,
) -> Seq<(Seq<char>, ProviderKind)>
    decreases batch.len(),
{
    if batch.len() == 0 {
        acc
    } else {
        merge_entry(merged(acc, batch.drop_last()), batch.last())
    }
}

/// No two entries share a value.
pub open spec fn distinct_values(acc: Seq<(Seq<char>, ProviderKind)>) -> bool {
    forall|i: int, j: int|
        0 <= i < j < acc.len() ==> (#[trigger] acc[i]).0 != (#[trigger] acc[j]).0
}

/// Whether `list` holds an entry with this value.
pub fn contains_value(list: &Vec<CompletionEntry>, value: &String) -> (b: bool)
    ensures
        b == has_value(entry_views(list@), value@),
{
    let mut i: usize = 0;
    while i < list.len()
        invariant
            i <= list.len(),
            forall|j: int| 0 <= j < i ==> (#[trigger] entry_views(list@)[j]).0 != value@,
        decreases list.len() - i,
    {
        if list[i].value == *value {
            assert(entry_views(list@)[i as int].0 == value@);
            return true;
        }
        i = i + 1;
    }
    false
}

/// Merges `batch` into `merged_list`: each entry whose value is new is
/// appended, in the order of `batch`; an entry whose value is there already is
/// dropped, so the earlier entry keeps its kind.
pub fn merge_into(merged_list: &mut Vec<CompletionEntry>, batch: Vec<CompletionEntry>)
    ensures
        entry_views(final(merged_list)@) == merged(entry_views(old(merged_list)@), entry_views(batch@)),
{
    let ghost start = entry_views(merged_list@);
    let ghost all = entry_views(batch@);
    let mut i: usize = 0;
    while i < batch.len()
        invariant
            i <= batch.len(),
            all == entry_views(batch@),
            entry_views(merged_list@) == merged(start, all.take(i as int)),
        decreases batch.len() - i,
    {
        let ghost before = entry_views(merged_list@);
        assert(all.take(i as int + 1).drop_last() =~= all.take(i as int));
        assert(all.take(i as int + 1).last() == batch@[i as int]@);
        if !contains_value(merged_list, &batch[i].value) {
            merged_list.push(batch[i].duplicate());
            assert(entry_views(merged_list@) =~= before.push(batch@[i as int]@));
        }
        i = i + 1;
    }
    assert(all.take(batch.len() as int) =~= all);
}

/// `values` as entries of one kind.
pub open spec fn tagged(values: Seq<Seq<char>>, kind: ProviderKind) -> Seq<
    (Seq<char>, ProviderKind),
> {
    Seq::new(values.len(), |i: int| (values[i], kind))
}

/// What a source answers: candidates, no opinion (`None`), or an error.
pub open spec fn outcome_view(
    r: Result<Option<Vec<CompletionEntry>>, CompletionError>,
) -> Result<Option<Seq<(Seq<char>, ProviderKind)>>, CompletionErrorView> {
    match r {
        Ok(Some(es)) => Ok(Some(entry_views(es@))),
        Ok(None) => Ok(None),
        Err(e) => Err(e@),
    }
}

/// Makes entries of one kind from a list of values.
pub fn tag_all(values: &Vec<String>, kind: ProviderKind) -> (es: Vec<CompletionEntry>)
    ensures
        entry_views(es@) == tagged(texts(values@), kind),
{
    let mut es: Vec<CompletionEntry> = Vec::new();
    let mut i: usize = 0;
    while i < values.len()
        invariant
            i <= values.len(),
            entry_views(es@) == tagged(texts(values@), kind).take(i as int),
        decreases values.len() - i,
    {
        let ghost before = entry_views(es@);
        es.push(CompletionEntry::new(values[i].clone(), kind));
        assert(entry_views(es@) =~= before.push((values@[i as int]@, kind)));
        assert(tagged(texts(values@), kind).take(i as int + 1) =~= tagged(
            texts(values@),
            kind,
        ).take(i as int).push((values@[i as int]@, kind)));
        i = i + 1;
    }
    assert(tagged(texts(values@), kind).take(values.len() as int) =~= tagged(
        texts(values@),
        kind,
    ));
    es
}

/// Each of `names` with a `$` in front.
pub open spec fn with_dollar(names: Seq<Seq<char>>) -> Seq<Seq<char>> {
    Seq::new(names.len(), |i: int| seq!['$'] + names[i])
}

/// The variables among `vars` whose name starts with `prefix`, letter case
/// aside, each written with a `$` in front.
pub fn get_env_variables(vars: &Vec<String>, prefix: &str) -> (r: Vec<String>)
    ensures
        texts(r@) == with_dollar(first_matches(texts(vars@), prefix@, limit_of(None))),
{
    let names = take_matches(vars, prefix, usize::MAX, false);
    let ghost ns = texts(names@);
    let mut r: Vec<String> = Vec::new();
    let mut i: usize = 0;
    while i < names.len()
        invariant
            i <= names.len(),
            ns == texts(names@),
            texts(r@) == with_dollar(ns).take(i as int),
        decreases names.len() - i,
    {
        let ghost before = texts(r@);
        let v = concat("$", names[i].as_str());
        proof {
            reveal_strlit("$");
            assert("$"@ =~= seq!['$']);
        }
        r.push(v);
        assert(texts(r@) =~= before.push(seq!['$'] + ns[i as int]));
        assert(with_dollar(ns).take(i as int + 1) =~= with_dollar(ns).take(i as int).push(
            seq!['$'] + ns[i as int],
        ));
        i = i + 1;
    }
    assert(with_dollar(ns).take(names.len() as int) =~= with_dollar(ns));
    r
}

/// Completes names of environment variables. It holds the names that the
/// environment has.
pub struct EnvVarProvider {
    pub vars: Vec<String>,
}

impl EnvVarProvider {
    /// A source over the names of the variables that are set.
    pub fn new(vars: Vec<String>) -> (p: Self)
        ensures
            p.vars == vars,
    {
        EnvVarProvider { vars }
    }

    /// The source applies when the current word starts with `$`.
    pub open spec fn applies(&self, ctx: &CompletionContext) -> bool {
        ctx.current_word@.len() > 0 && ctx.current_word@[0] == '$'
    }

    /// The variables whose name starts with what follows the `$`.
    pub open spec fn outcome(&self, ctx: &CompletionContext) -> Result<
        Option<Seq<(Seq<char>, ProviderKind)>>,
        CompletionErrorView,
    > {
        if self.applies(ctx) {
            Ok(
                Some(
                    tagged(
                        with_dollar(
                            first_matches(
                                texts(self.vars@),
                                ctx.current_word@.skip(1),
                                limit_of(None),
                            ),
                        ),
                        ProviderKind::EnvVar,
                    ),
                ),
            )
        } else {
            Ok(None)
        }
    }
}

impl CompletionProvider for EnvVarProvider {
    fn name(&self) -> (n: &str)
        ensures
            n@ == "envvar"@,
    {
        "envvar"
    }

    fn kind(&self) -> (k: ProviderKind)
        ensures
            k == ProviderKind::EnvVar,
    {
        ProviderKind::EnvVar
    }

    fn should_try(&self, ctx: &CompletionContext) -> (b: bool)
        ensures
            b == self.applies(ctx),
    {
        let word = ctx.current_word.as_str();
        word.unicode_len() > 0 && word.get_char(0) == '$'
    }

    fn try_complete(&self, ctx: &CompletionContext) -> (r: Result<
        Option<Vec<CompletionEntry>>,
        CompletionError,
    >)
        ensures
            outcome_view(r) == self.outcome(ctx),
    {
        if !self.should_try(ctx) {
            return Ok(None);
        }
        let chars = to_chars(ctx.current_word.as_str());
        let prefix = string_from(&chars, 1, chars.len());
        assert(prefix@ =~= ctx.current_word@.skip(1));
        let names = get_env_variables(&self.vars, prefix.as_str());
        Ok(Some(tag_all(&names, ProviderKind::EnvVar)))
    }
}

/// Completes whole command lines from the history. It holds the lines of the
/// history file, oldest first, and the largest number of candidates to give.
pub struct HistoryProvider {
    pub lines: Vec<String>,
    pub limit: Option<usize>,
}

impl HistoryProvider {
    /// A source over the lines of the history file, oldest first, that
    /// gives at most `limit` candidates.
    pub fn new(lines: Vec<String>, limit: Option<usize>) -> (p: Self)
        ensures
            p.lines == lines,
            p.limit == limit,
    {
        HistoryProvider { lines, limit }
    }

    /// The source applies when the line holds more than whitespace.
    pub open spec fn applies(&self, ctx: &CompletionContext) -> bool {
        trimmed(ctx.line@).len() > 0
    }

    /// The remembered lines that start with the trimmed line, newest first,
    /// up to the limit.
    pub open spec fn found(&self, ctx: &CompletionContext) -> Seq<Seq<char>> {
        first_matches(
            history_of(texts(self.lines@), self.lines@.len() as int, None).reverse(),
            trimmed(ctx.line@),
            limit_of(self.limit),
        )
    }

    /// What was found, or no opinion when nothing was.
    pub open spec fn outcome(&self, ctx: &CompletionContext) -> Result<
        Option<Seq<(Seq<char>, ProviderKind)>>,
        CompletionErrorView,
    > {
        if self.applies(ctx) && self.found(ctx).len() > 0 {
            Ok(Some(tagged(self.found(ctx), ProviderKind::History)))
        } else {
            Ok(None)
        }
    }
}

impl CompletionProvider for HistoryProvider {
    fn name(&self) -> (n: &str)
        ensures
            n@ == "history"@,
    {
        "history"
    }

    fn kind(&self) -> (k: ProviderKind)
        ensures
            k == ProviderKind::History,
    {
        ProviderKind::History
    }

    fn should_try(&self, ctx: &CompletionContext) -> (b: bool)
        ensures
            b == self.applies(ctx),
    {
        let prefix = trim(ctx.line.as_str());
        prefix.as_str().unicode_len() > 0
    }

    fn try_complete(&self, ctx: &CompletionContext) -> (r: Result<
        Option<Vec<CompletionEntry>>,
        CompletionError,
    >)
        ensures
            outcome_view(r) == self.outcome(ctx),
    {
        let prefix = trim(ctx.line.as_str());
        if prefix.as_str().unicode_len() == 0 {
            return Ok(None);
        }
        let found = get_history_commands_by_prefix(&self.lines, prefix.as_str(), self.limit);
        assert(texts(found@).len() == found@.len());
        if found.len() == 0 {
            return Ok(None);
        }
        Ok(Some(tag_all(&found, ProviderKind::History)))
    }
}

/// One suggestion of the structured completion index.
#[derive(Debug, Clone)]
pub struct CarapaceItem {
    pub value: String,
    pub display: String,
    pub description: Option<String>,
    pub style: Option<String>,
}

/// The values of a list of items, in order.
pub open spec fn item_values(items: Seq<CarapaceItem>) -> Seq<Seq<char>> {
    Seq::new(items.len(), |i: int| items[i].value@)
}

/// Completes from the structured completion index. It holds what the index
/// answered for the request, `None` when the index is not available.
pub struct CarapaceProvider {
    pub items: Option<Vec<CarapaceItem>>,
}

/// The arguments that the index is asked with: behind a pipe the command and
/// its arguments, else the words up to and including the cursor's word.
pub open spec fn index_arguments(ctx: &CompletionContext) -> Seq<Seq<char>> {
    if ctx.is_after_pipe {
        seq![ctx.command@] + texts(ctx.pipe_command_args@)
    } else if ctx.current_word_idx < ctx.words@.len() {
        texts(ctx.words@).take(ctx.current_word_idx as int + 1)
    } else {
        texts(ctx.words@)
    }
}

impl CarapaceProvider {
    /// A source that holds what the index answered.
    pub fn new(items: Option<Vec<CarapaceItem>>) -> (p: Self)
        ensures
            p.items == items,
    {
        CarapaceProvider { items }
    }

    /// The arguments to ask the index with; the command to ask for is
    /// `ctx.command`.
    pub fn arguments(ctx: &CompletionContext) -> (args: Vec<String>)
        ensures
            texts(args@) == index_arguments(ctx),
    {
        let mut args: Vec<String> = Vec::new();
        let source: &Vec<String>;
        let count: usize;
        if ctx.is_after_pipe {
            args.push(ctx.command.clone());
            source = &ctx.pipe_command_args;
            count = ctx.pipe_command_args.len();
        } else {
            source = &ctx.words;
            count = if ctx.current_word_idx < ctx.words.len() {
                ctx.current_word_idx + 1
            } else {
                ctx.words.len()
            };
        }
        let ghost head = texts(args@);
        let mut i: usize = 0;
        while i < count
            invariant
                i <= count <= source.len(),
                texts(args@) == head + texts(source@).take(i as int),
            decreases count - i,
        {
            let ghost before = texts(args@);
            args.push(source[i].clone());
            assert(texts(args@) =~= before.push(source@[i as int]@));
            assert(head + texts(source@).take(i as int + 1) =~= (head + texts(source@).take(
                i as int,
            )).push(source@[i as int]@));
            i = i + 1;
        }
        proof {
            if ctx.is_after_pipe {
                assert(head =~= seq![ctx.command@]);
                assert(texts(source@).take(count as int) =~= texts(source@));
            } else {
                assert(head =~= Seq::<Seq<char>>::empty());
                assert(head + texts(source@).take(count as int) =~= texts(source@).take(
                    count as int,
                ));
                assert(texts(source@).take(source@.len() as int) =~= texts(source@));
            }
        }
        args
    }

    /// What the index gave, or no opinion when it is not available.
    pub open spec fn outcome(&self, ctx: &CompletionContext) -> Result<
        Option<Seq<(Seq<char>, ProviderKind)>>,
        CompletionErrorView,
    > {
        match self.items {
            Some(items) => Ok(Some(tagged(item_values(items@), ProviderKind::Carapace))),
            None => Ok(None),
        }
    }
}

impl CompletionProvider for CarapaceProvider {
    fn name(&self) -> (n: &str)
        ensures
            n@ == "carapace"@,
    {
        "carapace"
    }

    fn kind(&self) -> (k: ProviderKind)
        ensures
            k == ProviderKind::Carapace,
    {
        ProviderKind::Carapace
    }

    fn should_try(&self, ctx: &CompletionContext) -> (b: bool)
        ensures
            b,
    {
        true
    }

    fn try_complete(&self, ctx: &CompletionContext) -> (r: Result<
        Option<Vec<CompletionEntry>>,
        CompletionError,
    >)
        ensures
            outcome_view(r) == self.outcome(ctx),
    {
        match &self.items {
            None => Ok(None),
            Some(items) => {
                let mut es: Vec<CompletionEntry> = Vec::new();
                let ghost all = tagged(item_values(items@), ProviderKind::Carapace);
                let mut i: usize = 0;
                while i < items.len()
                    invariant
                        i <= items.len(),
                        all == tagged(item_values(items@), ProviderKind::Carapace),
                        entry_views(es@) == all.take(i as int),
                    decreases items.len() - i,
                {
                    let ghost before = entry_views(es@);
                    es.push(CompletionEntry::new(items[i].value.clone(), ProviderKind::Carapace));
                    assert(entry_views(es@) =~= before.push(all[i as int]));
                    assert(all.take(i as int + 1) =~= all.take(i as int).push(all[i as int]));
                    i = i + 1;
                }
                assert(all.take(items.len() as int) =~= all);
                Ok(Some(es))
            },
        }
    }
}

/// Completes through the shell backend. It holds what the backend printed for
/// the calls of the request, one candidate per line, or the error that it ran
/// into.
pub struct BashProvider {
    pub answer: Result<Vec<String>, BashError>,
}

impl BashProvider {
    /// A source that holds what the shell backend answered.
    pub fn new(answer: Result<Vec<String>, BashError>) -> (p: Self)
        ensures
            p.answer == answer,
    {
        BashProvider { answer }
    }

    /// The lines as candidates, or the backend's error.
    pub open spec fn outcome(&self, ctx: &CompletionContext) -> Result<
        Option<Seq<(Seq<char>, ProviderKind)>>,
        CompletionErrorView,
    > {
        match self.answer {
            Ok(lines) => Ok(Some(tagged(texts(lines@), ProviderKind::Bash))),
            Err(e) => Err(CompletionErrorView::BashModuleError(e@)),
        }
    }
}

impl CompletionProvider for BashProvider {
    fn name(&self) -> (n: &str)
        ensures
            n@ == "bash"@,
    {
        "bash"
    }

    fn kind(&self) -> (k: ProviderKind)
        ensures
            k == ProviderKind::Bash,
    {
        ProviderKind::Bash
    }

    fn should_try(&self, ctx: &CompletionContext) -> (b: bool)
        ensures
            b,
    {
        true
    }

    fn try_complete(&self, ctx: &CompletionContext) -> (r: Result<
        Option<Vec<CompletionEntry>>,
        CompletionError,
    >)
        ensures
            outcome_view(r) == self.outcome(ctx),
    {
        match &self.answer {
            Ok(lines) => Ok(Some(tag_all(lines, ProviderKind::Bash))),
            Err(e) => Err(CompletionError::BashModuleError(e.duplicate())),
        }
    }
}

/// One of the sources that the engine knows.
pub enum Provider {
    EnvVar(EnvVarProvider),
    History(HistoryProvider),
    Carapace(CarapaceProvider),
    Bash(BashProvider),
}

impl Provider {
    /// Whether the source applies to the request.
    pub open spec fn applies(&self, ctx: &CompletionContext) -> bool {
        match self {
            Provider::EnvVar(p) => p.applies(ctx),
            Provider::History(p) => p.applies(ctx),
            Provider::Carapace(_) => true,
            Provider::Bash(_) => true,
        }
    }

    /// What the source answers to the request.
    pub open spec fn outcome(&self, ctx: &CompletionContext) -> Result<
        Option<Seq<(Seq<char>, ProviderKind)>>,
        CompletionErrorView,
    > {
        match self {
            Provider::EnvVar(p) => p.outcome(ctx),
            Provider::History(p) => p.outcome(ctx),
            Provider::Carapace(p) => p.outcome(ctx),
            Provider::Bash(p) => p.outcome(ctx),
        }
    }

    /// The name of the source.
    pub open spec fn label(&self) -> Seq<char> {
        match self {
            Provider::EnvVar(_) => "envvar"@,
            Provider::History(_) => "history"@,
            Provider::Carapace(_) => "carapace"@,
            Provider::Bash(_) => "bash"@,
        }
    }
}

impl CompletionProvider for Provider {
    fn name(&self) -> (n: &str)
        ensures
            n@ == self.label(),
    {
        match self {
            Provider::EnvVar(p) => p.name(),
            Provider::History(p) => p.name(),
            Provider::Carapace(p) => p.name(),
            Provider::Bash(p) => p.name(),
        }
    }

    fn kind(&self) -> (k: ProviderKind)
        ensures
            k == match self {
                Provider::EnvVar(_) => ProviderKind::EnvVar,
                Provider::History(_) => ProviderKind::History,
                Provider::Carapace(_) => ProviderKind::Carapace,
                Provider::Bash(_) => ProviderKind::Bash,
            },
    {
        match self {
            Provider::EnvVar(p) => p.kind(),
            Provider::History(p) => p.kind(),
            Provider::Carapace(p) => p.kind(),
            Provider::Bash(p) => p.kind(),
        }
    }

    fn should_try(&self, ctx: &CompletionContext) -> (b: bool)
        ensures
            b == self.applies(ctx),
    {
        match self {
            Provider::EnvVar(p) => p.should_try(ctx),
            Provider::History(p) => p.should_try(ctx),
            Provider::Carapace(p) => p.should_try(ctx),
            Provider::Bash(p) => p.should_try(ctx),
        }
    }

    fn try_complete(&self, ctx: &CompletionContext) -> (r: Result<
        Option<Vec<CompletionEntry>>,
        CompletionError,
    >)
        ensures
            outcome_view(r) == self.outcome(ctx),
    {
        match self {
            Provider::EnvVar(p) => p.try_complete(ctx),
            Provider::History(p) => p.try_complete(ctx),
            Provider::Carapace(p) => p.try_complete(ctx),
            Provider::Bash(p) => p.try_complete(ctx),
        }
    }
}

/// The candidates merged from the first `k` sources of `ps`, or the error of
/// the first applicable source that failed. A source that does not apply is
/// skipped; one without an opinion adds nothing.
pub open spec fn run_providers(ps: Seq<Provider>, ctx: &CompletionContext, k: int) -> Result<
    Seq<(Seq<char>, ProviderKind)>,
    CompletionErrorView,
>
    decreases k,
{
    if k <= 0 {
        Ok(Seq::empty())
    } else {
        match run_providers(ps, ctx, k - 1) {
            Err(e) => Err(e),
            Ok(acc) => if !ps[k - 1].applies(ctx) {
                Ok(acc)
            } else {
                match ps[k - 1].outcome(ctx) {
                    Err(e) => Err(e),
                    Ok(None) => Ok(acc),
                    Ok(Some(batch)) => Ok(merged(acc, batch)),
                }
            },
        }
    }
}

/// What a pipeline over `ps` answers: the merged candidates, no opinion when
/// there are none, or the first error.
pub open spec fn pipeline_outcome(ps: Seq<Provider>, ctx: &CompletionContext) -> Result<
    Option<Seq<(Seq<char>, ProviderKind)>>,
    CompletionErrorView,
> {
    match run_providers(ps, ctx, ps.len() as int) {
        Err(e) => Err(e),
        Ok(acc) => if acc.len() == 0 {
            Ok(None)
        } else {
            Ok(Some(acc))
        },
    }
}

/// Consults a list of sources in order of priority and merges what they
/// return.
pub struct PipelineProvider {
    pub name: String,
    pub providers: Vec<Provider>,
}

impl PipelineProvider {
    /// An empty pipeline.
    pub fn new(name: &str) -> (p: Self)
        ensures
            p.name@ == name@,
            p.providers@.len() == 0,
    {
        PipelineProvider { name: name.to_owned(), providers: Vec::new() }
    }

    /// Adds a source behind those already there.
    pub fn with(self, provider: Provider) -> (p: Self)
        ensures
            p.name == self.name,
            p.providers@ == self.providers@.push(provider),
    {
        let mut providers = self.providers;
        providers.push(provider);
        PipelineProvider { name: self.name, providers }
    }

    /// Adds a boxed source behind those already there.
    pub fn with_boxed(self, provider: Box<Provider>) -> (p: Self)
        ensures
            p.name == self.name,
            p.providers@ == self.providers@.push(*provider),
    {
        self.with(*provider)
    }
}

impl CompletionProvider for PipelineProvider {
    fn name(&self) -> (n: &str)
        ensures
            n@ == self.name@,
    {
        self.name.as_str()
    }

    fn kind(&self) -> (k: ProviderKind)
        ensures
            k == ProviderKind::Merged,
    {
        ProviderKind::Merged
    }

    fn should_try(&self, ctx: &CompletionContext) -> (b: bool)
        ensures
            b,
    {
        true
    }

    /// Runs the sources in order, skipping those that do not apply, and merges
    /// their candidates: a value is kept where it first appears, with the
    /// kind it has there. The first error ends the run. No opinion when
    /// nothing was found.
    fn try_complete(&self, ctx: &CompletionContext) -> (r: Result<
        Option<Vec<CompletionEntry>>,
        CompletionError,
    >)
        ensures
            outcome_view(r) == pipeline_outcome(self.providers@, ctx),
    {
        let ghost ps = self.providers@;
        let mut merged_list: Vec<CompletionEntry> = Vec::new();
        let mut i: usize = 0;
        assert(entry_views(merged_list@) =~= Seq::empty());
        while i < self.providers.len()
            invariant
                i <= self.providers.len(),
                ps == self.providers@,
                run_providers(ps, ctx, i as int) == Ok::<
                    Seq<(Seq<char>, ProviderKind)>,
                    CompletionErrorView,
                >(entry_views(merged_list@)),
            decreases self.providers.len() - i,
        {
            let provider = &self.providers[i];
            if provider.should_try(ctx) {
                match provider.try_complete(ctx) {
                    Ok(Some(batch)) => {
                        merge_into(&mut merged_list, batch);
                    },
                    Ok(None) => {},
                    Err(e) => {
                        proof {
                            lemma_run_fails(ps, ctx, i as int + 1, ps.len() as int);
                        }
                        return Err(e);
                    },
                }
            }
            i = i + 1;
        }
        assert(entry_views(merged_list@).len() == merged_list@.len());
        if merged_list.len() == 0 {
            Ok(None)
        } else {
            Ok(Some(merged_list))
        }
    }
}

/// Once a source has failed, the run stays failed with that error.
pub proof fn lemma_run_fails(ps: Seq<Provider>, ctx: &CompletionContext, k: int, n: int)
    requires
        0 <= k <= n,
        run_providers(ps, ctx, k) is Err,
    ensures
        run_providers(ps, ctx, n) == run_providers(ps, ctx, k),
    decreases n - k,
{
    if k < n {
        lemma_run_fails(ps, ctx, k, n - 1);
    }
}

/// Merging keeps values distinct.
pub proof fn lemma_merged_distinct(
    acc: Seq<(Seq<char>, ProviderKind)>,
    batch: Seq<(Seq<char>, ProviderKind)>,
)
    requires
        distinct_values(acc),
    ensures
        distinct_values(merged(acc, batch)),
    decreases batch.len(),
{
    if batch.len() > 0 {
        lemma_merged_distinct(acc, batch.drop_last());
    }
}

/// Merging only appends: what was there stays where it was, with its kind.
pub proof fn lemma_merged_keeps_start(
    acc: Seq<(Seq<char>, ProviderKind)>,
    batch: Seq<(Seq<char>, ProviderKind)>,
)
    ensures
        acc.len() <= merged(acc, batch).len(),
        merged(acc, batch).take(acc.len() as int) == acc,
    decreases batch.len(),
{
    if batch.len() > 0 {
        lemma_merged_keeps_start(acc, batch.drop_last());
        let inner = merged(acc, batch.drop_last());
        assert(merged(acc, batch).take(acc.len() as int) =~= inner.take(acc.len() as int));
    } else {
        assert(acc.take(acc.len() as int) =~= acc);
    }
}

/// After merging, a value is there exactly when it was there before or
/// occurs in the batch.
pub proof fn lemma_merged_covers(
    acc: Seq<(Seq<char>, ProviderKind)>,
    batch: Seq<(Seq<char>, ProviderKind)>,
)
    ensures
        forall|v: Seq<char>|
            #![trigger has_value(merged(acc, batch), v)]
            has_value(merged(acc, batch), v) <==> (has_value(acc, v) || has_value(batch, v)),
    decreases batch.len(),
{
    let m = merged(acc, batch);
    if batch.len() > 0 {
        let rest = batch.drop_last();
        let last = batch.last();
        let inner = merged(acc, rest);
        lemma_merged_covers(acc, rest);
        assert forall|v: Seq<char>| #![trigger has_value(m, v)] has_value(m, v) <==> (has_value(
            acc,
            v,
        ) || has_value(batch, v)) by {
            if has_value(m, v) {
                let j = choose|j: int| 0 <= j < m.len() && (#[trigger] m[j]).0 == v;
                if j < inner.len() {
                    assert(inner[j].0 == v);
                    assert(has_value(inner, v));
                    if has_value(rest, v) {
                        let k = choose|k: int| 0 <= k < rest.len() && (#[trigger] rest[k]).0 == v;
                        assert(batch[k].0 == v);
                    }
                } else {
                    assert(batch[batch.len() - 1].0 == v);
                }
            }
            if has_value(acc, v) {
                assert(has_value(inner, v));
                let j = choose|j: int| 0 <= j < inner.len() && (#[trigger] inner[j]).0 == v;
                assert(m[j].0 == v);
            }
            if has_value(batch, v) {
                let k = choose|k: int| 0 <= k < batch.len() && (#[trigger] batch[k]).0 == v;
                if k < rest.len() {
                    assert(rest[k].0 == v);
                    assert(has_value(rest, v));
                    assert(has_value(inner, v));
                    let j = choose|j: int| 0 <= j < inner.len() && (#[trigger] inner[j]).0 == v;
                    assert(m[j].0 == v);
                } else {
                    assert(v == last.0);
                    if has_value(inner, last.0) {
                        let j = choose|j: int|
                            0 <= j < inner.len() && (#[trigger] inner[j]).0 == last.0;
                        assert(m[j].0 == v);
                    } else {
                        assert(m[m.len() - 1].0 == v);
                    }
                }
            }
        }
    }
}

/// Every entry that merging appends is the first entry of the batch with its
/// value: a value keeps the kind of the source that gave it first.
pub proof fn lemma_merged_takes_first(
    acc: Seq<(Seq<char>, ProviderKind)>,
    batch: Seq<(Seq<char>, ProviderKind)>,
)
    ensures
        forall|i: int|
            acc.len() <= i < merged(acc, batch).len() ==> {
                let e = #[trigger] merged(acc, batch)[i];
                &&& !has_value(acc, e.0)
                &&& exists|j: int|
                    0 <= j < batch.len() && #[trigger] batch[j] == e && !has_value(
                        batch.take(j),
                        e.0,
                    )
            },
    decreases batch.len(),
{
    let m = merged(acc, batch);
    lemma_merged_keeps_start(acc, batch);
    if batch.len() > 0 {
        let rest = batch.drop_last();
        let last = batch.last();
        let inner = merged(acc, rest);
        lemma_merged_takes_first(acc, rest);
        lemma_merged_keeps_start(acc, rest);
        lemma_merged_covers(acc, rest);
        assert forall|i: int| acc.len() <= i < m.len() implies {
            let e = #[trigger] m[i];
            &&& !has_value(acc, e.0)
            &&& exists|j: int|
                0 <= j < batch.len() && #[trigger] batch[j] == e && !has_value(batch.take(j), e.0)
        } by {
            let e = m[i];
            if i < inner.len() {
                assert(inner[i] == e);
                let j = choose|j: int|
                    0 <= j < rest.len() && #[trigger] rest[j] == e && !has_value(rest.take(j), e.0);
                assert(batch[j] == e);
                assert(batch.take(j) =~= rest.take(j));
            } else {
                assert(e == last);
                assert(!has_value(inner, last.0));
                let j = batch.len() - 1;
                assert(batch[j] == e);
                assert(batch.take(j) =~= rest);
            }
        }
    }
}

/// What a run over sources has merged holds no value twice.
pub proof fn lemma_run_distinct(ps: Seq<Provider>, ctx: &CompletionContext, k: int)
    requires
        0 <= k <= ps.len(),
    ensures
        run_providers(ps, ctx, k) matches Ok(acc) ==> distinct_values(acc),
    decreases k,
{
    if k > 0 {
        lemma_run_distinct(ps, ctx, k - 1);
        match run_providers(ps, ctx, k - 1) {
            Ok(acc) => {
                if ps[k - 1].applies(ctx) {
                    match ps[k - 1].outcome(ctx) {
                        Ok(Some(batch)) => {
                            lemma_merged_distinct(acc, batch);
                        },
                        _ => {},
                    }
                }
            },
            Err(_) => {},
        }
    }
}

/// What a completion attempt gave: the candidates, the name of the source
/// that gave them, and the completion declaration of the command.
#[derive(Debug, Clone)]
pub struct CompletionResult {
    pub candidates: Vec<CompletionEntry>,
    pub used_provider: String,
    pub spec: CompletionSpec,
}

impl View for CompletionResult {
    type V = (Seq<(Seq<char>, ProviderKind)>, Seq<char>, CompletionSpecView);

    open spec fn view(&self) -> (Seq<(Seq<char>, ProviderKind)>, Seq<char>, CompletionSpecView) {
        (entry_views(self.candidates@), self.used_provider@, self.spec@)
    }
}

impl CompletionResult {
    /// Whether there is no candidate.
    pub fn is_empty(&self) -> (b: bool)
        ensures
            b == (self.candidates@.len() == 0),
    {
        self.candidates.len() == 0
    }
}

/// The view of the result of a completion attempt.
pub open spec fn result_view(r: Result<CompletionResult, CompletionError>) -> Result<
    (Seq<(Seq<char>, ProviderKind)>, Seq<char>, CompletionSpecView),
    CompletionErrorView,
> {
    match r {
        Ok(res) => Ok(res@),
        Err(e) => Err(e@),
    }
}

/// The source settles the request: it gives at least one candidate, or it
/// fails.
pub open spec fn is_decisive(p: Provider, ctx: &CompletionContext) -> bool {
    match p.outcome(ctx) {
        Ok(Some(c)) => c.len() > 0,
        Ok(None) => false,
        Err(_) => true,
    }
}

/// First source of `ps` at or after `from` that settles the request; the
/// number of sources when none does.
pub open spec fn first_decisive(ps: Seq<Provider>, ctx: &CompletionContext, from: int) -> int
    decreases ps.len() - from,
{
    if from < 0 || from >= ps.len() {
        ps.len() as int
    } else if is_decisive(ps[from], ctx) {
        from
    } else {
        first_decisive(ps, ctx, from + 1)
    }
}

/// The result when no source has a candidate.
pub open spec fn no_result() -> (Seq<(Seq<char>, ProviderKind)>, Seq<char>, CompletionSpecView) {
    (Seq::empty(), "none"@, blank_spec())
}

/// What the engine answers when it asks the sources `ps` one by one: the
/// candidates of the first source that has any, under that source's name and
/// with the command's declaration `spec`; the error of a source that fails
/// before any has candidates; and the empty result when no source has any.
pub open spec fn engine_outcome(
    ps: Seq<Provider>,
    spec: CompletionSpecView,
    ctx: &CompletionContext,
) -> Result<(Seq<(Seq<char>, ProviderKind)>, Seq<char>, CompletionSpecView), CompletionErrorView> {
    let k = first_decisive(ps, ctx, 0);
    if k >= ps.len() {
        Ok(no_result())
    } else {
        match ps[k].outcome(ctx) {
            Ok(Some(c)) => Ok((c, ps[k].label(), spec)),
            Ok(None) => Ok(no_result()),
            Err(e) => Err(e),
        }
    }
}

/// What the engine answers with a pipeline in front: the merged candidates
/// under the pipeline's name when there are any, the pipeline's error, and
/// else what the engine's own sources give.
pub open spec fn engine_pipeline_outcome(
    ps: Seq<Provider>,
    spec: CompletionSpecView,
    pipeline: &PipelineProvider,
    ctx: &CompletionContext,
) -> Result<(Seq<(Seq<char>, ProviderKind)>, Seq<char>, CompletionSpecView), CompletionErrorView> {
    match pipeline_outcome(pipeline.providers@, ctx) {
        Err(e) => Err(e),
        Ok(Some(m)) => Ok((m, pipeline.name@, spec)),
        Ok(None) => engine_outcome(ps, spec, ctx),
    }
}

/// Asks a list of sources in order of priority. It holds the sources and the
/// completion declaration that was resolved for the request's command.
pub struct CompletionEngine {
    pub providers: Vec<Provider>,
    pub spec: CompletionSpec,
}

impl CompletionEngine {
    /// An engine over these sources, for a command with this declaration.
    pub fn new(providers: Vec<Provider>, spec: CompletionSpec) -> (e: Self)
        ensures
            e.providers == providers,
            e.spec == spec,
    {
        CompletionEngine { providers, spec }
    }

    /// The candidates of the first source that has any.
    pub fn complete(&self, ctx: &CompletionContext) -> (r: Result<
        CompletionResult,
        CompletionError,
    >)
        ensures
            result_view(r) == engine_outcome(self.providers@, self.spec@, ctx),
    {
        let ghost ps = self.providers@;
        let mut i: usize = 0;
        while i < self.providers.len()
            invariant
                i <= self.providers.len(),
                ps == self.providers@,
                first_decisive(ps, ctx, 0) == first_decisive(ps, ctx, i as int),
            decreases self.providers.len() - i,
        {
            let provider = &self.providers[i];
            if provider.should_try(ctx) {
                match provider.try_complete(ctx) {
                    Ok(Some(candidates)) => {
                        assert(entry_views(candidates@).len() == candidates@.len());
                        if candidates.len() > 0 {
                            return Ok(
                                CompletionResult {
                                    candidates,
                                    used_provider: provider.name().to_owned(),
                                    spec: self.spec.duplicate(),
                                },
                            );
                        }
                    },
                    Ok(None) => {},
                    Err(e) => {
                        return Err(e);
                    },
                }
            }
            i = i + 1;
        }
        let candidates: Vec<CompletionEntry> = Vec::new();
        assert(entry_views(candidates@) =~= Seq::empty());
        Ok(
            CompletionResult {
                candidates,
                used_provider: "none".to_owned(),
                spec: CompletionSpec::default(),
            },
        )
    }

    /// The merged candidates of `pipeline` when it has any, else the
    /// candidates of the first of the engine's own sources that has any.
    pub fn complete_pipeline(&self, ctx: &CompletionContext, pipeline: &PipelineProvider) -> (r:
        Result<CompletionResult, CompletionError>)
        ensures
            result_view(r) == engine_pipeline_outcome(self.providers@, self.spec@, pipeline, ctx),
    {
        match pipeline.try_complete(ctx) {
            Err(e) => Err(e),
            Ok(Some(merged_list)) => Ok(
                CompletionResult {
                    candidates: merged_list,
                    used_provider: pipeline.name().to_owned(),
                    spec: self.spec.duplicate(),
                },
            ),
            Ok(None) => self.complete(ctx),
        }
    }
}

} // verus!
