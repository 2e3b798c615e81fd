//! What happens to candidates after the sources have answered: filtering by a
//! glob pattern, marking directories, collapsing to the common prefix, and
//! quoting the chosen value for the shell.
use vstd::prelude::*;
use vstd::string::StringExecFns;
use crate::completion::{
    entry_values, entry_views, CompletionEntry, CompletionError, CompletionErrorView,
    ProviderKind,
};
use crate::text::{
    byte_len, concat, replace_char, replaced, str_byte_len, string_from, texts, to_chars,
};

verus! {

/// What `shlex::try_quote` makes of `s`: the text that a shell reads back as
/// the one word `s`, or, where it refuses `s`, the text of its error.
pub uninterp spec fn shell_quoted(s: Seq<char>) -> Result<Seq<char>, Seq<char>>;

/// The view of a result that holds text either way.
pub open spec fn text_result(r: Result<String, String>) -> Result<Seq<char>, Seq<char>> {
    match r {
        Ok(s) => Ok(s@),
        Err(m) => Err(m@),
    }
}

/// Calls `shlex::try_quote`, which turns a word into text that a shell reads
/// back as that word. The result depends on the word alone and is named
/// `shell_quoted`; an error is handed on as its message.
#[verifier::external_body]
pub(crate) fn try_quote(s: &str) -> (r: Result<String, String>)
    ensures
        text_result(r) == shell_quoted(s@),
{
    match shlex::try_quote(s) {
        Ok(q) => Ok(q.into_owned()),
        Err(e) => Err(e.to_string()),
    }
}

/// `s` quoted for the shell; `s` itself where it cannot be quoted.
pub open spec fn quoted_or_same(s: Seq<char>) -> Seq<char> {
    match shell_quoted(s) {
        Ok(q) => q,
        Err(_) => s,
    }
}

/// Position of the first `/` at or after `k`; the length of `s` when there is
/// none.
pub open spec fn first_slash(s: Seq<char>, k: int) -> int
    decreases s.len() - k,
{
    if k < 0 || k >= s.len() || s[k] == '/' {
        k
    } else {
        first_slash(s, k + 1)
    }
}

/// A file name made safe for the shell. A leading `~` part, up to and
/// including the first `/`, stays as it is so that the shell still expands
/// it; a name that is only a `~` part stays whole.
pub open spec fn quoted_filename(path: Seq<char>) -> Seq<char> {
    if path.len() > 0 && path[0] == '~' {
        let i = first_slash(path, 0);
        if i < path.len() {
            path.take(i + 1) + quoted_or_same(path.skip(i + 1))
        } else {
            path
        }
    } else {
        quoted_or_same(path)
    }
}

/// Quotes `s` for the shell; gives `s` back where it cannot be quoted.
pub fn shell_quote(s: &str) -> (r: String)
    ensures
        r@ == quoted_or_same(s@),
{
    match try_quote(s) {
        Ok(q) => q,
        Err(_) => s.to_owned(),
    }
}

/// Quotes `path` for the shell when it is a file name.
pub fn quote_filename(path: &str, is_filename: bool) -> (r: String)
    ensures
        r@ == if is_filename {
            quoted_filename(path@)
        } else {
            path@
        },
{
    if !is_filename {
        return path.to_owned();
    }
    let chars = to_chars(path);
    if chars.len() > 0 && chars[0] == '~' {
        let mut i: usize = 0;
        while i < chars.len() && chars[i] != '/'
            invariant
                i <= chars.len(),
                first_slash(chars@, 0) == first_slash(chars@, i as int),
            decreases chars.len() - i,
        {
            i = i + 1;
        }
        if i < chars.len() {
            let tilde_part = string_from(&chars, 0, i + 1);
            let rest = string_from(&chars, i + 1, chars.len());
            let quoted = shell_quote(rest.as_str());
            assert(chars@.subrange(0, i as int + 1) =~= path@.take(i as int + 1));
            assert(chars@.subrange(i as int + 1, chars.len() as int) =~= path@.skip(i as int + 1));
            concat(tilde_part.as_str(), quoted.as_str())
        } else {
            path.to_owned()
        }
    } else {
        shell_quote(path)
    }
}

/// `value` ends in `/`.
pub open spec fn ends_with_slash(value: Seq<char>) -> bool {
    value.len() > 0 && value.last() == '/'
}

/// Candidate `i` after directories were marked: a `/` is appended where flag
/// `i` is set and the value does not end in `/` already.
pub open spec fn marked(e: (Seq<char>, ProviderKind), is_directory: bool) -> (
    Seq<char>,
    ProviderKind,
) {
    if is_directory && !ends_with_slash(e.0) {
        (e.0.push('/'), e.1)
    } else {
        e
    }
}

/// Flag `i`, or `false` where the list of flags is too short.
pub open spec fn flag_at(flags: Seq<bool>, i: int) -> bool {
    0 <= i < flags.len() && flags[i]
}

/// Appends `/` to every candidate that names a directory and does not end in
/// `/` yet. `is_directory[i]` says whether candidate `i`, once unquoted and
/// with its `~` expanded, is a directory on disk; a missing flag counts as
/// `false`.
pub fn mark_directories(candidates: Vec<CompletionEntry>, is_directory: &Vec<bool>) -> (r: Vec<
    CompletionEntry,
>)
    ensures
        r.len() == candidates.len(),
        forall|i: int|
            0 <= i < r.len() ==> (#[trigger] r[i])@ == marked(
                candidates[i]@,
                flag_at(is_directory@, i),
            ),
{
    let mut r: Vec<CompletionEntry> = Vec::new();
    let mut i: usize = 0;
    while i < candidates.len()
        invariant
            i <= candidates.len(),
            r.len() == i,
            forall|j: int|
                0 <= j < i ==> (#[trigger] r[j])@ == marked(
                    candidates[j]@,
                    flag_at(is_directory@, j),
                ),
        decreases candidates.len() - i,
    {
        let entry = &candidates[i];
        let flag = i < is_directory.len() && is_directory[i];
        let value = entry.value.as_str();
        let n = value.unicode_len();
        let marked_entry = if flag && !(n > 0 && value.get_char(n - 1) == '/') {
            let v = concat(value, "/");
            proof {
                reveal_strlit("/");
                assert(value@ + "/"@ =~= value@.push('/'));
            }
            CompletionEntry::new(v, entry.kind)
        } else {
            entry.duplicate()
        };
        r.push(marked_entry);
        i = i + 1;
    }
    r
}

/// Number of leading characters, counted from position `k`, on which `a` and
/// `b` agree.
pub open spec fn agree_len(a: Seq<char>, b: Seq<char>, k: int) -> int
    decreases a.len() - k,
{
    if 0 <= k < a.len() && k < b.len() && a[k] == b[k] {
        agree_len(a, b, k + 1)
    } else {
        k
    }
}

/// The smaller of two numbers.
pub open spec fn min_of(a: int, b: int) -> int {
    if a <= b {
        a
    } else {
        b
    }
}

/// Number of leading characters that the first `n` of `vs` share.
pub open spec fn common_len(vs: Seq<Seq<char>>, n: int) -> int
    decreases n,
{
    if n <= 0 {
        0
    } else if n == 1 {
        vs[0].len() as int
    } else {
        min_of(common_len(vs, n - 1), agree_len(vs[0], vs[n - 1], 0))
    }
}

/// The longest sequence of characters that every one of `vs` starts with;
/// empty for an empty list.
pub open spec fn longest_common_prefix(vs: Seq<Seq<char>>) -> Seq<char> {
    if vs.len() == 0 {
        Seq::empty()
    } else {
        vs[0].take(common_len(vs, vs.len() as int))
    }
}

proof fn lemma_agree_len(a: Seq<char>, b: Seq<char>, k: int)
    requires
        0 <= k <= a.len(),
        k <= b.len(),
        a.take(k) == b.take(k),
    ensures
        k <= agree_len(a, b, k) <= a.len(),
        agree_len(a, b, k) <= b.len(),
        a.take(agree_len(a, b, k)) == b.take(agree_len(a, b, k)),
        agree_len(a, b, k) < a.len() && agree_len(a, b, k) < b.len() ==> a[agree_len(a, b, k)]
            != b[agree_len(a, b, k)],
    decreases a.len() - k,
{
    if k < a.len() && k < b.len() && a[k] == b[k] {
        assert(a.take(k + 1) =~= a.take(k).push(a[k]));
        assert(b.take(k + 1) =~= b.take(k).push(b[k]));
        lemma_agree_len(a, b, k + 1);
    }
}

proof fn lemma_common_len(vs: Seq<Seq<char>>, n: int)
    requires
        1 <= n <= vs.len(),
    ensures
        0 <= common_len(vs, n) <= vs[0].len(),
        forall|i: int|
            0 <= i < n ==> common_len(vs, n) <= (#[trigger] vs[i]).len() && vs[i].take(
                common_len(vs, n),
            ) == vs[0].take(common_len(vs, n)),
        forall|p: Seq<char>|
            (forall|i: int| 0 <= i < n ==> p.is_prefix_of(#[trigger] vs[i])) ==> p.len()
                <= common_len(vs, n),
    decreases n,
{
    if n > 1 {
        lemma_common_len(vs, n - 1);
        let c = common_len(vs, n);
        let prev = common_len(vs, n - 1);
        let a = agree_len(vs[0], vs[n - 1], 0);
        assert(vs[0].take(0) =~= vs[n - 1].take(0));
        lemma_agree_len(vs[0], vs[n - 1], 0);
        assert forall|i: int| 0 <= i < n implies c <= (#[trigger] vs[i]).len() && vs[i].take(c)
            == vs[0].take(c) by {
            if i < n - 1 {
                assert(vs[i].take(c) =~= vs[i].take(prev).take(c));
                assert(vs[0].take(c) =~= vs[0].take(prev).take(c));
            } else {
                assert(vs[i].take(c) =~= vs[i].take(a).take(c));
                assert(vs[0].take(c) =~= vs[0].take(a).take(c));
            }
        }
        assert forall|p: Seq<char>|
            (forall|i: int| 0 <= i < n ==> p.is_prefix_of(#[trigger] vs[i])) implies p.len()
            <= c by {
            assert(forall|i: int| 0 <= i < n - 1 ==> p.is_prefix_of(#[trigger] vs[i]));
            assert(p.is_prefix_of(vs[0]));
            assert(p.is_prefix_of(vs[n - 1]));
            if p.len() > a {
                assert(vs[0][a] == p[a]);
                assert(vs[n - 1][a] == p[a]);
            }
        }
    } else {
        assert forall|p: Seq<char>|
            (forall|i: int| 0 <= i < n ==> p.is_prefix_of(#[trigger] vs[i])) implies p.len()
            <= common_len(vs, n) by {
            assert(p.is_prefix_of(vs[0]));
        }
    }
}

/// The longest common prefix is a prefix of every element, and every common
/// prefix is a prefix of it.
pub proof fn lemma_longest_common_prefix(vs: Seq<Seq<char>>)
    requires
        vs.len() > 0,
    ensures
        forall|i: int|
            0 <= i < vs.len() ==> longest_common_prefix(vs).is_prefix_of(#[trigger] vs[i]),
        forall|p: Seq<char>|
            (forall|i: int| 0 <= i < vs.len() ==> p.is_prefix_of(#[trigger] vs[i]))
                ==> p.is_prefix_of(longest_common_prefix(vs)),
{
    let n = vs.len() as int;
    let c = common_len(vs, n);
    let lcp = longest_common_prefix(vs);
    lemma_common_len(vs, n);
    assert forall|i: int| 0 <= i < vs.len() implies lcp.is_prefix_of(#[trigger] vs[i]) by {
        assert(vs[i].take(c) == vs[0].take(c));
        assert(lcp =~= vs[i].subrange(0, lcp.len() as int));
    }
    assert forall|p: Seq<char>|
        (forall|i: int| 0 <= i < vs.len() ==> p.is_prefix_of(#[trigger] vs[i])) implies p.is_prefix_of(
        lcp,
    ) by {
        assert(p.is_prefix_of(vs[0]));
        assert(p.len() <= c);
        assert(p =~= lcp.subrange(0, p.len() as int));
    }
}

/// Number of leading characters on which `x` and `y` agree.
fn agree(x: &Vec<char>, y: &Vec<char>) -> (k: usize)
    ensures
        k as int == agree_len(x@, y@, 0),
{
    let mut k: usize = 0;
    while k < x.len() && k < y.len() && x[k] == y[k]
        invariant
            k <= x.len(),
            k <= y.len(),
            agree_len(x@, y@, 0) == agree_len(x@, y@, k as int),
        decreases x.len() - k,
    {
        k = k + 1;
    }
    k
}

/// The longest text that every one of `strings` starts with, character by
/// character; empty for an empty list.
pub fn find_longest_common_prefix(strings: &[String]) -> (r: String)
    ensures
        r@ == longest_common_prefix(texts(strings@)),
{
    let n = strings.len();
    if n == 0 {
        return String::new();
    }
    let ghost vs = texts(strings@);
    let first = to_chars(strings[0].as_str());
    let mut len: usize = first.len();
    let mut i: usize = 1;
    while i < n
        invariant
            1 <= i <= n,
            n == strings.len(),
            vs == texts(strings@),
            first@ == vs[0],
            len as int == common_len(vs, i as int),
            len <= first.len(),
        decreases n - i,
    {
        let other = to_chars(strings[i].as_str());
        assert(vs[i as int] == other@);
        let a = agree(&first, &other);
        if a < len {
            len = a;
        }
        i = i + 1;
    }
    let r = string_from(&first, 0, len);
    assert(first@.subrange(0, len as int) =~= vs[0].take(len as int));
    r
}

/// Every one of `vs` is `p`.
pub open spec fn all_equal_to(vs: Seq<Seq<char>>, p: Seq<char>) -> bool {
    forall|i: int| 0 <= i < vs.len() ==> #[trigger] vs[i] == p
}

/// The candidates are to be replaced by their common prefix: there is a
/// candidate, the prefix has more bytes than were typed, and either all
/// candidates are that prefix or completing a part is allowed.
pub open spec fn collapses(vs: Seq<Seq<char>>, input_len: int, allow_partial: bool) -> bool {
    &&& vs.len() > 0
    &&& byte_len(longest_common_prefix(vs)) > input_len
    &&& (all_equal_to(vs, longest_common_prefix(vs)) || allow_partial)
}

/// What `find_common_prefix` returns for the candidates `es`: the new list,
/// whether the trailing space is to be left out, and the prefix that was
/// filled in.
pub open spec fn common_prefix_result(
    es: Seq<(Seq<char>, ProviderKind)>,
    input_len: int,
    allow_partial: bool,
) -> (Seq<(Seq<char>, ProviderKind)>, bool, Seq<char>) {
    let vs = Seq::new(es.len(), |i: int| es[i].0);
    if collapses(vs, input_len, allow_partial) {
        (seq![(longest_common_prefix(vs), es[0].1)], es.len() > 1, longest_common_prefix(vs))
    } else {
        (es, false, Seq::empty())
    }
}

/// The values of `list`.
fn values_of(list: &[CompletionEntry]) -> (r: Vec<String>)
    ensures
        texts(r@) == entry_values(list@),
        r.len() == list.len(),
{
    let mut r: Vec<String> = Vec::new();
    let mut i: usize = 0;
    while i < list.len()
        invariant
            i <= list.len(),
            r.len() == i,
            texts(r@) == entry_values(list@).take(i as int),
        decreases list.len() - i,
    {
        let ghost before = texts(r@);
        r.push(list[i].value.clone());
        assert(texts(r@) =~= before.push(list@[i as int].value@));
        assert(entry_values(list@).take(i as int + 1) =~= entry_values(list@).take(i as int).push(
            list@[i as int].value@,
        ));
        i = i + 1;
    }
    assert(entry_values(list@).take(list.len() as int) =~= entry_values(list@));
    r
}

/// A copy of `list`.
pub fn copy_entries(list: &[CompletionEntry]) -> (r: Vec<CompletionEntry>)
    ensures
        entry_views(r@) == entry_views(list@),
{
    let mut r: Vec<CompletionEntry> = Vec::new();
    let mut i: usize = 0;
    while i < list.len()
        invariant
            i <= list.len(),
            entry_views(r@) == entry_views(list@).take(i as int),
        decreases list.len() - i,
    {
        let ghost before = entry_views(r@);
        r.push(list[i].duplicate());
        assert(entry_views(r@) =~= before.push(list@[i as int]@));
        assert(entry_views(list@).take(i as int + 1) =~= entry_views(list@).take(i as int).push(
            list@[i as int]@,
        ));
        i = i + 1;
    }
    assert(entry_views(list@).take(list.len() as int) =~= entry_views(list@));
    r
}

/// Whether every one of `values` has `count` characters.
fn all_have_len(values: &Vec<String>, count: usize) -> (b: bool)
    ensures
        b == forall|i: int| 0 <= i < values.len() ==> (#[trigger] texts(values@)[i]).len() == count,
{
    let mut i: usize = 0;
    while i < values.len()
        invariant
            i <= values.len(),
            forall|j: int| 0 <= j < i ==> (#[trigger] texts(values@)[j]).len() == count,
        decreases values.len() - i,
    {
        if values[i].as_str().unicode_len() != count {
            assert(texts(values@)[i as int].len() != count);
            return false;
        }
        i = i + 1;
    }
    true
}

/// Fills in what the candidates have in common.
///
/// When the longest common prefix of the candidates has more bytes than the
/// `input_len` already typed, and either all candidates are that prefix or
/// `auto_common_prefix_part` allows to complete a part, the candidates are
/// replaced by one entry that holds the prefix, with the kind of the first
/// candidate. The flag then says that no space is to follow, which is so when
/// there was more than one candidate. In every other case the candidates
/// come back unchanged, with the flag off and an empty prefix.
pub fn find_common_prefix(
    candidates: &[CompletionEntry],
    input_len: usize,
    auto_common_prefix_part: bool,
) -> (r: (Vec<CompletionEntry>, bool, String))
    ensures
        (entry_views(r.0@), r.1, r.2@) == common_prefix_result(
            entry_views(candidates@),
            input_len as int,
            auto_common_prefix_part,
        ),
{
    let ghost es = entry_views(candidates@);
    let ghost vs = Seq::new(es.len(), |i: int| es[i].0);
    assert(vs =~= entry_values(candidates@));
    if candidates.len() == 0 {
        let none: Vec<CompletionEntry> = Vec::new();
        assert(entry_views(none@) =~= es);
        return (none, false, String::new());
    }
    let values = values_of(candidates);
    let prefix = find_longest_common_prefix(values.as_slice());
    let prefix_len = str_byte_len(prefix.as_str());
    if prefix_len > input_len {
        let same = all_have_len(&values, prefix.as_str().unicode_len());
        proof {
            lemma_longest_common_prefix(vs);
            let lcp = longest_common_prefix(vs);
            if same {
                assert forall|i: int| 0 <= i < vs.len() implies #[trigger] vs[i] == lcp by {
                    assert(texts(values@)[i].len() == lcp.len());
                    assert(lcp.is_prefix_of(vs[i]));
                    assert(vs[i] =~= lcp);
                }
            } else {
                let i = choose|i: int|
                    0 <= i < values.len() && (#[trigger] texts(values@)[i]).len() != lcp.len();
                assert(vs[i] != lcp);
            }
        }
        if same || auto_common_prefix_part {
            let nospace = candidates.len() > 1;
            let kind = candidates[0].kind;
            let mut single: Vec<CompletionEntry> = Vec::new();
            single.push(CompletionEntry::new(prefix.clone(), kind));
            assert(entry_views(single@) =~= seq![(prefix@, kind)]);
            return (single, nospace, prefix);
        }
    }
    (copy_entries(candidates), false, String::new())
}

/// Running `find_common_prefix` again on a list that it has collapsed, with
/// the prefix now counted as typed, changes nothing.
pub proof fn lemma_common_prefix_idempotent(
    es: Seq<(Seq<char>, ProviderKind)>,
    input_len: int,
    allow_partial: bool,
    again_partial: bool,
)
    requires
        collapses(Seq::new(es.len(), |i: int| es[i].0), input_len, allow_partial),
    ensures
        ({
            let first = common_prefix_result(es, input_len, allow_partial);
            common_prefix_result(first.0, byte_len(first.2), again_partial) == (
                first.0,
                false,
                Seq::<char>::empty(),
            )
        }),
{
    let vs = Seq::new(es.len(), |i: int| es[i].0);
    let p = longest_common_prefix(vs);
    let first = common_prefix_result(es, input_len, allow_partial);
    let ws = Seq::new(first.0.len(), |i: int| first.0[i].0);
    assert(ws =~= seq![p]);
    assert(common_len(ws, 1) == p.len());
    assert(longest_common_prefix(ws) =~= p);
}

/// A compiled glob pattern of the `glob` crate.
#[verifier::external_type_specification]
#[verifier::external_body]
pub struct ExPattern(glob::Pattern);

/// The error that the `glob` crate reports for a pattern that it cannot
/// compile.
#[verifier::external_type_specification]
#[verifier::external_body]
pub struct ExPatternError(glob::PatternError);

/// The message of the error with which `glob::Pattern::new` refuses
/// `pattern`; `None` where it accepts the pattern.
pub uninterp spec fn glob_refusal(pattern: Seq<char>) -> Option<Seq<char>>;

/// The text that a compiled pattern was made from, as `Pattern::as_str`
/// gives it.
pub uninterp spec fn pattern_text(pattern: glob::Pattern) -> Seq<char>;

/// The message of a pattern error, as its `Display` impl writes it.
pub uninterp spec fn error_text(e: glob::PatternError) -> Seq<char>;

/// Whether the pattern compiled from `pattern` matches `text`, as
/// `Pattern::matches` decides it.
pub uninterp spec fn glob_matches(pattern: Seq<char>, text: Seq<char>) -> bool;

/// Calls `glob::Pattern::new`. Whether the pattern compiles, and with which
/// error it is refused, depends on its text alone and is named
/// `glob_refusal`; a compiled pattern remembers the text that it was made
/// from.
#[verifier::external_body]
fn compile_pattern(pattern: &str) -> (r: Result<glob::Pattern, glob::PatternError>)
    ensures
        match r {
            Ok(p) => glob_refusal(pattern@) is None && pattern_text(p) == pattern@,
            Err(e) => glob_refusal(pattern@) == Some(error_text(e)),
        },
{
    glob::Pattern::new(pattern)
}

/// Calls `glob::Pattern::matches`. The answer depends on the pattern's text
/// and on the text to match, and is named `glob_matches`.
#[verifier::external_body]
fn pattern_matches(pattern: &glob::Pattern, text: &str) -> (b: bool)
    ensures
        b == glob_matches(pattern_text(*pattern), text@),
{
    pattern.matches(text)
}

/// Calls `to_string` on a `glob::PatternError`, which writes the error as its
/// `Display` impl does. The text depends on the error alone and is named
/// `error_text`.
#[verifier::external_body]
fn pattern_error_text(e: &glob::PatternError) -> (m: String)
    ensures
        m@ == error_text(*e),
{
    e.to_string()
}

/// `s` with every `&` replaced by `word`.
pub open spec fn with_word(s: Seq<char>, word: Seq<char>) -> Seq<char> {
    replaced(s, '&', word)
}

/// The filter inverts: after `&` was replaced, it starts with `!`.
pub open spec fn filter_inverts(filter: Seq<char>, word: Seq<char>) -> bool {
    with_word(filter, word).len() > 0 && with_word(filter, word)[0] == '!'
}

/// The glob pattern of a filter: the filter with `&` replaced by the current
/// word and without the leading `!`, if it has one.
pub open spec fn filter_glob(filter: Seq<char>, word: Seq<char>) -> Seq<char> {
    if filter_inverts(filter, word) {
        with_word(filter, word).skip(1)
    } else {
        with_word(filter, word)
    }
}

/// The candidates that a filter keeps: those that match its pattern, or,
/// for an inverting filter, those that do not.
pub open spec fn kept_by(
    es: Seq<(Seq<char>, ProviderKind)>,
    pattern: Seq<char>,
    invert: bool,
) -> Seq<(Seq<char>, ProviderKind)> {
    es.filter(|e: (Seq<char>, ProviderKind)| glob_matches(pattern, e.0) != invert)
}

/// Replaces every `&` in `s` by `word`.
pub fn substitute_word(s: &str, word: &str) -> (r: String)
    ensures
        r@ == with_word(s@, word@),
{
    replace_char(s, '&', word)
}

/// Keeps the candidates that pass the filter of a completion declaration.
///
/// Without a filter all candidates pass. Otherwise every `&` in the filter is
/// replaced by `current_word`, a leading `!` is taken off, and the rest is
/// compiled as a glob pattern. Without the `!` the candidates that match stay;
/// with it, those that do not. A pattern that does not compile is an error
/// that carries the compiler's message.
pub fn apply_filter(
    filter: &Option<String>,
    candidates: &[CompletionEntry],
    current_word: &str,
) -> (r: Result<Vec<CompletionEntry>, CompletionError>)
    ensures
        match *filter {
            None => r matches Ok(kept) && entry_views(kept@) == entry_views(candidates@),
            Some(f) => match glob_refusal(filter_glob(f@, current_word@)) {
                None => r matches Ok(kept) && entry_views(kept@) == kept_by(
                    entry_views(candidates@),
                    filter_glob(f@, current_word@),
                    filter_inverts(f@, current_word@),
                ),
                Some(message) => r matches Err(e) && e@ == CompletionErrorView::Other(message),
            },
        },
{
    let f = match filter {
        None => {
            return Ok(copy_entries(candidates));
        },
        Some(f) => f,
    };
    let text = substitute_word(f.as_str(), current_word);
    let chars = to_chars(text.as_str());
    let invert = chars.len() > 0 && chars[0] == '!';
    let glob_text = if invert {
        string_from(&chars, 1, chars.len())
    } else {
        text
    };
    assert(glob_text@ =~= filter_glob(f@, current_word@));
    let pattern = match compile_pattern(glob_text.as_str()) {
        Ok(p) => p,
        Err(e) => {
            return Err(CompletionError::Other(pattern_error_text(&e)));
        },
    };
    let ghost es = entry_views(candidates@);
    let ghost pred = |e: (Seq<char>, ProviderKind)| glob_matches(glob_text@, e.0) != invert;
    let mut kept: Vec<CompletionEntry> = Vec::new();
    let mut i: usize = 0;
    proof {
        reveal(Seq::filter);
        assert(es.take(0).filter(pred) =~= Seq::empty());
    }
    while i < candidates.len()
        invariant
            i <= candidates.len(),
            es == entry_views(candidates@),
            pattern_text(pattern) == glob_text@,
            pred == |e: (Seq<char>, ProviderKind)| glob_matches(glob_text@, e.0) != invert,
            entry_views(kept@) == es.take(i as int).filter(pred),
        decreases candidates.len() - i,
    {
        let ghost before = entry_views(kept@);
        proof {
            assert(es.take(i as int + 1) =~= es.take(i as int).push(es[i as int]));
            Seq::lemma_filter_push(es.take(i as int), es[i as int], pred);
        }
        let hit = pattern_matches(&pattern, candidates[i].value.as_str());
        if hit != invert {
            kept.push(candidates[i].duplicate());
            assert(entry_views(kept@) =~= before.push(es[i as int]));
        }
        i = i + 1;
    }
    assert(es.take(candidates.len() as int) =~= es);
    Ok(kept)
}

} // verus!
