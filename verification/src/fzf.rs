//! What an external fuzzy finder is handed and how its answer reads. Running
//! the finder is not done here.
use vstd::prelude::*;
use vstd::string::StringExecFns;
use crate::selector::occurs_at;
use crate::text::{
    byte_len, char_index, char_index_in, concat, str_byte_len, string_from, texts, to_chars,
};

verus! {

/// What can go wrong with the fuzzy finder.
#[derive(Debug)]
pub enum FzfError {
    ExecutionError(String),
    ConfigError(String),
    IoError(String),
    WrapperError(String),
    Other(String),
}

/// Where the finder puts its list.
#[derive(Debug, Clone, Copy, PartialEq, Eq, Structural)]
pub enum Layout {
    Default,
    Reverse,
    ReverseList,
}

/// The frame that the finder draws.
#[derive(Debug, Clone, Copy, PartialEq, Eq, Structural)]
pub enum Border {
    NoBorder,
    Rounded,
    Sharp,
    Horizontal,
    Vertical,
    Top,
    Bottom,
    Left,
    Right,
}

/// How the finder is to be started.
#[derive(Debug, Clone)]
pub struct FzfConfig {
    pub height: String,
    pub prompt: String,
    pub layout: Layout,
    pub border: Border,
    pub completion_sep: String,
    pub options: Vec<String>,
}

impl Default for FzfConfig {
    fn default() -> (c: Self)
        ensures
            c.height@ == "40%"@,
            c.prompt@ == "> "@,
            c.layout == Layout::Default,
            c.border == Border::NoBorder,
            c.completion_sep@ == "\x01"@,
            c.options@.len() == 0,
    {
        FzfConfig {
            height: "40%".to_owned(),
            prompt: "> ".to_owned(),
            layout: Layout::Default,
            border: Border::NoBorder,
            completion_sep: "\x01".to_owned(),
            options: Vec::new(),
        }
    }
}

/// The height of the finder's window. It does not depend on where the
/// cursor is.
pub fn calculate_fzf_height(_cursor_line: usize, _total_lines: usize) -> (h: String)
    ensures
        h@ == "40%"@,
{
    "40%".to_owned()
}

/// Number of leading characters of `candidate` that count as typed: those
/// that start within the byte length of `word`.
pub open spec fn typed_chars(candidate: Seq<char>, word: Seq<char>) -> int {
    char_index(candidate, byte_len(word))
}

/// The line that stands for `candidate` in the finder's input: the
/// candidate, then its typed part in a dimmed colour, then the rest, with
/// `sep` between the three.
pub open spec fn candidate_line(candidate: Seq<char>, word: Seq<char>, sep: Seq<char>) -> Seq<
    char,
> {
    candidate + sep + "\x1b[37m"@ + candidate.take(typed_chars(candidate, word)) + "\x1b[0m"@ + sep
        + candidate.skip(typed_chars(candidate, word))
}

/// Formats one candidate for the finder.
pub fn format_candidate(candidate: &str, current_word: &str, sep: &str) -> (r: String)
    ensures
        r@ == candidate_line(candidate@, current_word@, sep@),
{
    let chars = to_chars(candidate);
    let typed = char_index_in(&chars, str_byte_len(current_word));
    let prefix = string_from(&chars, 0, typed);
    let suffix = string_from(&chars, typed, chars.len());
    assert(chars@.subrange(0, typed as int) =~= candidate@.take(typed as int));
    assert(chars@.subrange(typed as int, chars.len() as int) =~= candidate@.skip(typed as int));
    let mut r = candidate.to_owned();
    r.append(sep);
    r.append("\x1b[37m");
    r.append(prefix.as_str());
    r.append("\x1b[0m");
    r.append(sep);
    r.append(suffix.as_str());
    r
}

/// The lines for all candidates, in order.
pub fn format_candidates(candidates: &[String], current_word: &str, sep: &str) -> (r: Vec<String>)
    ensures
        r@.len() == candidates@.len(),
        forall|i: int|
            0 <= i < r@.len() ==> (#[trigger] r@[i])@ == candidate_line(
                candidates@[i]@,
                current_word@,
                sep@,
            ),
{
    let mut r: Vec<String> = Vec::new();
    let mut i: usize = 0;
    while i < candidates.len()
        invariant
            i <= candidates.len(),
            r@.len() == i,
            forall|j: int|
                0 <= j < i ==> (#[trigger] r@[j])@ == candidate_line(
                    candidates@[j]@,
                    current_word@,
                    sep@,
                ),
        decreases candidates.len() - i,
    {
        r.push(format_candidate(candidates[i].as_str(), current_word, sep));
        i = i + 1;
    }
    r
}

/// The arguments that the finder is started with: the configured options,
/// then those that make it read the lines of `candidate_line`.
pub open spec fn finder_arguments(
    options: Seq<Seq<char>>,
    sep: Seq<char>,
    height: Seq<char>,
) -> Seq<Seq<char>> {
    options + seq![
        "--ansi"@,
        "-d"@ + sep,
        "--nth=2"@,
        "--with-nth=2,3"@,
        "--height="@ + height,
        "--reverse"@,
    ]
}

/// The arguments to start the finder with.
pub fn fzf_arguments(config: &FzfConfig) -> (args: Vec<String>)
    ensures
        texts(args@) == finder_arguments(
            texts(config.options@),
            config.completion_sep@,
            config.height@,
        ),
{
    let mut args = crate::parser::words_from(config.options.as_slice(), 0);
    assert(texts(config.options@).skip(0) =~= texts(config.options@));
    let ghost start = texts(args@);
    args.push("--ansi".to_owned());
    args.push(concat("-d", config.completion_sep.as_str()));
    args.push("--nth=2".to_owned());
    args.push("--with-nth=2,3".to_owned());
    args.push(concat("--height=", config.height.as_str()));
    args.push("--reverse".to_owned());
    assert(texts(args@) =~= finder_arguments(start, config.completion_sep@, config.height@));
    args
}

/// First position at or after `k` at which `needle` occurs in `hay`; the
/// length of `hay` plus one when there is none.
pub open spec fn find_from(hay: Seq<char>, needle: Seq<char>, k: int) -> int
    decreases hay.len() + 1 - k,
{
    if k < 0 || k > hay.len() {
        hay.len() as int + 1
    } else if occurs_at(hay, needle, k) {
        k
    } else {
        find_from(hay, needle, k + 1)
    }
}

/// The candidate in a line that the finder gave back: what stands in front
/// of the first `sep`, or the whole line when it holds no `sep`.
pub open spec fn selected_value(selection: Seq<char>, sep: Seq<char>) -> Seq<char> {
    if find_from(selection, sep, 0) <= selection.len() {
        selection.take(find_from(selection, sep, 0))
    } else {
        selection
    }
}

/// Reads the chosen candidate from the line that the finder gave back.
pub fn parse_selection(selection: &str, sep: &str) -> (r: String)
    ensures
        r@ == selected_value(selection@, sep@),
{
    let h = to_chars(selection);
    let n = to_chars(sep);
    let mut k: usize = 0;
    while n.len() <= h.len() && k <= h.len() - n.len()
        invariant
            h@ == selection@,
            n@ == sep@,
            k <= h.len() + 1,
            find_from(h@, n@, 0) == find_from(h@, n@, k as int),
        decreases h.len() + 1 - k,
    {
        let mut i: usize = 0;
        while i < n.len() && h[k + i] == n[i]
            invariant
                i <= n.len(),
                k + n.len() <= h.len(),
                h@.subrange(k as int, k + i) == n@.take(i as int),
            decreases n.len() - i,
        {
            assert(h@.subrange(k as int, k + i + 1) =~= h@.subrange(k as int, k + i).push(
                h@[k + i],
            ));
            assert(n@.take(i as int + 1) =~= n@.take(i as int).push(n@[i as int]));
            i = i + 1;
        }
        if i == n.len() {
            assert(n@.take(i as int) =~= n@);
            let r = string_from(&h, 0, k);
            assert(h@.subrange(0, k as int) =~= h@.take(k as int));
            return r;
        }
        assert(!occurs_at(h@, n@, k as int)) by {
            if occurs_at(h@, n@, k as int) {
                assert(h@.subrange(k as int, k + n.len())[i as int] == n@[i as int]);
            }
        }
        k = k + 1;
    }
    proof {
        lemma_not_found(h@, n@, k as int);
    }
    selection.to_owned()
}

proof fn lemma_not_found(hay: Seq<char>, needle: Seq<char>, k: int)
    requires
        0 <= k,
        needle.len() > hay.len() || k > hay.len() - needle.len(),
    ensures
        find_from(hay, needle, k) == hay.len() + 1,
    decreases hay.len() + 1 - k,
{
    if k <= hay.len() {
        lemma_not_found(hay, needle, k + 1);
    }
}

} // verus!
