//! What the interactive selector needs around the interaction itself: which
//! candidates to show in which order, under which prompt, and what the answer
//! of the user means.
use std::rc::Rc;
use vstd::prelude::*;
use crate::completion::CompletionContext;
use crate::parser::ParsedLine;
use crate::text::{chars_start_with, concat, string_from, texts, to_chars};

verus! {

/// What can go wrong with the selector.
#[derive(Debug)]
pub enum SelectorError {
    ExecutionError(String),
    IoError(String),
    Cancelled,
    NoCandidates,
    SettingCtrlCHandler(String),
}

/// How the selector is to present itself.
#[derive(Debug, Clone)]
pub struct SelectorConfig {
    pub ctx: Rc<CompletionContext>,
    pub prompt: String,
    pub height: String,
    pub header: Option<String>,
    /// Show the candidates that match the current word fuzzily, best first;
    /// when off, all candidates are shown in their order.
    pub fuzzy: bool,
}

impl Default for SelectorConfig {
    fn default() -> (c: Self)
        ensures
            c.prompt@ == "> "@,
            c.height@ == "40%"@,
            c.header is None,
            c.fuzzy,
            c.ctx.words@.len() == 0,
            c.ctx.line@.len() == 0,
    {
        let parsed = ParsedLine::new(Vec::new(), Vec::new(), 0, 0);
        let ctx = CompletionContext::from_parsed(&parsed, String::new(), 0);
        assert(texts(ctx.words@).len() == ctx.words@.len());
        SelectorConfig {
            ctx: Rc::new(ctx),
            prompt: "> ".to_owned(),
            height: "40%".to_owned(),
            header: None,
            fuzzy: true,
        }
    }
}

/// The score that the fuzzy matcher gives `choice` for `pattern`, or `None`
/// when `choice` does not match.
pub uninterp spec fn fuzzy_score(choice: Seq<char>, pattern: Seq<char>) -> Option<i64>;

/// Calls `FuzzyMatcher::fuzzy_match` on a `SkimMatcherV2` with default
/// settings. The score depends on the two texts alone and is named
/// `fuzzy_score`.
#[verifier::external_body]
fn fuzzy_match(choice: &str, pattern: &str) -> (r: Option<i64>)
    ensures
        r == fuzzy_score(choice@, pattern@),
{
    fuzzy_matcher::FuzzyMatcher::fuzzy_match(
        &fuzzy_matcher::skim::SkimMatcherV2::default(),
        choice,
        pattern,
    )
}

/// A candidate that matched: its score, its place among the candidates, and
/// its text.
pub struct Scored {
    pub score: i64,
    pub index: usize,
    pub value: String,
}

impl View for Scored {
    type V = (int, int, Seq<char>);

    open spec fn view(&self) -> (int, int, Seq<char>) {
        (self.score as int, self.index as int, self.value@)
    }
}

/// The views of a list of scored candidates.
pub open spec fn scored_views(list: Seq<Scored>) -> Seq<(int, int, Seq<char>)> {
    Seq::new(list.len(), |i: int| list[i]@)
}

/// `a` is shown before `b`: it has the higher score, or the same score and
/// the earlier place.
pub open spec fn ranks_before(a: (int, int, Seq<char>), b: (int, int, Seq<char>)) -> bool {
    a.0 > b.0 || (a.0 == b.0 && a.1 < b.1)
}

/// The ranked list `list` with `x` put in its place.
pub open spec fn rank_inserted(
    list: Seq<(int, int, Seq<char>)>,
    x: (int, int, Seq<char>),
) -> Seq<(int, int, Seq<char>)>
    decreases list.len(),
{
    if list.len() == 0 {
        seq![x]
    } else if ranks_before(list.last(), x) {
        list.push(x)
    } else {
        rank_inserted(list.drop_last(), x).push(list.last())
    }
}

/// The first `k` of `candidates` that match `pattern`, best first.
pub open spec fn ranked(candidates: Seq<Seq<char>>, pattern: Seq<char>, k: int) -> Seq<
    (int, int, Seq<char>),
>
    decreases k,
{
    if k <= 0 {
        Seq::empty()
    } else {
        match fuzzy_score(candidates[k - 1], pattern) {
            Some(score) => rank_inserted(
                ranked(candidates, pattern, k - 1),
                (score as int, k - 1, candidates[k - 1]),
            ),
            None => ranked(candidates, pattern, k - 1),
        }
    }
}

/// The texts of a ranked list.
pub open spec fn ranked_values(list: Seq<(int, int, Seq<char>)>) -> Seq<Seq<char>> {
    Seq::new(list.len(), |i: int| list[i].2)
}

/// Each element of the list is shown before those behind it.
pub open spec fn is_ranked(list: Seq<(int, int, Seq<char>)>) -> bool {
    forall|i: int, j: int|
        0 <= i < j < list.len() ==> ranks_before(#[trigger] list[i], #[trigger] list[j])
}

proof fn lemma_rank_inserted(list: Seq<(int, int, Seq<char>)>, x: (int, int, Seq<char>))
    requires
        is_ranked(list),
        forall|i: int| 0 <= i < list.len() ==> (#[trigger] list[i]).1 != x.1,
    ensures
        is_ranked(rank_inserted(list, x)),
        rank_inserted(list, x).len() == list.len() + 1,
        forall|v: (int, int, Seq<char>)|
            #![trigger rank_inserted(list, x).contains(v)]
            rank_inserted(list, x).contains(v) <==> (list.contains(v) || v == x),
    decreases list.len(),
{
    let r = rank_inserted(list, x);
    if list.len() == 0 {
        assert(r[0] == x);
        assert forall|v: (int, int, Seq<char>)| #![trigger r.contains(v)] r.contains(v) <==> (
        list.contains(v) || v == x) by {
            if v == x {
                assert(r[0] == v);
            }
        }
    } else if ranks_before(list.last(), x) {
        assert forall|i: int, j: int| 0 <= i < j < r.len() implies ranks_before(
            #[trigger] r[i],
            #[trigger] r[j],
        ) by {
            if j == list.len() && i < list.len() - 1 {
                assert(ranks_before(list[i], list[list.len() - 1]));
            }
        }
        assert forall|v: (int, int, Seq<char>)| #![trigger r.contains(v)] r.contains(v) <==> (
        list.contains(v) || v == x) by {
            if r.contains(v) {
                let k = choose|k: int| 0 <= k < r.len() && r[k] == v;
                if k < list.len() {
                    assert(list[k] == v);
                }
            }
            if list.contains(v) {
                let k = choose|k: int| 0 <= k < list.len() && list[k] == v;
                assert(r[k] == v);
            }
            if v == x {
                assert(r[r.len() - 1] == v);
            }
        }
    } else {
        let rest = list.drop_last();
        let last = list.last();
        assert(is_ranked(rest)) by {
            assert forall|i: int, j: int| 0 <= i < j < rest.len() implies ranks_before(
                #[trigger] rest[i],
                #[trigger] rest[j],
            ) by {
                assert(rest[i] == list[i] && rest[j] == list[j]);
            }
        }
        assert forall|i: int| 0 <= i < rest.len() implies (#[trigger] rest[i]).1 != x.1 by {
            assert(rest[i] == list[i]);
        }
        lemma_rank_inserted(rest, x);
        let inner = rank_inserted(rest, x);
        assert(list[list.len() - 1].1 != x.1);
        assert(ranks_before(x, last));
        assert forall|k: int| 0 <= k < inner.len() implies ranks_before(
            #[trigger] inner[k],
            last,
        ) by {
            assert(inner.contains(inner[k]));
            if inner[k] != x {
                assert(rest.contains(inner[k]));
                let m = choose|m: int| 0 <= m < rest.len() && rest[m] == inner[k];
                assert(list[m] == inner[k]);
                assert(ranks_before(list[m], list[list.len() - 1]));
            }
        }
        assert forall|i: int, j: int| 0 <= i < j < r.len() implies ranks_before(
            #[trigger] r[i],
            #[trigger] r[j],
        ) by {
            if j < inner.len() {
                assert(r[i] == inner[i] && r[j] == inner[j]);
            } else {
                assert(r[i] == inner[i]);
            }
        }
        assert forall|v: (int, int, Seq<char>)| #![trigger r.contains(v)] r.contains(v) <==> (
        list.contains(v) || v == x) by {
            if r.contains(v) {
                let k = choose|k: int| 0 <= k < r.len() && r[k] == v;
                if k < inner.len() {
                    assert(inner[k] == v);
                    assert(inner.contains(v));
                    if v != x {
                        let m = choose|m: int| 0 <= m < rest.len() && rest[m] == v;
                        assert(list[m] == v);
                    }
                } else {
                    assert(list[list.len() - 1] == v);
                }
            }
            if list.contains(v) {
                let k = choose|k: int| 0 <= k < list.len() && list[k] == v;
                if k < rest.len() {
                    assert(rest[k] == v);
                    assert(rest.contains(v));
                    assert(inner.contains(v));
                    let m = choose|m: int| 0 <= m < inner.len() && inner[m] == v;
                    assert(r[m] == v);
                } else {
                    assert(r[r.len() - 1] == v);
                }
            }
            if v == x {
                assert(inner.contains(x));
                let m = choose|m: int| 0 <= m < inner.len() && inner[m] == x;
                assert(r[m] == v);
            }
        }
    }
}

/// The ranked list holds exactly the candidates that match, each with its
/// score and place, the better score first and the earlier place first among
/// equal scores.
pub proof fn lemma_ranked(candidates: Seq<Seq<char>>, pattern: Seq<char>, k: int)
    requires
        0 <= k <= candidates.len(),
    ensures
        is_ranked(ranked(candidates, pattern, k)),
        forall|v: (int, int, Seq<char>)|
            #![trigger ranked(candidates, pattern, k).contains(v)]
            ranked(candidates, pattern, k).contains(v) <==> (0 <= v.1 < k && v.2 == candidates[v.1]
                && fuzzy_score(candidates[v.1], pattern) == Some(v.0 as i64) && i64::MIN <= v.0
                <= i64::MAX),
    decreases k,
{
    if k > 0 {
        lemma_ranked(candidates, pattern, k - 1);
        let prev = ranked(candidates, pattern, k - 1);
        match fuzzy_score(candidates[k - 1], pattern) {
            Some(score) => {
                let x = (score as int, k - 1, candidates[k - 1]);
                assert forall|i: int| 0 <= i < prev.len() implies (#[trigger] prev[i]).1
                    != x.1 by {
                    assert(prev.contains(prev[i]));
                }
                lemma_rank_inserted(prev, x);
            },
            None => {},
        }
    }
}

/// Puts `x` into the ranked list at its place.
fn rank_insert(list: &mut Vec<Scored>, x: Scored)
    ensures
        scored_views(final(list)@) == rank_inserted(scored_views(old(list)@), x@),
{
    let ghost start = scored_views(list@);
    let mut i: usize = list.len();
    assert(start.take(i as int) =~= start);
    assert(rank_inserted(start, x@) + start.skip(i as int) =~= rank_inserted(start, x@));
    while i > 0
        invariant
            i <= list.len(),
            start == scored_views(list@),
            start == scored_views(old(list)@),
            rank_inserted(start, x@) == rank_inserted(start.take(i as int), x@) + start.skip(
                i as int,
            ),
        decreases i,
    {
        let ghost head = start.take(i as int);
        assert(head.last() == list@[i as int - 1]@);
        assert(head.drop_last() =~= start.take(i as int - 1));
        let last = &list[i - 1];
        if last.score > x.score || (last.score == x.score && last.index < x.index) {
            assert(head.push(x@) + start.skip(i as int) =~= start.insert(i as int, x@));
            let ghost xv = x@;
            list.insert(i, x);
            assert(scored_views(list@) =~= start.insert(i as int, xv));
            return ;
        }
        assert(rank_inserted(head.drop_last(), x@).push(head.last()) + start.skip(i as int)
            =~= rank_inserted(head.drop_last(), x@) + start.skip(i as int - 1));
        i = i - 1;
    }
    proof {
        let head = start.take(0);
        assert(head =~= Seq::empty());
        assert(head.push(x@) + start.skip(0) =~= start.insert(0, x@));
    }
    let ghost xv = x@;
    list.insert(0, x);
    assert(scored_views(list@) =~= start.insert(0, xv));
}

/// The candidates that match `pattern` fuzzily, best first; candidates with
/// the same score stay in their order.
pub fn rank_candidates(candidates: &[String], pattern: &str) -> (r: Vec<String>)
    ensures
        texts(r@) == ranked_values(ranked(texts(candidates@), pattern@, candidates@.len() as int)),
{
    let ghost cs = texts(candidates@);
    let mut list: Vec<Scored> = Vec::new();
    let mut i: usize = 0;
    assert(scored_views(list@) =~= Seq::empty());
    while i < candidates.len()
        invariant
            i <= candidates.len(),
            cs == texts(candidates@),
            scored_views(list@) == ranked(cs, pattern@, i as int),
        decreases candidates.len() - i,
    {
        assert(cs[i as int] == candidates@[i as int]@);
        match fuzzy_match(candidates[i].as_str(), pattern) {
            Some(score) => {
                rank_insert(&mut list, Scored { score, index: i, value: candidates[i].clone() });
            },
            None => {},
        }
        i = i + 1;
    }
    let ghost all = scored_views(list@);
    let mut r: Vec<String> = Vec::new();
    let mut j: usize = 0;
    while j < list.len()
        invariant
            j <= list.len(),
            all == scored_views(list@),
            texts(r@) == ranked_values(all).take(j as int),
        decreases list.len() - j,
    {
        let ghost before = texts(r@);
        r.push(list[j].value.clone());
        assert(texts(r@) =~= before.push(list@[j as int].value@));
        assert(ranked_values(all).take(j as int + 1) =~= ranked_values(all).take(j as int).push(
            list@[j as int].value@,
        ));
        j = j + 1;
    }
    assert(ranked_values(all).take(list.len() as int) =~= ranked_values(all));
    r
}

/// `hay` holds `needle` at position `k`.
pub open spec fn occurs_at(hay: Seq<char>, needle: Seq<char>, k: int) -> bool {
    0 <= k && k + needle.len() <= hay.len() && hay.subrange(k, k + needle.len()) == needle
}

/// `hay` holds `needle` somewhere.
pub open spec fn holds_text(hay: Seq<char>, needle: Seq<char>) -> bool {
    exists|k: int| occurs_at(hay, needle, k)
}

/// Whether `hay` holds `needle` somewhere.
pub fn contains_str(hay: &str, needle: &str) -> (b: bool)
    ensures
        b == holds_text(hay@, needle@),
{
    let h = to_chars(hay);
    let n = to_chars(needle);
    if n.len() > h.len() {
        assert forall|k: int| !occurs_at(hay@, needle@, k) by {}
        return false;
    }
    let mut k: usize = 0;
    while k <= h.len() - n.len()
        invariant
            n.len() <= h.len(),
            h@ == hay@,
            n@ == needle@,
            forall|j: int| 0 <= j < k ==> !occurs_at(hay@, needle@, j),
        decreases h.len() - n.len() + 1 - k,
    {
        let mut i: usize = 0;
        while i < n.len() && h[k + i] == n[i]
            invariant
                i <= n.len(),
                k + n.len() <= h.len(),
                h@.subrange(k as int, k + i) == n@.take(i as int),
            decreases n.len() - i,
        {
            assert(h@.subrange(k as int, k + i + 1) =~= h@.subrange(k as int, k + i).push(
                h@[k + i],
            ));
            assert(n@.take(i as int + 1) =~= n@.take(i as int).push(n@[i as int]));
            i = i + 1;
        }
        if i == n.len() {
            assert(n@.take(i as int) =~= n@);
            assert(occurs_at(hay@, needle@, k as int));
            return true;
        }
        assert(!occurs_at(hay@, needle@, k as int)) by {
            if occurs_at(hay@, needle@, k as int) {
                assert(h@.subrange(k as int, k + n.len())[i as int] == n@[i as int]);
            }
        }
        k = k + 1;
    }
    assert forall|j: int| !occurs_at(hay@, needle@, j) by {}
    false
}

/// `line` without `word` at its end; `line` itself when it does not end in
/// `word`.
pub open spec fn without_suffix(line: Seq<char>, word: Seq<char>) -> Seq<char> {
    if word.len() <= line.len() && line.skip(line.len() - word.len()) == word {
        line.take(line.len() - word.len())
    } else {
        line
    }
}

/// Whether `x` ends with `suffix`.
fn chars_end_with(x: &Vec<char>, suffix: &Vec<char>) -> (b: bool)
    ensures
        b == (suffix.len() <= x.len() && x@.skip(x.len() - suffix.len()) == suffix@),
{
    if suffix.len() > x.len() {
        return false;
    }
    let off = x.len() - suffix.len();
    let mut i: usize = 0;
    while i < suffix.len()
        invariant
            i <= suffix.len(),
            off + suffix.len() == x.len(),
            x@.skip(off as int).take(i as int) == suffix@.take(i as int),
        decreases suffix.len() - i,
    {
        if x[off + i] != suffix[i] {
            assert(x@.skip(off as int)[i as int] != suffix@[i as int]);
            return false;
        }
        assert(x@.skip(off as int).take(i as int + 1) =~= x@.skip(off as int).take(i as int).push(
            x@[off + i],
        ));
        assert(suffix@.take(i as int + 1) =~= suffix@.take(i as int).push(suffix@[i as int]));
        i = i + 1;
    }
    assert(x@.skip(off as int).take(suffix.len() as int) =~= x@.skip(off as int));
    assert(suffix@.take(suffix.len() as int) =~= suffix@);
    true
}

/// The step that follows from the candidates alone, or the question to ask.
#[derive(Debug, Clone)]
pub enum Selection {
    /// Nothing to ask: the outcome is known.
    Done(Option<String>),
    /// Show `items` under `prompt` and let the user pick one.
    Ask { prompt: String, items: Vec<String> },
}

/// The candidates to show: with fuzzy matching on and a current word, those
/// that match it, best first; else all of them in their order.
pub open spec fn shown_items(candidates: Seq<Seq<char>>, word: Seq<char>, fuzzy: bool) -> Seq<
    Seq<char>,
> {
    if fuzzy && word.len() > 0 {
        ranked_values(ranked(candidates, word, candidates.len() as int))
    } else {
        candidates
    }
}

/// A selector that asks on the terminal.
#[derive(Debug, Clone, Copy)]
pub struct DialoguerSelector;

impl DialoguerSelector {
    /// A selector.
    pub fn new() -> Self {
        DialoguerSelector
    }

    /// Decides what to do with the candidates. No candidate means no choice,
    /// a single candidate is the choice. Else the user is asked, unless no
    /// candidate is left to show; the prompt is the line without the current
    /// word at its end.
    pub fn prepare(&self, candidates: &[String], current_word: &str, config: &SelectorConfig) -> (r:
        Selection)
        ensures
            match r {
                Selection::Done(None) => candidates@.len() == 0 || (candidates@.len() > 1
                    && shown_items(texts(candidates@), current_word@, config.fuzzy).len() == 0),
                Selection::Done(Some(c)) => candidates@.len() == 1 && c@ == candidates@[0]@,
                Selection::Ask { prompt, items } => {
                    &&& candidates@.len() > 1
                    &&& prompt@ == without_suffix(config.ctx.line@, current_word@)
                    &&& texts(items@) == shown_items(
                        texts(candidates@),
                        current_word@,
                        config.fuzzy,
                    )
                    &&& items@.len() > 0
                },
            },
    {
        assert(texts(candidates@).len() == candidates@.len());
        if candidates.len() == 0 {
            return Selection::Done(None);
        }
        if candidates.len() == 1 {
            return Selection::Done(Some(candidates[0].clone()));
        }
        let line = to_chars(config.ctx.line.as_str());
        let word = to_chars(current_word);
        let prompt = if chars_end_with(&line, &word) {
            let p = string_from(&line, 0, line.len() - word.len());
            assert(line@.subrange(0, line.len() - word.len()) =~= line@.take(
                line.len() - word.len(),
            ));
            p
        } else {
            config.ctx.line.clone()
        };
        let items = if config.fuzzy && word.len() > 0 {
            rank_candidates(candidates, current_word)
        } else {
            let all = crate::parser::words_from(candidates, 0);
            assert(texts(candidates@).skip(0) =~= texts(candidates@));
            all
        };
        assert(texts(items@).len() == items@.len());
        if items.len() == 0 {
            return Selection::Done(None);
        }
        Selection::Ask { prompt, items }
    }

    /// Reads the outcome of the interaction: the index that the user picked
    /// among `items`, `None` when the user left without picking, or the text
    /// of the error that ended the interaction. An interruption counts as
    /// leaving without a choice.
    pub fn conclude(&self, items: &Vec<String>, outcome: Result<Option<usize>, String>) -> (r:
        Result<Option<String>, SelectorError>)
        requires
            outcome matches Ok(Some(i)) ==> i < items.len(),
        ensures
            match outcome {
                Ok(Some(i)) => r matches Ok(Some(c)) && c@ == items@[i as int]@,
                Ok(None) => r matches Ok(None),
                Err(m) => if holds_text(m@, "interrupted"@) || holds_text(m@, "Interrupted"@) {
                    r matches Ok(None)
                } else {
                    r matches Err(SelectorError::ExecutionError(t)) && t@
                        == "Dialoguer selection failed: "@ + m@
                },
            },
    {
        match outcome {
            Ok(Some(i)) => Ok(Some(items[i].clone())),
            Ok(None) => Ok(None),
            Err(m) => {
                if contains_str(m.as_str(), "interrupted") || contains_str(
                    m.as_str(),
                    "Interrupted",
                ) {
                    Ok(None)
                } else {
                    Err(
                        SelectorError::ExecutionError(
                            concat("Dialoguer selection failed: ", m.as_str()),
                        ),
                    )
                }
            },
        }
    }
}

} // verus!
