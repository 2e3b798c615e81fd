//! Lookups in the shell history. The history file is read elsewhere; the
//! functions here work on its lines, oldest first.
use vstd::prelude::*;
use crate::text::{
    chars_eq, chars_precede, lemma_lex_transitive, lemma_lex_trichotomy, lex_lt, nth_word,
    nth_word_of, starts_with_ignoring_case, starts_with_lowercase, texts, to_chars, trim, trimmed,
};

verus! {

/// One remembered command line.
#[derive(Debug, Clone)]
pub struct HistoryEntry {
    pub command: String,
    pub timestamp: Option<String>,
}

/// The command lines of a list of entries, in order.
pub open spec fn commands(h: Seq<HistoryEntry>) -> Seq<Seq<char>> {
    Seq::new(h.len(), |i: int| h[i].command@)
}

/// A limit as a number; no limit is the largest number.
pub open spec fn limit_of(limit: Option<usize>) -> int {
    match limit {
        Some(l) => l as int,
        None => usize::MAX as int,
    }
}

/// The entries read from the first `k` lines: each line is trimmed, blank
/// lines and lines seen before are dropped, and reading stops once a line was
/// taken that brought the count to `limit`.
pub open spec fn history_of(lines: Seq<Seq<char>>, k: int, limit: Option<usize>) -> Seq<Seq<char>>
    decreases k,
{
    if k <= 0 {
        Seq::empty()
    } else {
        let prev = history_of(lines, k - 1, limit);
        let t = trimmed(lines[k - 1]);
        if prev.len() > 0 && limit is Some && prev.len() >= limit_of(limit) {
            prev
        } else if t.len() == 0 || prev.contains(t) {
            prev
        } else {
            prev.push(t)
        }
    }
}

/// Whether `list` holds `value`.
pub fn contains_text(list: &Vec<String>, value: &String) -> (b: bool)
    ensures
        b == texts(list@).contains(value@),
{
    let mut i: usize = 0;
    while i < list.len()
        invariant
            i <= list.len(),
            forall|j: int| 0 <= j < i ==> texts(list@)[j] != value@,
        decreases list.len() - i,
    {
        if list[i] == *value {
            assert(texts(list@)[i as int] == value@);
            return true;
        }
        i = i + 1;
    }
    false
}

/// The commands of a list of entries.
pub fn entry_commands(history: &Vec<HistoryEntry>) -> (r: Vec<String>)
    ensures
        texts(r@) == commands(history@),
{
    let mut r: Vec<String> = Vec::new();
    let mut i: usize = 0;
    while i < history.len()
        invariant
            i <= history.len(),
            texts(r@) == commands(history@).take(i as int),
        decreases history.len() - i,
    {
        let ghost before = texts(r@);
        r.push(history[i].command.clone());
        assert(texts(r@) =~= before.push(history@[i as int].command@));
        assert(commands(history@).take(i as int + 1) =~= commands(history@).take(i as int).push(
            history@[i as int].command@,
        ));
        i = i + 1;
    }
    assert(commands(history@).take(history.len() as int) =~= commands(history@));
    r
}

/// Turns the lines of a history file into entries: trimmed, without blank
/// lines and repeats, at most `limit` of them (but one at least, if there is
/// any).
pub fn read_history(lines: &Vec<String>, limit: Option<usize>) -> (entries: Vec<HistoryEntry>)
    ensures
        commands(entries@) == history_of(texts(lines@), lines.len() as int, limit),
        forall|i: int| 0 <= i < entries.len() ==> entries[i].timestamp is None,
{
    let ghost ls = texts(lines@);
    let mut entries: Vec<HistoryEntry> = Vec::new();
    let mut seen: Vec<String> = Vec::new();
    let mut i: usize = 0;
    let mut full = false;
    while i < lines.len()
        invariant
            i <= lines.len(),
            ls == texts(lines@),
            commands(entries@) == history_of(ls, i as int, limit),
            texts(seen@) == commands(entries@),
            seen.len() == entries.len(),
            full == (entries.len() > 0 && limit is Some && entries.len() >= limit_of(limit)),
            forall|j: int| 0 <= j < entries.len() ==> entries[j].timestamp is None,
        decreases lines.len() - i,
    {
        assert(ls[i as int] == lines@[i as int]@);
        if !full {
            let line = trim(lines[i].as_str());
            if line.as_str().unicode_len() > 0 && !contains_text(&seen, &line) {
                let ghost before = commands(entries@);
                seen.push(line.clone());
                entries.push(HistoryEntry { command: line, timestamp: None });
                assert(commands(entries@) =~= before.push(trimmed(ls[i as int])));
                assert(texts(seen@) =~= before.push(trimmed(ls[i as int])));
                full = match limit {
                    Some(l) => entries.len() >= l,
                    None => false,
                };
            }
        }
        i = i + 1;
    }
    entries
}

/// The first `limit` elements of `cmds` that start with `prefix`, letter case
/// aside, in order.
pub open spec fn first_matches(cmds: Seq<Seq<char>>, prefix: Seq<char>, limit: int) -> Seq<
    Seq<char>,
>
    decreases cmds.len(),
{
    if cmds.len() == 0 || limit <= 0 {
        Seq::empty()
    } else if starts_with_ignoring_case(cmds[0], prefix) {
        seq![cmds[0]] + first_matches(cmds.drop_first(), prefix, limit - 1)
    } else {
        first_matches(cmds.drop_first(), prefix, limit)
    }
}

/// The first `limit` of `cmds` that start with `prefix`, letter case aside;
/// with `newest_first`, `cmds` is read from its end.
pub fn take_matches(cmds: &Vec<String>, prefix: &str, limit: usize, newest_first: bool) -> (r: Vec<
    String,
>)
    ensures
        texts(r@) == first_matches(
            if newest_first {
                texts(cmds@).reverse()
            } else {
                texts(cmds@)
            },
            prefix@,
            limit as int,
        ),
{
    let ghost all = if newest_first {
        texts(cmds@).reverse()
    } else {
        texts(cmds@)
    };
    let n = cmds.len();
    let mut r: Vec<String> = Vec::new();
    let mut j: usize = 0;
    assert(all.skip(0) =~= all);
    while j < n && r.len() < limit
        invariant
            j <= n,
            n == cmds.len(),
            all.len() == n,
            r.len() <= limit,
            all == if newest_first {
                texts(cmds@).reverse()
            } else {
                texts(cmds@)
            },
            first_matches(all, prefix@, limit as int) == texts(r@) + first_matches(
                all.skip(j as int),
                prefix@,
                limit - r.len(),
            ),
        decreases n - j,
    {
        let idx = if newest_first {
            n - 1 - j
        } else {
            j
        };
        let ghost before = texts(r@);
        let ghost rest = all.skip(j as int);
        assert(rest[0] == cmds@[idx as int]@);
        assert(rest.drop_first() =~= all.skip(j as int + 1));
        if starts_with_lowercase(cmds[idx].as_str(), prefix) {
            r.push(cmds[idx].clone());
            assert(texts(r@) =~= before.push(rest[0]));
            assert(before + (seq![rest[0]] + first_matches(
                rest.drop_first(),
                prefix@,
                limit - before.len() - 1,
            )) =~= before.push(rest[0]) + first_matches(
                rest.drop_first(),
                prefix@,
                limit - before.len() - 1,
            ));
        }
        j = j + 1;
    }
    proof {
        let tail = first_matches(all.skip(j as int), prefix@, limit - r.len());
        assert(tail =~= Seq::<Seq<char>>::empty());
        assert(texts(r@) + tail =~= texts(r@));
    }
    r
}

/// The command lines of the history that start with `prefix`, letter case
/// aside, oldest first, at most `limit` of them. The history itself is read
/// with the same limit.
pub fn get_matching_history_commands(lines: &Vec<String>, prefix: &str, limit: Option<usize>) -> (r:
    Vec<String>)
    ensures
        texts(r@) == first_matches(
            history_of(texts(lines@), lines.len() as int, limit),
            prefix@,
            limit_of(limit),
        ),
{
    let history = read_history(lines, limit);
    let cmds = entry_commands(&history);
    let cap = match limit {
        Some(l) => l,
        None => usize::MAX,
    };
    take_matches(&cmds, prefix, cap, false)
}

/// The command lines of the whole history that start with `prefix`, letter
/// case aside, newest first, at most `limit` of them. An empty prefix finds
/// nothing.
pub fn get_history_commands_by_prefix(lines: &Vec<String>, prefix: &str, limit: Option<usize>) -> (r:
    Vec<String>)
    ensures
        texts(r@) == if prefix@.len() == 0 {
            Seq::empty()
        } else {
            first_matches(
                history_of(texts(lines@), lines.len() as int, None).reverse(),
                prefix@,
                limit_of(limit),
            )
        },
{
    if prefix.unicode_len() == 0 {
        let r: Vec<String> = Vec::new();
        assert(texts(r@) =~= Seq::<Seq<char>>::empty());
        return r;
    }
    let history = read_history(lines, None);
    let cmds = entry_commands(&history);
    let cap = match limit {
        Some(l) => l,
        None => usize::MAX,
    };
    take_matches(&cmds, prefix, cap, true)
}

/// The first word of each of `cmds` that has one, in order.
pub open spec fn first_words(cmds: Seq<Seq<char>>) -> Seq<Seq<char>>
    decreases cmds.len(),
{
    if cmds.len() == 0 {
        Seq::empty()
    } else {
        match nth_word(cmds.last(), 0) {
            Some(w) => first_words(cmds.drop_last()).push(w),
            None => first_words(cmds.drop_last()),
        }
    }
}

/// The sorted list `list` with `w` put in its place; unchanged when `w` is
/// in it already.
pub open spec fn inserted(list: Seq<Seq<char>>, w: Seq<char>) -> Seq<Seq<char>>
    decreases list.len(),
{
    if list.len() == 0 {
        seq![w]
    } else if list.last() == w {
        list
    } else if lex_lt(list.last(), w) {
        list.push(w)
    } else {
        inserted(list.drop_last(), w).push(list.last())
    }
}

/// The elements of `vs` in the order of strings, each once.
pub open spec fn sorted_distinct(vs: Seq<Seq<char>>) -> Seq<Seq<char>>
    decreases vs.len(),
{
    if vs.len() == 0 {
        Seq::empty()
    } else {
        inserted(sorted_distinct(vs.drop_last()), vs.last())
    }
}

/// Each element comes before the next in the order of strings.
pub open spec fn strictly_increasing(list: Seq<Seq<char>>) -> bool {
    forall|i: int, j: int| 0 <= i < j < list.len() ==> lex_lt(#[trigger] list[i], #[trigger] list[j])
}

proof fn lemma_inserted(list: Seq<Seq<char>>, w: Seq<char>)
    requires
        strictly_increasing(list),
    ensures
        strictly_increasing(inserted(list, w)),
        forall|v: Seq<char>|
            #![trigger inserted(list, w).contains(v)]
            inserted(list, w).contains(v) <==> (list.contains(v) || v == w),
        inserted(list, w).len() > 0,
        list.len() > 0 && inserted(list, w).last() != w ==> inserted(list, w).last() == list.last(),
    decreases list.len(),
{
    let r = inserted(list, w);
    if list.len() == 0 {
        assert(r[0] == w);
        assert forall|v: Seq<char>| r.contains(v) <==> (list.contains(v) || v == w) by {
            if v == w {
                assert(r[0] == v);
            }
        }
    } else if list.last() == w {
        assert(list[list.len() - 1] == w);
    } else if lex_lt(list.last(), w) {
        assert forall|i: int, j: int| 0 <= i < j < r.len() implies lex_lt(
            #[trigger] r[i],
            #[trigger] r[j],
        ) by {
            if j == list.len() {
                if i < list.len() - 1 {
                    assert(lex_lt(list[i], list[list.len() - 1]));
                    lemma_lex_transitive(list[i], list.last(), w);
                }
            }
        }
        assert forall|v: Seq<char>| r.contains(v) <==> (list.contains(v) || v == w) by {
            if r.contains(v) {
                let k = choose|k: int| 0 <= k < r.len() && r[k] == v;
                if k < list.len() {
                    assert(list[k] == v);
                }
            }
            if list.contains(v) {
                let k = choose|k: int| 0 <= k < list.len() && list[k] == v;
                assert(r[k] == v);
            }
            if v == w {
                assert(r[r.len() - 1] == v);
            }
        }
    } else {
        let rest = list.drop_last();
        let last = list.last();
        assert(strictly_increasing(rest)) by {
            assert forall|i: int, j: int| 0 <= i < j < rest.len() implies lex_lt(
                #[trigger] rest[i],
                #[trigger] rest[j],
            ) by {
                assert(rest[i] == list[i] && rest[j] == list[j]);
            }
        }
        lemma_inserted(rest, w);
        let inner = inserted(rest, w);
        lemma_lex_trichotomy(last, w);
        assert(lex_lt(w, last));
        assert forall|k: int| 0 <= k < inner.len() implies lex_lt(#[trigger] inner[k], last) by {
            assert(inner.contains(inner[k]));
            if inner[k] != w {
                assert(rest.contains(inner[k]));
                let m = choose|m: int| 0 <= m < rest.len() && rest[m] == inner[k];
                assert(list[m] == inner[k]);
                assert(lex_lt(list[m], list[list.len() - 1]));
            }
        }
        assert forall|i: int, j: int| 0 <= i < j < r.len() implies lex_lt(
            #[trigger] r[i],
            #[trigger] r[j],
        ) by {
            if j < inner.len() {
                assert(r[i] == inner[i] && r[j] == inner[j]);
            } else {
                assert(r[i] == inner[i]);
            }
        }
        assert forall|v: Seq<char>| r.contains(v) <==> (list.contains(v) || v == w) by {
            if r.contains(v) {
                let k = choose|k: int| 0 <= k < r.len() && r[k] == v;
                if k < inner.len() {
                    assert(inner[k] == v);
                    assert(inner.contains(v));
                    if v != w {
                        let m = choose|m: int| 0 <= m < rest.len() && rest[m] == v;
                        assert(list[m] == v);
                    }
                } else {
                    assert(list[list.len() - 1] == v);
                }
            }
            if list.contains(v) {
                let k = choose|k: int| 0 <= k < list.len() && list[k] == v;
                if k < rest.len() {
                    assert(rest[k] == v);
                    assert(rest.contains(v));
                    assert(inner.contains(v));
                    let m = choose|m: int| 0 <= m < inner.len() && inner[m] == v;
                    assert(r[m] == v);
                } else {
                    assert(r[r.len() - 1] == v);
                }
            }
            if v == w {
                assert(inner.contains(w));
                let m = choose|m: int| 0 <= m < inner.len() && inner[m] == w;
                assert(r[m] == v);
            }
        }
    }
}

/// `sorted_distinct` gives the elements of its argument, each once, in the
/// order of strings.
pub proof fn lemma_sorted_distinct(vs: Seq<Seq<char>>)
    ensures
        strictly_increasing(sorted_distinct(vs)),
        forall|v: Seq<char>|
            #![trigger sorted_distinct(vs).contains(v)]
            sorted_distinct(vs).contains(v) <==> vs.contains(v),
    decreases vs.len(),
{
    if vs.len() > 0 {
        let rest = vs.drop_last();
        lemma_sorted_distinct(rest);
        lemma_inserted(sorted_distinct(rest), vs.last());
        assert forall|v: Seq<char>| sorted_distinct(vs).contains(v) <==> vs.contains(v) by {
            if vs.contains(v) {
                let k = choose|k: int| 0 <= k < vs.len() && vs[k] == v;
                if k < rest.len() {
                    assert(rest[k] == v);
                }
            }
            if rest.contains(v) {
                let k = choose|k: int| 0 <= k < rest.len() && rest[k] == v;
                assert(vs[k] == v);
            }
            if v == vs.last() {
                assert(vs[vs.len() - 1] == v);
            }
        }
    }
}

/// Puts `word` into the sorted list at its place, unless it is there already.
pub fn insert_sorted(list: &mut Vec<String>, word: String)
    ensures
        texts(final(list)@) == inserted(texts(old(list)@), word@),
{
    let ghost start = texts(list@);
    let w = to_chars(word.as_str());
    let mut i: usize = list.len();
    assert(start.take(i as int) =~= start);
    assert(start.skip(i as int) =~= Seq::<Seq<char>>::empty());
    assert(inserted(start, word@) + Seq::<Seq<char>>::empty() =~= inserted(start, word@));
    while i > 0
        invariant
            i <= list.len(),
            start == texts(list@),
            start == texts(old(list)@),
            w@ == word@,
            inserted(start, word@) == inserted(start.take(i as int), word@) + start.skip(i as int),
        decreases i,
    {
        let last = to_chars(list[i - 1].as_str());
        let ghost head = start.take(i as int);
        assert(head.last() == last@);
        assert(head.drop_last() =~= start.take(i as int - 1));
        if chars_eq(&last, &w) {
            assert(head + start.skip(i as int) =~= start);
            return ;
        }
        if chars_precede(&last, &w) {
            assert(head.push(word@) + start.skip(i as int) =~= start.insert(i as int, word@));
            list.insert(i, word);
            assert(texts(list@) =~= start.insert(i as int, word@));
            return ;
        }
        assert(inserted(head.drop_last(), word@).push(head.last()) + start.skip(i as int)
            =~= inserted(head.drop_last(), word@) + start.skip(i as int - 1));
        i = i - 1;
    }
    proof {
        let head = start.take(0);
        assert(head =~= Seq::<Seq<char>>::empty());
        assert(inserted(head, word@) =~= head.push(word@));
        assert(head.push(word@) + start.skip(0) =~= start.insert(0, word@));
    }
    list.insert(0, word);
    assert(texts(list@) =~= start.insert(0, word@));
}

/// The command names of the history: the first word of every entry, each
/// once, in the order of strings.
pub fn get_history_commands(lines: &Vec<String>, limit: Option<usize>) -> (r: Vec<String>)
    ensures
        texts(r@) == sorted_distinct(
            first_words(history_of(texts(lines@), lines.len() as int, limit)),
        ),
{
    let history = read_history(lines, limit);
    let ghost cmds = commands(history@);
    let mut r: Vec<String> = Vec::new();
    let mut i: usize = 0;
    assert(texts(r@) =~= Seq::<Seq<char>>::empty());
    while i < history.len()
        invariant
            i <= history.len(),
            cmds == commands(history@),
            texts(r@) == sorted_distinct(first_words(cmds.take(i as int))),
        decreases history.len() - i,
    {
        assert(cmds.take(i as int + 1).drop_last() =~= cmds.take(i as int));
        assert(cmds.take(i as int + 1).last() == history@[i as int].command@);
        match nth_word_of(history[i].command.as_str(), 0) {
            Some(word) => {
                let ghost fw = first_words(cmds.take(i as int));
                assert(fw.push(word@).drop_last() =~= fw);
                insert_sorted(&mut r, word);
            },
            None => {},
        }
        i = i + 1;
    }
    assert(cmds.take(history.len() as int) =~= cmds);
    r
}

/// The command names of the whole history that start with `prefix`, letter
/// case aside, in the order of strings, at most `limit` of them.
pub fn filter_history_commands(lines: &Vec<String>, prefix: &str, limit: Option<usize>) -> (r: Vec<
    String,
>)
    ensures
        texts(r@) == first_matches(
            sorted_distinct(first_words(history_of(texts(lines@), lines.len() as int, None))),
            prefix@,
            limit_of(limit),
        ),
{
    let names = get_history_commands(lines, None);
    let cap = match limit {
        Some(l) => l,
        None => usize::MAX,
    };
    take_matches(&names, prefix, cap, false)
}

/// The subcommands found in the first `k` of `cmds`: of each command that
/// starts with `prefix`, the second word if it starts with `word`, letter case
/// aside both times; each subcommand once, where it first appears.
pub open spec fn subcommands_of(
    cmds: Seq<Seq<char>>,
    prefix: Seq<char>,
    word: Seq<char>,
    k: int,
) -> Seq<Seq<char>>
    decreases k,
{
    if k <= 0 {
        Seq::empty()
    } else {
        let prev = subcommands_of(cmds, prefix, word, k - 1);
        match nth_word(cmds[k - 1], 1) {
            Some(second) => if starts_with_ignoring_case(cmds[k - 1], prefix)
                && starts_with_ignoring_case(second, word) && !prev.contains(second) {
                prev.push(second)
            } else {
                prev
            },
            None => prev,
        }
    }
}

/// The subcommands that the history knows for a command: the second word of
/// every entry that starts with `prefix`, if that word starts with
/// `current_word`. Letter case does not count. Nothing is found for an empty
/// `current_word`.
pub fn get_history_subcommands(
    lines: &Vec<String>,
    prefix: &str,
    current_word: &str,
    limit: Option<usize>,
) -> (r: Vec<String>)
    ensures
        texts(r@) == if current_word@.len() == 0 {
            Seq::empty()
        } else {
            subcommands_of(
                history_of(texts(lines@), lines.len() as int, limit),
                prefix@,
                current_word@,
                history_of(texts(lines@), lines.len() as int, limit).len() as int,
            )
        },
{
    let mut r: Vec<String> = Vec::new();
    assert(texts(r@) =~= Seq::<Seq<char>>::empty());
    if current_word.unicode_len() == 0 {
        return r;
    }
    let history = read_history(lines, limit);
    let ghost cmds = commands(history@);
    let mut i: usize = 0;
    while i < history.len()
        invariant
            i <= history.len(),
            cmds == commands(history@),
            texts(r@) == subcommands_of(cmds, prefix@, current_word@, i as int),
        decreases history.len() - i,
    {
        let command = history[i].command.as_str();
        assert(cmds[i as int] == command@);
        if starts_with_lowercase(command, prefix) {
            match nth_word_of(command, 1) {
                Some(second) => {
                    if starts_with_lowercase(second.as_str(), current_word) && !contains_text(
                        &r,
                        &second,
                    ) {
                        let ghost before = texts(r@);
                        r.push(second.clone());
                        assert(texts(r@) =~= before.push(second@));
                    }
                },
                None => {},
            }
        }
        i = i + 1;
    }
    r
}

} // verus!
