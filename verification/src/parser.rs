//! Cursor-aware splitting of a shell command line into words.
//!
//! A line is first handed to the shell tokenizer. Its tokens are unquoted and
//! the word under the cursor is located in character space, so that multi-byte
//! text cannot shift word boundaries. When the tokenizer rejects the line, a
//! tolerant splitter takes over; it keeps quotes and backslashes in the words.
use vstd::prelude::*;
use crate::text::{
    all_white_space, any_white_space_from, byte_len, byte_offset, char_index, char_index_in,
    char_width, concat, has_white_space_from, is_blank, is_white_space, lemma_byte_offset_increases,
    lemma_char_index_at_end, lemma_char_index_is_boundary,
    str_byte_len, string_from, texts, to_chars, utf8_width,
};

verus! {

/// Why a line could not be split. Splitting itself never fails; the variants
/// name the stages that a caller may report on.
#[derive(Debug)]
pub enum ParseError {
    TokenizationError(String),
    ParsingError(String),
    WordExtractionError,
    CursorOutOfBounds,
    Other(String),
}

impl ParseError {
    /// The error as a line of text.
    pub fn message(&self) -> (m: String)
        ensures
            m@ == match *self {
                ParseError::TokenizationError(t) => "Failed to tokenize input: "@ + t@,
                ParseError::ParsingError(t) => "Failed to parse tokens: "@ + t@,
                ParseError::WordExtractionError => "Failed to extract words from AST"@,
                ParseError::CursorOutOfBounds => "Cursor position out of bounds"@,
                ParseError::Other(t) => "Other error: "@ + t@,
            },
    {
        match self {
            ParseError::TokenizationError(t) => concat("Failed to tokenize input: ", t.as_str()),
            ParseError::ParsingError(t) => concat("Failed to parse tokens: ", t.as_str()),
            ParseError::WordExtractionError => "Failed to extract words from AST".to_owned(),
            ParseError::CursorOutOfBounds => "Cursor position out of bounds".to_owned(),
            ParseError::Other(t) => concat("Other error: ", t.as_str()),
        }
    }
}

/// The words of a command line and the one that holds the cursor.
#[derive(Debug, Clone)]
pub struct ParsedLine {
    /// Unquoted word values, left to right.
    pub words: Vec<String>,
    /// The text of each word as it was typed; parallel to `words`.
    pub raw_words: Vec<String>,
    /// Byte offset of the cursor, as the caller gave it.
    pub cursor_position: usize,
    /// Index into `words` of the word that holds the cursor.
    pub current_word_index: usize,
}

impl ParsedLine {
    /// There is at least one word, `raw_words` runs parallel to `words`, and
    /// the cursor's word exists.
    pub open spec fn wf(&self) -> bool {
        &&& self.words@.len() == self.raw_words@.len()
        &&& self.words@.len() > 0
        &&& self.current_word_index < self.words@.len()
    }

    /// A parsed line from its parts, taken as they are.
    pub fn new(
        words: Vec<String>,
        raw_words: Vec<String>,
        cursor_position: usize,
        current_word_index: usize,
    ) -> (p: Self)
        ensures
            p.words == words,
            p.raw_words == raw_words,
            p.cursor_position == cursor_position,
            p.current_word_index == current_word_index,
    {
        ParsedLine { words, raw_words, cursor_position, current_word_index }
    }
}

/// One lexical token of a line: its text as typed and its span in the line,
/// from the byte offset `start` to the byte offset `end`.
#[derive(Debug, Clone)]
pub struct Token {
    pub text: String,
    pub start: usize,
    pub end: usize,
}

impl View for Token {
    type V = (Seq<char>, int, int);

    open spec fn view(&self) -> (Seq<char>, int, int) {
        (self.text@, self.start as int, self.end as int)
    }
}

/// The views of a list of tokens, in order.
pub open spec fn token_views(ts: Seq<Token>) -> Seq<(Seq<char>, int, int)> {
    Seq::new(ts.len(), |i: int| ts[i]@)
}

/// `s` with shell quoting removed, read from a state in which the previous
/// character was (`escaped`) or was not a backslash: a backslash makes the
/// next character literal, other quote characters vanish.
pub open spec fn unquoted_from(s: Seq<char>, escaped: bool) -> Seq<char>
    decreases s.len(),
{
    if s.len() == 0 {
        Seq::empty()
    } else if escaped {
        seq![s[0]] + unquoted_from(s.drop_first(), false)
    } else if s[0] == '\\' {
        unquoted_from(s.drop_first(), true)
    } else if s[0] == '\'' || s[0] == '"' {
        unquoted_from(s.drop_first(), false)
    } else {
        seq![s[0]] + unquoted_from(s.drop_first(), false)
    }
}

/// `s` with shell quoting removed.
pub open spec fn unquoted(s: Seq<char>) -> Seq<char> {
    unquoted_from(s, false)
}

/// What the shell tokenizer makes of `line`: its tokens with their spans,
/// which it counts in characters, or `None` when it rejects the line.
pub uninterp spec fn shell_tokens(line: Seq<char>) -> Option<Seq<(Seq<char>, int, int)>>;

/// The view of a tokenizer result.
pub open spec fn tokens_view(r: Option<Vec<Token>>) -> Option<Seq<(Seq<char>, int, int)>> {
    match r {
        Some(ts) => Some(token_views(ts@)),
        None => None,
    }
}

/// Calls `brush_parser::tokenize_str`. The tokens depend on the line alone and
/// are named `shell_tokens`; each token's text and the two indices of its
/// span, which count characters, are copied as they come into a `Token`. Any
/// tokenizer error becomes `None`. A line that holds nothing but letters and
/// digits of ASCII, `-`, `.`, `/` and blanks is cut at its blanks and nowhere
/// else: each run between blanks is one token, from the position of its first
/// character to the position behind its last.
#[verifier::external_body]
fn tokenize(line: &str) -> (r: Option<Vec<Token>>)
    ensures
        tokens_view(r) == shell_tokens(line@),
        is_plain_line(line@) ==> tokens_view(r) == Some(plain_tokens(line@)),
{
    match brush_parser::tokenize_str(line) {
        Ok(tokens) => Some(
            tokens.iter().map(
                |t| Token {
                    text: t.to_str().to_string(),
                    start: t.location().start.index,
                    end: t.location().end.index,
                },
            ).collect(),
        ),
        Err(_) => None,
    }
}

/// Calls `brush_parser::unquote_str`, which drops every unescaped backslash and
/// quote character and keeps the character after a backslash as it is.
#[verifier::external_body]
fn unquote_str(s: &str) -> (r: String)
    ensures
        r@ == unquoted(s@),
{
    brush_parser::unquote_str(s)
}

/// Removes shell quoting from `s`.
pub fn unquote_string(s: &str) -> (r: String)
    ensures
        r@ == unquoted(s@),
{
    unquote_str(s)
}

/// Converts a byte offset into `s` to a character offset: the number of
/// characters that start before that byte. An offset past the end gives the
/// number of characters.
pub fn byte_to_char_index(s: &str, byte_idx: usize) -> (k: usize)
    ensures
        k as int == char_index(s@, byte_idx as int),
        k <= s@.len(),
        forall|j: int| 0 <= j < k ==> byte_offset(s@, j) < byte_idx,
        k < s@.len() ==> byte_offset(s@, k as int) >= byte_idx,
        byte_idx >= byte_len(s@) ==> k == s@.len(),
{
    proof {
        lemma_char_index_is_boundary(s@, byte_idx as int);
        if byte_idx >= byte_len(s@) {
            lemma_char_index_at_end(s@, byte_idx as int);
        }
    }
    let chars = to_chars(s);
    char_index_in(&chars, byte_idx)
}

/// Character offset at which token `i` starts.
pub open spec fn span_start(line: Seq<char>, tv: Seq<(Seq<char>, int, int)>, i: int) -> int {
    char_index(line, tv[i].1)
}

/// Character offset at which token `i` ends.
pub open spec fn span_end(line: Seq<char>, tv: Seq<(Seq<char>, int, int)>, i: int) -> int {
    char_index(line, tv[i].2)
}

/// Character offset at which the token before token `i` ends; 0 for the first.
pub open spec fn end_before(line: Seq<char>, tv: Seq<(Seq<char>, int, int)>, i: int) -> int {
    if i <= 0 {
        0
    } else {
        span_end(line, tv, i - 1)
    }
}

/// The cursor sits in the gap in front of token `i`.
pub open spec fn cursor_in_gap(
    line: Seq<char>,
    tv: Seq<(Seq<char>, int, int)>,
    i: int,
    cursor: int,
) -> bool {
    end_before(line, tv, i) <= cursor < span_start(line, tv, i)
}

/// The cursor touches token `i`: both ends of the span count.
pub open spec fn cursor_in_token(
    line: Seq<char>,
    tv: Seq<(Seq<char>, int, int)>,
    i: int,
    cursor: int,
) -> bool {
    span_start(line, tv, i) <= cursor <= span_end(line, tv, i)
}

/// First token at or after `k` that claims the cursor, by its gap or by its
/// span; the number of tokens when none does.
pub open spec fn first_claim(
    line: Seq<char>,
    tv: Seq<(Seq<char>, int, int)>,
    cursor: int,
    k: int,
) -> int
    decreases tv.len() - k,
{
    if k >= tv.len() {
        tv.len() as int
    } else if cursor_in_gap(line, tv, k, cursor) || cursor_in_token(line, tv, k, cursor) {
        k
    } else {
        first_claim(line, tv, cursor, k + 1)
    }
}

/// No token claims the cursor, it lies past the last token, and whitespace
/// follows that token: an empty word is appended for it.
pub open spec fn appends_trailing(
    line: Seq<char>,
    tv: Seq<(Seq<char>, int, int)>,
    cursor: int,
) -> bool {
    &&& first_claim(line, tv, cursor, 0) >= tv.len()
    &&& has_white_space_from(line, end_before(line, tv, tv.len() as int))
    &&& cursor > end_before(line, tv, tv.len() as int)
}

/// The word list made from `items` (one per token): an empty word is inserted
/// where the cursor sits in a gap, appended where it trails the last token, and
/// stands alone when there is no token at all.
pub open spec fn placed(
    items: Seq<Seq<char>>,
    line: Seq<char>,
    tv: Seq<(Seq<char>, int, int)>,
    cursor: int,
) -> Seq<Seq<char>> {
    let k = first_claim(line, tv, cursor, 0);
    if k < tv.len() {
        if cursor_in_gap(line, tv, k, cursor) {
            items.insert(k, Seq::empty())
        } else {
            items
        }
    } else if appends_trailing(line, tv, cursor) {
        items.push(Seq::empty())
    } else if tv.len() == 0 {
        seq![Seq::empty()]
    } else {
        items
    }
}

/// Index of the cursor's word in the list that `placed` describes.
pub open spec fn placed_index(
    line: Seq<char>,
    tv: Seq<(Seq<char>, int, int)>,
    cursor: int,
) -> int {
    let k = first_claim(line, tv, cursor, 0);
    if k < tv.len() {
        k
    } else if appends_trailing(line, tv, cursor) {
        tv.len() as int
    } else if tv.len() == 0 {
        0
    } else {
        tv.len() - 1
    }
}

/// The unquoted value of each token.
pub open spec fn token_words(tv: Seq<(Seq<char>, int, int)>) -> Seq<Seq<char>> {
    Seq::new(tv.len(), |i: int| unquoted(tv[i].0))
}

/// The text of each token as typed.
pub open spec fn token_raw(tv: Seq<(Seq<char>, int, int)>) -> Seq<Seq<char>> {
    Seq::new(tv.len(), |i: int| tv[i].0)
}

proof fn lemma_first_claim_bounds(
    line: Seq<char>,
    tv: Seq<(Seq<char>, int, int)>,
    cursor: int,
    k: int,
)
    requires
        0 <= k <= tv.len(),
    ensures
        k <= first_claim(line, tv, cursor, k) <= tv.len(),
    decreases tv.len() - k,
{
    if k < tv.len() && !(cursor_in_gap(line, tv, k, cursor) || cursor_in_token(
        line,
        tv,
        k,
        cursor,
    )) {
        lemma_first_claim_bounds(line, tv, cursor, k + 1);
    }
}

proof fn lemma_take_insert_push(t: Seq<Seq<char>>, n: int, k: int, e: Seq<char>)
    requires
        0 <= k <= n < t.len(),
    ensures
        t.take(n).insert(k, e).push(t[n]) == t.take(n + 1).insert(k, e),
        t.take(n).insert(n, e) == t.take(n).push(e),
{
    assert(t.take(n).insert(k, e).push(t[n]) =~= t.take(n + 1).insert(k, e));
    assert(t.take(n).insert(n, e) =~= t.take(n).push(e));
}

/// Builds the word list of `input` from the tokens that the tokenizer reported
/// for it, and finds the word under the cursor.
///
/// Token spans and the cursor are converted to character offsets first. The
/// first token that claims the cursor gets it: by the gap in front of it (an
/// empty word is then inserted there) or by its span, both ends included.
/// When no token claims it, an empty word is appended if the cursor trails the
/// last token and whitespace follows that token; otherwise the last word is
/// taken.
pub fn parse_tokens(input: &str, tokens: &Vec<Token>, cursor_pos: usize) -> (p: ParsedLine)
    ensures
        p.wf(),
        p.cursor_position == cursor_pos,
        texts(p.words@) == placed(
            token_words(token_views(tokens@)),
            input@,
            token_views(tokens@),
            char_index(input@, cursor_pos as int),
        ),
        texts(p.raw_words@) == placed(
            token_raw(token_views(tokens@)),
            input@,
            token_views(tokens@),
            char_index(input@, cursor_pos as int),
        ),
        p.current_word_index as int == placed_index(
            input@,
            token_views(tokens@),
            char_index(input@, cursor_pos as int),
        ),
{
    let chars = to_chars(input);
    let cursor_char = byte_to_char_index(input, cursor_pos);
    let ghost line = input@;
    let ghost tv = token_views(tokens@);
    let ghost cur = cursor_char as int;
    let ghost empty = Seq::<char>::empty();

    let mut words: Vec<String> = Vec::new();
    let mut raw_words: Vec<String> = Vec::new();
    let mut current_word_index: usize = 0;
    let mut found = false;
    let mut last_end: usize = 0;
    let mut i: usize = 0;

    while i < tokens.len()
        invariant
            i <= tokens.len(),
            chars@ == line,
            line == input@,
            tv == token_views(tokens@),
            tv.len() == tokens.len(),
            cur == cursor_char as int,
            empty == Seq::<char>::empty(),
            last_end as int == end_before(line, tv, i as int),
            words.len() == raw_words.len(),
            !found ==> {
                &&& first_claim(line, tv, cur, 0) == first_claim(line, tv, cur, i as int)
                &&& texts(words@) == token_words(tv).take(i as int)
                &&& texts(raw_words@) == token_raw(tv).take(i as int)
            },
            found ==> {
                let k = first_claim(line, tv, cur, 0);
                &&& 0 <= k < i
                &&& current_word_index as int == k
                &&& texts(words@) == if cursor_in_gap(line, tv, k, cur) {
                    token_words(tv).take(i as int).insert(k, empty)
                } else {
                    token_words(tv).take(i as int)
                }
                &&& texts(raw_words@) == if cursor_in_gap(line, tv, k, cur) {
                    token_raw(tv).take(i as int).insert(k, empty)
                } else {
                    token_raw(tv).take(i as int)
                }
            },
        decreases tokens.len() - i,
    {
        let token = &tokens[i];
        let start_char = char_index_in(&chars, token.start);
        let end_char = char_index_in(&chars, token.end);
        assert(tv[i as int] == token@);
        assert(start_char as int == span_start(line, tv, i as int));
        assert(end_char as int == span_end(line, tv, i as int));

        let ghost old_words = texts(words@);
        let ghost old_raw = texts(raw_words@);
        let ghost was_found = found;
        let mut gap = false;

        if !found && start_char > last_end && cursor_char >= last_end && cursor_char < start_char {
            words.push(String::new());
            raw_words.push(String::new());
            current_word_index = words.len() - 1;
            found = true;
            gap = true;
            assert(texts(words@) =~= old_words.push(empty));
            assert(texts(raw_words@) =~= old_raw.push(empty));
        }
        let ghost mid_words = texts(words@);
        let ghost mid_raw = texts(raw_words@);

        let value = unquote_string(token.text.as_str());
        let raw = token.text.clone();
        words.push(value);
        raw_words.push(raw);
        assert(texts(words@) =~= mid_words.push(unquoted(tv[i as int].0)));
        assert(texts(raw_words@) =~= mid_raw.push(tv[i as int].0));
        assert(token_words(tv).take(i as int + 1) =~= token_words(tv).take(i as int).push(
            unquoted(tv[i as int].0),
        ));
        assert(token_raw(tv).take(i as int + 1) =~= token_raw(tv).take(i as int).push(
            tv[i as int].0,
        ));

        if !found && cursor_char >= start_char && cursor_char <= end_char {
            current_word_index = words.len() - 1;
            found = true;
        }
        proof {
            let tw = token_words(tv);
            let tr = token_raw(tv);
            let n = i as int;
            if was_found {
                let k = first_claim(line, tv, cur, 0);
                if cursor_in_gap(line, tv, k, cur) {
                    lemma_take_insert_push(tw, n, k, empty);
                    lemma_take_insert_push(tr, n, k, empty);
                }
            } else if gap {
                assert(cursor_in_gap(line, tv, n, cur));
                assert(first_claim(line, tv, cur, n) == n);
                lemma_take_insert_push(tw, n, n, empty);
                lemma_take_insert_push(tr, n, n, empty);
            } else if found {
                assert(cursor_in_token(line, tv, n, cur));
                assert(!cursor_in_gap(line, tv, n, cur));
                assert(first_claim(line, tv, cur, n) == n);
            } else {
                assert(!cursor_in_gap(line, tv, n, cur));
                assert(!cursor_in_token(line, tv, n, cur));
                assert(first_claim(line, tv, cur, n) == first_claim(line, tv, cur, n + 1));
            }
        }
        last_end = end_char;
        i = i + 1;
    }

    proof {
        assert(token_words(tv).take(tv.len() as int) =~= token_words(tv));
        assert(token_raw(tv).take(tv.len() as int) =~= token_raw(tv));
        lemma_first_claim_bounds(line, tv, cur, 0);
    }
    if !found {
        assert(first_claim(line, tv, cur, 0) == tv.len());
        let ghost before_words = texts(words@);
        let ghost before_raw = texts(raw_words@);
        if any_white_space_from(&chars, last_end) && cursor_char > last_end {
            words.push(String::new());
            raw_words.push(String::new());
            current_word_index = words.len() - 1;
            assert(texts(words@) =~= before_words.push(empty));
            assert(texts(raw_words@) =~= before_raw.push(empty));
        } else if words.len() == 0 {
            words.push(String::new());
            raw_words.push(String::new());
            current_word_index = 0;
            assert(texts(words@) =~= seq![empty]);
            assert(texts(raw_words@) =~= seq![empty]);
        } else {
            current_word_index = words.len() - 1;
        }
    }
    ParsedLine::new(words, raw_words, cursor_pos, current_word_index)
}

/// State of the tolerant splitter in front of a character: the quote that is
/// open, if any, and whether the character before was an unescaped backslash.
#[derive(Debug, Clone, Copy)]
pub struct ScanState {
    pub quote: Option<char>,
    pub escaped: bool,
}

/// The state after reading `c` in state `st`. After a backslash the next
/// character is literal; otherwise a backslash arms the escape, a quote
/// character opens a quote or closes the one it matches.
pub open spec fn scan_step(st: ScanState, c: char) -> ScanState {
    if st.escaped {
        ScanState { quote: st.quote, escaped: false }
    } else if c == '\\' {
        ScanState { quote: st.quote, escaped: true }
    } else {
        match st.quote {
            Some(q) => if c == q {
                ScanState { quote: None, escaped: false }
            } else {
                st
            },
            None => if c == '\'' || c == '"' {
                ScanState { quote: Some(c), escaped: false }
            } else {
                st
            },
        }
    }
}

/// The splitter's state in front of character `i` of `s`.
pub open spec fn scan_state(s: Seq<char>, i: int) -> ScanState
    decreases i,
{
    if i <= 0 {
        ScanState { quote: None, escaped: false }
    } else {
        scan_step(scan_state(s, i - 1), s[i - 1])
    }
}

/// Character `i` of `s` ends a word: it is whitespace, outside quotes and not
/// escaped.
pub open spec fn is_separator(s: Seq<char>, i: int) -> bool {
    &&& 0 <= i < s.len()
    &&& is_white_space(s[i])
    &&& scan_state(s, i).quote is None
    &&& !scan_state(s, i).escaped
}

/// A word starts at character `i` of `s`.
pub open spec fn starts_word(s: Seq<char>, i: int) -> bool {
    &&& 0 <= i < s.len()
    &&& !is_separator(s, i)
    &&& (i == 0 || is_separator(s, i - 1))
}

/// Position of the first separator at or after `i`; the length of `s` when
/// there is none.
pub open spec fn word_end(s: Seq<char>, i: int) -> int
    decreases s.len() - i,
{
    if i >= s.len() || is_separator(s, i) {
        i
    } else {
        word_end(s, i + 1)
    }
}

/// Character ranges (start, end) of the words of `s` that start before
/// position `k`, left to right.
pub open spec fn word_ranges(s: Seq<char>, k: int) -> Seq<(int, int)>
    decreases k,
{
    if k <= 0 {
        Seq::empty()
    } else if starts_word(s, k - 1) {
        word_ranges(s, k - 1).push((k - 1, word_end(s, k - 1)))
    } else {
        word_ranges(s, k - 1)
    }
}

/// The text that each range cuts out of `s`.
pub open spec fn range_texts(s: Seq<char>, r: Seq<(int, int)>) -> Seq<Seq<char>> {
    Seq::new(r.len(), |i: int| s.subrange(r[i].0, r[i].1))
}

/// First range at or after `k` whose end, as a byte offset, is not before the
/// cursor; the number of ranges when there is none.
pub open spec fn first_reaching(s: Seq<char>, r: Seq<(int, int)>, cursor: int, k: int) -> int
    decreases r.len() - k,
{
    if k >= r.len() || byte_offset(s, r[k].1) >= cursor {
        k
    } else {
        first_reaching(s, r, cursor, k + 1)
    }
}

/// Index of the cursor's word in the tolerant split of `s`: the word whose
/// byte range holds the cursor (both ends count), an empty word made for a
/// cursor between two words or past the last one, the first word for a cursor
/// in front of it.
pub open spec fn fallback_index(s: Seq<char>, cursor: int) -> int {
    let r = word_ranges(s, s.len() as int);
    if r.len() == 0 {
        0
    } else if cursor > byte_offset(s, r[r.len() - 1].1) {
        r.len() as int
    } else {
        first_reaching(s, r, cursor, 0)
    }
}

/// The words of the tolerant split of `s`, quotes and backslashes kept, with
/// the empty word that the cursor may call for.
pub open spec fn fallback_words(s: Seq<char>, cursor: int) -> Seq<Seq<char>> {
    let r = word_ranges(s, s.len() as int);
    let w = range_texts(s, r);
    if r.len() == 0 {
        seq![Seq::empty()]
    } else if cursor > byte_offset(s, r[r.len() - 1].1) {
        w.push(Seq::empty())
    } else {
        let k = first_reaching(s, r, cursor, 0);
        if k > 0 && cursor < byte_offset(s, r[k].0) {
            w.insert(k, Seq::empty())
        } else {
            w
        }
    }
}

/// The integer view of a list of ranges.
pub open spec fn range_views(r: Seq<(usize, usize)>) -> Seq<(int, int)> {
    Seq::new(r.len(), |i: int| (r[i].0 as int, r[i].1 as int))
}

proof fn lemma_word_end(s: Seq<char>, a: int, b: int)
    requires
        0 <= a <= b <= s.len(),
        forall|j: int| a <= j < b ==> !is_separator(s, j),
        b == s.len() || is_separator(s, b),
    ensures
        word_end(s, a) == b,
    decreases b - a,
{
    if a < b {
        lemma_word_end(s, a + 1, b);
    }
}

proof fn lemma_no_word_starts(s: Seq<char>, a: int, b: int)
    requires
        0 <= a <= b,
        forall|j: int| a <= j < b ==> !starts_word(s, j),
    ensures
        word_ranges(s, b) == word_ranges(s, a),
    decreases b - a,
{
    if a < b {
        lemma_no_word_starts(s, a, b - 1);
    }
}

/// Every range of the split starts a word and ends at that word's end, lies
/// inside the line and is not empty; the ranges are in order, with at least
/// one character between two of them.
pub proof fn lemma_word_ranges_ordered(s: Seq<char>, k: int)
    requires
        0 <= k <= s.len(),
    ensures
        forall|i: int|
            0 <= i < word_ranges(s, k).len() ==> {
                let w = #[trigger] word_ranges(s, k)[i];
                &&& 0 <= w.0 < w.1 <= s.len()
                &&& w.0 < k
                &&& starts_word(s, w.0)
                &&& w.1 == word_end(s, w.0)
            },
        forall|i: int|
            0 < i < word_ranges(s, k).len() ==> word_ranges(s, k)[i - 1].1 < (#[trigger] word_ranges(
                s,
                k,
            )[i]).0,
    decreases k,
{
    if k > 0 {
        lemma_word_ranges_ordered(s, k - 1);
        let prev = word_ranges(s, k - 1);
        let cur = word_ranges(s, k);
        if starts_word(s, k - 1) {
            let e = word_end(s, k - 1);
            assert(cur == prev.push((k - 1, e)));
            lemma_word_end_bounds(s, k - 1);
            assert forall|i: int| 0 <= i < cur.len() implies {
                let w = #[trigger] cur[i];
                &&& 0 <= w.0 < w.1 <= s.len()
                &&& w.0 < k
                &&& starts_word(s, w.0)
                &&& w.1 == word_end(s, w.0)
            } by {
                if i < prev.len() {
                    assert(cur[i] == prev[i]);
                }
            }
            assert forall|i: int| 0 < i < cur.len() implies cur[i - 1].1 < (#[trigger] cur[i]).0 by {
                if i < prev.len() {
                    assert(cur[i] == prev[i]);
                    assert(cur[i - 1] == prev[i - 1]);
                } else {
                    let last = prev[i - 1];
                    assert(cur[i - 1] == last);
                    assert(last.0 < k - 1);
                    assert(is_separator(s, k - 2));
                    lemma_word_end_is_first(s, last.0, k - 2);
                }
            }
        } else {
            assert(cur == prev);
        }
    }
}

proof fn lemma_word_end_bounds(s: Seq<char>, i: int)
    requires
        0 <= i <= s.len(),
    ensures
        i <= word_end(s, i) <= s.len(),
        word_end(s, i) == s.len() || is_separator(s, word_end(s, i)),
        i < s.len() && !is_separator(s, i) ==> i < word_end(s, i),
    decreases s.len() - i,
{
    if i < s.len() && !is_separator(s, i) {
        lemma_word_end_bounds(s, i + 1);
    }
}

proof fn lemma_word_end_is_first(s: Seq<char>, i: int, j: int)
    requires
        0 <= i <= j < s.len(),
        is_separator(s, j),
    ensures
        word_end(s, i) <= j,
    decreases j - i,
{
    if i < j && !is_separator(s, i) {
        lemma_word_end_is_first(s, i + 1, j);
    }
}

fn scan_next(st: ScanState, c: char) -> (r: ScanState)
    ensures
        r == scan_step(st, c),
{
    if st.escaped {
        ScanState { quote: st.quote, escaped: false }
    } else if c == '\\' {
        ScanState { quote: st.quote, escaped: true }
    } else {
        match st.quote {
            Some(q) => if c == q {
                ScanState { quote: None, escaped: false }
            } else {
                st
            },
            None => if c == '\'' || c == '"' {
                ScanState { quote: Some(c), escaped: false }
            } else {
                st
            },
        }
    }
}

/// The character ranges of the words of `chars`: maximal runs without a
/// separator.
pub fn split_words(chars: &Vec<char>) -> (ranges: Vec<(usize, usize)>)
    ensures
        range_views(ranges@) == word_ranges(chars@, chars.len() as int),
{
    let ghost s = chars@;
    let mut ranges: Vec<(usize, usize)> = Vec::new();
    let mut st = ScanState { quote: None, escaped: false };
    let mut in_word = false;
    let mut start: usize = 0;
    let mut i: usize = 0;
    while i < chars.len()
        invariant
            i <= chars.len(),
            s == chars@,
            st == scan_state(s, i as int),
            in_word ==> {
                &&& start < i
                &&& starts_word(s, start as int)
                &&& forall|j: int| start <= j < i ==> !is_separator(s, j)
                &&& range_views(ranges@) == word_ranges(s, start as int)
            },
            !in_word ==> {
                &&& range_views(ranges@) == word_ranges(s, i as int)
                &&& (i == 0 || is_separator(s, i as int - 1))
            },
        decreases chars.len() - i,
    {
        let c = chars[i];
        let sep = c.is_whitespace() && st.quote.is_none() && !st.escaped;
        assert(sep == is_separator(s, i as int));
        if sep {
            if in_word {
                let ghost before = range_views(ranges@);
                ranges.push((start, i));
                in_word = false;
                proof {
                    lemma_word_end(s, start as int, i as int);
                    assert forall|j: int| start < j < i + 1 implies !starts_word(s, j) by {
                        if j < i {
                            assert(!is_separator(s, j - 1));
                        }
                    }
                    lemma_no_word_starts(s, start as int + 1, i as int + 1);
                    assert(range_views(ranges@) =~= before.push((start as int, i as int)));
                }
            }
        } else if !in_word {
            in_word = true;
            start = i;
        }
        st = scan_next(st, c);
        i = i + 1;
    }
    if in_word {
        let ghost before = range_views(ranges@);
        ranges.push((start, i));
        proof {
            lemma_word_end(s, start as int, i as int);
            assert forall|j: int| start < j < i implies !starts_word(s, j) by {
                assert(!is_separator(s, j - 1));
            }
            lemma_no_word_starts(s, start as int + 1, i as int);
            assert(range_views(ranges@) =~= before.push((start as int, i as int)));
        }
    }
    ranges
}

/// The byte offset of every character position of `chars`, the end included.
fn byte_offsets(chars: &Vec<char>) -> (offs: Vec<usize>)
    requires
        byte_len(chars@) <= usize::MAX,
    ensures
        offs.len() == chars.len() + 1,
        forall|k: int| 0 <= k <= chars.len() ==> offs[k] as int == byte_offset(chars@, k),
{
    let mut offs: Vec<usize> = Vec::new();
    let mut b: usize = 0;
    offs.push(b);
    let mut i: usize = 0;
    while i < chars.len()
        invariant
            i <= chars.len(),
            byte_len(chars@) <= usize::MAX,
            offs.len() == i + 1,
            b as int == byte_offset(chars@, i as int),
            forall|k: int| 0 <= k <= i ==> offs[k] as int == byte_offset(chars@, k),
        decreases chars.len() - i,
    {
        let w = char_width(chars[i]);
        proof {
            lemma_byte_offset_increases(chars@, i as int + 1, chars.len() as int);
        }
        b = b + w;
        offs.push(b);
        i = i + 1;
    }
    offs
}

/// Ranges that lie inside a line of `len` characters.
pub open spec fn ranges_within(r: Seq<(usize, usize)>, len: int) -> bool {
    forall|j: int| 0 <= j < r.len() ==> (#[trigger] r[j]).0 <= r[j].1 <= len
}

/// The text of each range of `chars`.
fn cut_words(chars: &Vec<char>, ranges: &Vec<(usize, usize)>) -> (words: Vec<String>)
    requires
        ranges_within(ranges@, chars.len() as int),
    ensures
        words.len() == ranges.len(),
        texts(words@) == range_texts(chars@, range_views(ranges@)),
{
    let ghost s = chars@;
    let ghost r = range_views(ranges@);
    let mut words: Vec<String> = Vec::new();
    let mut i: usize = 0;
    while i < ranges.len()
        invariant
            i <= ranges.len(),
            chars@ == s,
            r == range_views(ranges@),
            ranges_within(ranges@, chars.len() as int),
            words.len() == i,
            texts(words@) == range_texts(s, r).take(i as int),
        decreases ranges.len() - i,
    {
        let (a, b) = ranges[i];
        assert(ranges@[i as int].0 <= ranges@[i as int].1 <= chars.len());
        let ghost before = texts(words@);
        let word = string_from(chars, a, b);
        words.push(word);
        assert(texts(words@) =~= before.push(s.subrange(a as int, b as int)));
        assert(range_texts(s, r).take(i as int + 1) =~= range_texts(s, r).take(i as int).push(
            s.subrange(a as int, b as int),
        ));
        i = i + 1;
    }
    assert(range_texts(s, r).take(r.len() as int) =~= range_texts(s, r));
    words
}

/// A copy of `words`.
fn copy_words(words: &Vec<String>) -> (copy: Vec<String>)
    ensures
        copy.len() == words.len(),
        texts(copy@) == texts(words@),
{
    let mut copy: Vec<String> = Vec::new();
    let mut i: usize = 0;
    while i < words.len()
        invariant
            i <= words.len(),
            copy.len() == i,
            texts(copy@) == texts(words@).take(i as int),
        decreases words.len() - i,
    {
        let ghost before = texts(copy@);
        copy.push(words[i].clone());
        assert(texts(copy@) =~= before.push(words@[i as int]@));
        assert(texts(words@).take(i as int + 1) =~= texts(words@).take(i as int).push(
            words@[i as int]@,
        ));
        i = i + 1;
    }
    assert(texts(words@).take(words.len() as int) =~= texts(words@));
    copy
}

/// The first range whose byte end is not before the cursor.
fn reaching_range(
    chars: &Vec<char>,
    offs: &Vec<usize>,
    ranges: &Vec<(usize, usize)>,
    cursor_pos: usize,
) -> (k: usize)
    requires
        ranges_within(ranges@, chars.len() as int),
        offs.len() == chars.len() + 1,
        forall|j: int| 0 <= j <= chars.len() ==> offs[j] as int == byte_offset(chars@, j),
        ranges.len() > 0,
        cursor_pos as int <= byte_offset(chars@, ranges[ranges.len() - 1].1 as int),
    ensures
        k < ranges.len(),
        k as int == first_reaching(chars@, range_views(ranges@), cursor_pos as int, 0),
{
    let ghost s = chars@;
    let ghost r = range_views(ranges@);
    let n = ranges.len();
    let mut k: usize = 0;
    loop
        invariant
            k < n,
            n == ranges.len(),
            s == chars@,
            r == range_views(ranges@),
            ranges_within(ranges@, chars.len() as int),
            offs.len() == chars.len() + 1,
            forall|j: int| 0 <= j <= chars.len() ==> offs[j] as int == byte_offset(s, j),
            cursor_pos as int <= byte_offset(s, ranges[n - 1].1 as int),
            first_reaching(s, r, cursor_pos as int, 0) == first_reaching(
                s,
                r,
                cursor_pos as int,
                k as int,
            ),
        decreases n - k,
    {
        let end = ranges[k].1;
        assert(ranges@[k as int].0 <= ranges@[k as int].1 <= chars.len());
        assert(r[k as int].1 == end as int);
        if offs[end] >= cursor_pos {
            return k;
        }
        k = k + 1;
    }
}

/// Splits `input` without the tokenizer and finds the word under the cursor.
///
/// Words are the runs between separators: whitespace that is neither quoted
/// nor escaped. Quote characters and backslashes stay in the words, so
/// `raw_words` equals `words`. The cursor is matched against the byte ranges of
/// the words, both ends included. An empty word is made for a cursor between
/// two words or past the last one; a cursor in front of the first word takes
/// that word. A line without words gives one empty word.
pub fn fallback_parse(input: &str, cursor_pos: usize) -> (p: ParsedLine)
    ensures
        p.wf(),
        p.cursor_position == cursor_pos,
        texts(p.words@) == fallback_words(input@, cursor_pos as int),
        texts(p.raw_words@) == fallback_words(input@, cursor_pos as int),
        p.current_word_index as int == fallback_index(input@, cursor_pos as int),
{
    let chars = to_chars(input);
    let total = str_byte_len(input);
    let ranges = split_words(&chars);
    let offs = byte_offsets(&chars);
    let ghost s = input@;
    let ghost r = word_ranges(s, s.len() as int);
    let ghost empty = Seq::<char>::empty();
    proof {
        lemma_word_ranges_ordered(s, s.len() as int);
        assert forall|j: int| 0 <= j < ranges@.len() implies (#[trigger] ranges@[j]).0
            <= ranges@[j].1 <= s.len() by {
            assert(r[j] == (ranges@[j].0 as int, ranges@[j].1 as int));
        }
    }
    let mut words = cut_words(&chars, &ranges);
    let ghost all = texts(words@);
    let n = ranges.len();
    let mut current_word_index: usize = 0;
    if n == 0 {
        words.push(String::new());
        assert(texts(words@) =~= seq![empty]);
    } else {
        let last_end = ranges[n - 1].1;
        assert(ranges@[n as int - 1].0 <= ranges@[n as int - 1].1 <= chars.len());
        assert(r[n as int - 1].1 == last_end as int);
        if cursor_pos > offs[last_end] {
            words.push(String::new());
            current_word_index = n;
            assert(texts(words@) =~= all.push(empty));
        } else {
            let k = reaching_range(&chars, &offs, &ranges, cursor_pos);
            let first = ranges[k].0;
            assert(ranges@[k as int].0 <= ranges@[k as int].1 <= chars.len());
            assert(r[k as int].0 == first as int);
            if k > 0 && cursor_pos < offs[first] {
                words.insert(k, String::new());
                assert(texts(words@) =~= all.insert(k as int, empty));
            }
            current_word_index = k;
        }
    }
    let raw_words = copy_words(&words);
    ParsedLine::new(words, raw_words, cursor_pos, current_word_index)
}

/// Position `k`, kept inside a line of `len` characters.
pub open spec fn clamped(k: int, len: int) -> int {
    if k < 0 {
        0
    } else if k > len {
        len
    } else {
        k
    }
}

/// The tokens `tv`, whose spans count characters of `line`, with their spans
/// as byte offsets into `line`. A position past the end of the line counts as
/// the end.
pub open spec fn byte_spans(line: Seq<char>, tv: Seq<(Seq<char>, int, int)>) -> Seq<
    (Seq<char>, int, int),
> {
    Seq::new(
        tv.len(),
        |i: int|
            (
                tv[i].0,
                byte_offset(line, clamped(tv[i].1, line.len() as int)),
                byte_offset(line, clamped(tv[i].2, line.len() as int)),
            ),
    )
}

/// The byte offset of a character position maps back to that position.
pub proof fn lemma_char_index_of_offset(s: Seq<char>, k: int)
    requires
        0 <= k <= s.len(),
    ensures
        char_index(s, byte_offset(s, k)) == k,
{
    let b = byte_offset(s, k);
    lemma_char_index_is_boundary(s, b);
    let r = char_index(s, b);
    if r < k {
        lemma_byte_offset_increases(s, r, k);
        lemma_byte_offset_increases(s, r, r + 1);
    } else if r > k {
        assert(byte_offset(s, k) < b);
    }
}

/// Turning the spans of tokens into byte offsets keeps their place: in
/// character space a token starts and ends where the tokenizer said.
pub proof fn lemma_byte_spans_keep_place(line: Seq<char>, tv: Seq<(Seq<char>, int, int)>, i: int)
    requires
        0 <= i < tv.len(),
    ensures
        span_start(line, byte_spans(line, tv), i) == clamped(tv[i].1, line.len() as int),
        span_end(line, byte_spans(line, tv), i) == clamped(tv[i].2, line.len() as int),
        byte_spans(line, tv)[i].0 == tv[i].0,
{
    lemma_char_index_of_offset(line, clamped(tv[i].1, line.len() as int));
    lemma_char_index_of_offset(line, clamped(tv[i].2, line.len() as int));
}

/// Gives tokens whose spans count characters of `input` their spans in
/// bytes.
pub fn to_byte_spans(input: &str, tokens: &Vec<Token>) -> (r: Vec<Token>)
    ensures
        token_views(r@) == byte_spans(input@, token_views(tokens@)),
{
    let chars = to_chars(input);
    let total = str_byte_len(input);
    let offs = byte_offsets(&chars);
    let n = chars.len();
    let ghost all = byte_spans(input@, token_views(tokens@));
    let mut r: Vec<Token> = Vec::new();
    let mut i: usize = 0;
    while i < tokens.len()
        invariant
            i <= tokens.len(),
            chars@ == input@,
            n == chars.len(),
            offs.len() == n + 1,
            forall|k: int| 0 <= k <= n ==> offs[k] as int == byte_offset(input@, k),
            all == byte_spans(input@, token_views(tokens@)),
            token_views(r@) == all.take(i as int),
        decreases tokens.len() - i,
    {
        let token = &tokens[i];
        let start = if token.start > n {
            n
        } else {
            token.start
        };
        let end = if token.end > n {
            n
        } else {
            token.end
        };
        let ghost before = token_views(r@);
        assert(token_views(tokens@)[i as int] == token@);
        let spanned = Token { text: token.text.clone(), start: offs[start], end: offs[end] };
        assert(spanned@ == all[i as int]);
        r.push(spanned);
        assert(token_views(r@) =~= before.push(all[i as int]));
        assert(all.take(i as int + 1) =~= all.take(i as int).push(all[i as int]));
        i = i + 1;
    }
    assert(all.take(tokens.len() as int) =~= all);
    r
}

/// The words that `parse_shell_line` reports for `line` with the cursor at
/// byte `cursor`, given what the tokenizer made of the line.
pub open spec fn parsed_words(
    line: Seq<char>,
    cursor: int,
    tokens: Option<Seq<(Seq<char>, int, int)>>,
) -> Seq<Seq<char>> {
    if is_blank(line) {
        seq![Seq::empty()]
    } else {
        match tokens {
            Some(tv) => placed(
                token_words(byte_spans(line, tv)),
                line,
                byte_spans(line, tv),
                char_index(line, cursor),
            ),
            None => fallback_words(line, cursor),
        }
    }
}

/// The raw words that `parse_shell_line` reports.
pub open spec fn parsed_raw_words(
    line: Seq<char>,
    cursor: int,
    tokens: Option<Seq<(Seq<char>, int, int)>>,
) -> Seq<Seq<char>> {
    if is_blank(line) {
        seq![Seq::empty()]
    } else {
        match tokens {
            Some(tv) => placed(
                token_raw(byte_spans(line, tv)),
                line,
                byte_spans(line, tv),
                char_index(line, cursor),
            ),
            None => fallback_words(line, cursor),
        }
    }
}

/// The index of the cursor's word that `parse_shell_line` reports.
pub open spec fn parsed_index(
    line: Seq<char>,
    cursor: int,
    tokens: Option<Seq<(Seq<char>, int, int)>>,
) -> int {
    if is_blank(line) {
        0
    } else {
        match tokens {
            Some(tv) => placed_index(line, byte_spans(line, tv), char_index(line, cursor)),
            None => fallback_index(line, cursor),
        }
    }
}

/// Splits `input` into words and finds the word under the cursor, which is
/// given as a byte offset.
///
/// A blank line gives one empty word. Otherwise the line goes to the shell
/// tokenizer; the spans of its tokens are turned into byte offsets and
/// `parse_tokens` builds the result from them. A line that the tokenizer
/// rejects goes to `fallback_parse`. Every line gets a result. On a plain
/// line the tokens are the runs between its blanks, so the result follows
/// from the line alone.
pub fn parse_shell_line(input: &str, cursor_pos: usize) -> (r: Result<ParsedLine, ParseError>)
    ensures
        r matches Ok(p) && {
            &&& p.wf()
            &&& p.cursor_position == cursor_pos
            &&& texts(p.words@) == parsed_words(input@, cursor_pos as int, shell_tokens(input@))
            &&& texts(p.raw_words@) == parsed_raw_words(
                input@,
                cursor_pos as int,
                shell_tokens(input@),
            )
            &&& p.current_word_index as int == parsed_index(
                input@,
                cursor_pos as int,
                shell_tokens(input@),
            )
            &&& is_plain_line(input@) ==> {
                &&& texts(p.words@) == parsed_words(
                    input@,
                    cursor_pos as int,
                    Some(plain_tokens(input@)),
                )
                &&& texts(p.raw_words@) == parsed_raw_words(
                    input@,
                    cursor_pos as int,
                    Some(plain_tokens(input@)),
                )
                &&& p.current_word_index as int == parsed_index(
                    input@,
                    cursor_pos as int,
                    Some(plain_tokens(input@)),
                )
            }
        },
{
    let chars = to_chars(input);
    if all_white_space(&chars) {
        let mut words: Vec<String> = Vec::new();
        let mut raw_words: Vec<String> = Vec::new();
        words.push(String::new());
        raw_words.push(String::new());
        assert(texts(words@) =~= seq![Seq::<char>::empty()]);
        assert(texts(raw_words@) =~= seq![Seq::<char>::empty()]);
        return Ok(ParsedLine::new(words, raw_words, cursor_pos, 0));
    }
    match tokenize(input) {
        Some(counted) => {
            let tokens = to_byte_spans(input, &counted);
            Ok(parse_tokens(input, &tokens, cursor_pos))
        },
        None => Ok(fallback_parse(input, cursor_pos)),
    }
}

/// The word that stands for the pipe operator.
pub open spec fn pipe_word() -> Seq<char> {
    seq!['|']
}

/// Index of the last word of `ws` that is exactly `|`.
pub open spec fn last_pipe(ws: Seq<Seq<char>>) -> Option<int>
    decreases ws.len(),
{
    if ws.len() == 0 {
        None
    } else if ws.last() == pipe_word() {
        Some(ws.len() - 1)
    } else {
        last_pipe(ws.drop_last())
    }
}

/// What `last_pipe` returns, said without recursion.
pub proof fn lemma_last_pipe(ws: Seq<Seq<char>>)
    ensures
        match last_pipe(ws) {
            Some(p) => 0 <= p < ws.len() && ws[p] == pipe_word() && forall|j: int|
                p < j < ws.len() ==> #[trigger] ws[j] != pipe_word(),
            None => forall|j: int| 0 <= j < ws.len() ==> #[trigger] ws[j] != pipe_word(),
        },
    decreases ws.len(),
{
    if ws.len() > 0 && ws.last() != pipe_word() {
        lemma_last_pipe(ws.drop_last());
        assert forall|j: int| 0 <= j < ws.len() - 1 implies ws.drop_last()[j] == ws[j] by {}
        match last_pipe(ws.drop_last()) {
            Some(p) => {
                assert forall|j: int| p < j < ws.len() implies #[trigger] ws[j] != pipe_word() by {
                    if j < ws.len() - 1 {
                        assert(ws.drop_last()[j] == ws[j]);
                    }
                }
            },
            None => {
                assert forall|j: int| 0 <= j < ws.len() implies #[trigger] ws[j] != pipe_word() by {
                    if j < ws.len() - 1 {
                        assert(ws.drop_last()[j] == ws[j]);
                    }
                }
            },
        }
    }
}

/// Whether `word` is exactly `|`.
pub fn is_pipe(word: &str) -> (b: bool)
    ensures
        b == (word@ == pipe_word()),
{
    if word.unicode_len() != 1 {
        return false;
    }
    let c = word.get_char(0);
    assert(c == '|' ==> word@ =~= pipe_word());
    c == '|'
}

/// Finds the last `|` among `words`.
pub fn find_last_pipe_index(words: &[String]) -> (r: Option<usize>)
    ensures
        match r {
            Some(p) => last_pipe(texts(words@)) == Some(p as int),
            None => last_pipe(texts(words@)) is None,
        },
{
    let ghost ws = texts(words@);
    let mut i: usize = words.len();
    assert(ws.take(i as int) =~= ws);
    while i > 0
        invariant
            i <= words.len(),
            ws == texts(words@),
            last_pipe(ws) == last_pipe(ws.take(i as int)),
        decreases i,
    {
        assert(ws.take(i as int).last() == words@[i as int - 1]@);
        if is_pipe(words[i - 1].as_str()) {
            return Some(i - 1);
        }
        assert(ws.take(i as int).drop_last() =~= ws.take(i as int - 1));
        i = i - 1;
    }
    None
}

/// The command after the last `|` and the words that follow it, when there is
/// a pipe with a word behind it.
pub fn get_command_after_pipe(words: &[String]) -> (r: Option<(String, Vec<String>)>)
    ensures
        match r {
            Some((command, args)) => {
                &&& last_pipe(texts(words@)) matches Some(p)
                &&& p + 1 < words@.len()
                &&& command@ == words@[p + 1]@
                &&& texts(args@) == texts(words@).skip(p + 2)
            },
            None => match last_pipe(texts(words@)) {
                Some(p) => p + 1 >= words@.len(),
                None => true,
            },
        },
{
    proof {
        lemma_last_pipe(texts(words@));
    }
    let pipe_idx = match find_last_pipe_index(words) {
        Some(p) => p,
        None => {
            return None;
        },
    };
    let n = words.len();
    assert(pipe_idx < texts(words@).len() == n);
    let cmd_idx = pipe_idx + 1;
    if cmd_idx >= n {
        return None;
    }
    let command = words[cmd_idx].clone();
    let args = words_from(words, cmd_idx + 1);
    Some((command, args))
}

/// A copy of `words[from..]`; empty when `from` is past the end.
pub fn words_from(words: &[String], from: usize) -> (tail: Vec<String>)
    ensures
        texts(tail@) == if from <= words@.len() {
            texts(words@).skip(from as int)
        } else {
            Seq::empty()
        },
{
    let mut tail: Vec<String> = Vec::new();
    if from > words.len() {
        assert(texts(tail@) =~= Seq::empty());
        return tail;
    }
    let mut i: usize = from;
    while i < words.len()
        invariant
            from <= i <= words.len(),
            texts(tail@) == texts(words@).subrange(from as int, i as int),
        decreases words.len() - i,
    {
        let ghost before = texts(tail@);
        tail.push(words[i].clone());
        assert(texts(tail@) =~= before.push(words@[i as int]@));
        assert(texts(words@).subrange(from as int, i as int + 1) =~= texts(words@).subrange(
            from as int,
            i as int,
        ).push(words@[i as int]@));
        i = i + 1;
    }
    assert(texts(words@).subrange(from as int, words@.len() as int) =~= texts(words@).skip(
        from as int,
    ));
    tail
}

/// Every token's span runs forward and starts no earlier than the token
/// before it ends.
pub open spec fn spans_ordered(line: Seq<char>, tv: Seq<(Seq<char>, int, int)>) -> bool {
    forall|i: int|
        0 <= i < tv.len() ==> span_start(line, tv, i) <= #[trigger] span_end(line, tv, i)
            && end_before(line, tv, i) <= span_start(line, tv, i)
}

proof fn lemma_ends_monotone(line: Seq<char>, tv: Seq<(Seq<char>, int, int)>, k: int, i: int)
    requires
        spans_ordered(line, tv),
        0 <= k < i <= tv.len(),
    ensures
        span_end(line, tv, k) <= end_before(line, tv, i),
    decreases i - k,
{
    if k < i - 1 {
        lemma_ends_monotone(line, tv, k, i - 1);
        assert(span_start(line, tv, i - 1) <= span_end(line, tv, i - 1));
    }
}

/// Token `i` claims the cursor, by the gap in front of it or by its span.
pub open spec fn claims(line: Seq<char>, tv: Seq<(Seq<char>, int, int)>, i: int, cursor: int) -> bool {
    cursor_in_gap(line, tv, i, cursor) || cursor_in_token(line, tv, i, cursor)
}

proof fn lemma_first_claim(line: Seq<char>, tv: Seq<(Seq<char>, int, int)>, cursor: int, k: int)
    requires
        0 <= k <= tv.len(),
    ensures
        k <= first_claim(line, tv, cursor, k) <= tv.len(),
        first_claim(line, tv, cursor, k) < tv.len() ==> cursor_in_gap(
            line,
            tv,
            first_claim(line, tv, cursor, k),
            cursor,
        ) || cursor_in_token(line, tv, first_claim(line, tv, cursor, k), cursor),
        forall|j: int|
            k <= j < first_claim(line, tv, cursor, k) ==> !claims(line, tv, j, cursor),
    decreases tv.len() - k,
{
    if k < tv.len() && !claims(line, tv, k, cursor) {
        lemma_first_claim(line, tv, cursor, k + 1);
        assert forall|j: int| k <= j < first_claim(line, tv, cursor, k) implies !claims(
            line,
            tv,
            j,
            cursor,
        ) by {
            if j > k {
                assert(k + 1 <= j < first_claim(line, tv, cursor, k + 1));
            }
        }
    }
}

/// A cursor that touches a token, at either end of its span or inside it, is
/// given to a token whose span holds it, and no empty word is made: the words
/// are the tokens' items. It is the first such token; where the cursor lies
/// behind the end of the token before, it is the token itself.
pub proof fn lemma_cursor_on_token_attaches(
    items: Seq<Seq<char>>,
    line: Seq<char>,
    tv: Seq<(Seq<char>, int, int)>,
    cursor: int,
    i: int,
)
    requires
        spans_ordered(line, tv),
        0 <= i < tv.len(),
        cursor_in_token(line, tv, i, cursor),
    ensures
        placed(items, line, tv, cursor) == items,
        0 <= placed_index(line, tv, cursor) <= i,
        cursor_in_token(line, tv, placed_index(line, tv, cursor), cursor),
        end_before(line, tv, i) < cursor || i == 0 ==> placed_index(line, tv, cursor) == i,
{
    lemma_first_claim(line, tv, cursor, 0);
    let r = first_claim(line, tv, cursor, 0);
    if r > i {
        assert(!claims(line, tv, i, cursor));
    }
    if r < i {
        lemma_ends_monotone(line, tv, r, i);
        assert(span_start(line, tv, r) <= span_end(line, tv, r));
        assert(span_start(line, tv, i) <= span_end(line, tv, i));
    }
}

/// A cursor strictly between the end of one token and the start of the next,
/// as in a run of two or more blanks, gets an empty word of its own at that
/// place.
pub proof fn lemma_cursor_in_gap_gets_empty_word(
    items: Seq<Seq<char>>,
    line: Seq<char>,
    tv: Seq<(Seq<char>, int, int)>,
    cursor: int,
    i: int,
)
    requires
        spans_ordered(line, tv),
        0 <= i < tv.len(),
        items.len() == tv.len(),
        end_before(line, tv, i) < cursor < span_start(line, tv, i),
    ensures
        placed_index(line, tv, cursor) == i,
        placed(items, line, tv, cursor) == items.insert(i, Seq::empty()),
        placed(items, line, tv, cursor)[i] == Seq::<char>::empty(),
{
    lemma_first_claim(line, tv, cursor, 0);
    let r = first_claim(line, tv, cursor, 0);
    assert(cursor_in_gap(line, tv, i, cursor));
    if r > i {
        assert(!claims(line, tv, i, cursor));
    }
    if r < i {
        lemma_ends_monotone(line, tv, r, i);
        assert(span_start(line, tv, r) <= span_end(line, tv, r));
    }
}

/// `s` holds no quote character and no backslash.
pub open spec fn has_no_quoting(s: Seq<char>) -> bool {
    forall|i: int| 0 <= i < s.len() ==> #[trigger] s[i] != '\'' && s[i] != '"' && s[i] != '\\'
}

/// Unquoting leaves text without quoting as it is.
pub proof fn lemma_unquoted_plain(s: Seq<char>)
    requires
        has_no_quoting(s),
    ensures
        unquoted(s) == s,
    decreases s.len(),
{
    if s.len() > 0 {
        assert(s[0] != '\'' && s[0] != '"' && s[0] != '\\');
        assert forall|i: int| 0 <= i < s.drop_first().len() implies #[trigger] s.drop_first()[i]
            != '\'' && s.drop_first()[i] != '"' && s.drop_first()[i] != '\\' by {
            assert(s.drop_first()[i] == s[i + 1]);
        }
        lemma_unquoted_plain(s.drop_first());
        assert(seq![s[0]] + s.drop_first() =~= s);
    } else {
        assert(unquoted(s) =~= s);
    }
}

/// Tokens without quoting give words that equal their text as typed.
pub proof fn lemma_plain_tokens_keep_text(tv: Seq<(Seq<char>, int, int)>)
    requires
        forall|i: int| 0 <= i < tv.len() ==> has_no_quoting(#[trigger] tv[i].0),
    ensures
        token_words(tv) == token_raw(tv),
{
    assert forall|i: int| 0 <= i < tv.len() implies token_words(tv)[i] == token_raw(tv)[i] by {
        lemma_unquoted_plain(tv[i].0);
    }
    assert(token_words(tv) =~= token_raw(tv));
}

/// Position `j` of `s` lies in range `i` of `r`.
pub open spec fn in_range(r: Seq<(int, int)>, i: int, j: int) -> bool {
    0 <= i < r.len() && r[i].0 <= j < r[i].1
}

/// `r` lists the whitespace-separated words of `s`: runs of characters that
/// are no whitespace, each bounded by whitespace or by an end of the line, in
/// order, and no such character is left out.
pub open spec fn splits_on_white_space(s: Seq<char>, r: Seq<(int, int)>) -> bool {
    &&& forall|i: int|
        0 <= i < r.len() ==> {
            let w = #[trigger] r[i];
            &&& 0 <= w.0 < w.1 <= s.len()
            &&& (w.0 == 0 || is_white_space(s[w.0 - 1]))
            &&& (w.1 == s.len() || is_white_space(s[w.1]))
        }
    &&& forall|i: int, j: int| #[trigger] in_range(r, i, j) ==> !is_white_space(s[j])
    &&& forall|i: int| 0 < i < r.len() ==> r[i - 1].1 < (#[trigger] r[i]).0
    &&& forall|j: int|
        0 <= j < s.len() && !is_white_space(#[trigger] s[j]) ==> exists|i: int| in_range(r, i, j)
}

proof fn lemma_plain_state(s: Seq<char>, i: int)
    requires
        has_no_quoting(s),
        0 <= i <= s.len(),
    ensures
        scan_state(s, i).quote is None,
        !scan_state(s, i).escaped,
    decreases i,
{
    if i > 0 {
        lemma_plain_state(s, i - 1);
        assert(s[i - 1] != '\'' && s[i - 1] != '"' && s[i - 1] != '\\');
    }
}

proof fn lemma_word_end_run(s: Seq<char>, a: int, j: int)
    requires
        0 <= a <= j < word_end(s, a),
        a <= s.len(),
    ensures
        !is_separator(s, j),
        j < s.len(),
    decreases j - a,
{
    lemma_word_end_bounds(s, a);
    if a < j {
        lemma_word_end_run(s, a + 1, j);
    }
}

/// Start of the run without separators that holds position `j`.
spec fn run_start(s: Seq<char>, j: int) -> int
    decreases j,
{
    if j <= 0 || is_separator(s, j - 1) {
        j
    } else {
        run_start(s, j - 1)
    }
}

proof fn lemma_run_start(s: Seq<char>, j: int)
    requires
        0 <= j < s.len(),
        !is_separator(s, j),
    ensures
        0 <= run_start(s, j) <= j,
        starts_word(s, run_start(s, j)),
        j < word_end(s, run_start(s, j)),
    decreases j,
{
    if j > 0 && !is_separator(s, j - 1) {
        lemma_run_start(s, j - 1);
        let a = run_start(s, j);
        lemma_word_end_bounds(s, a);
        if word_end(s, a) <= j {
            // the run would stop at a separator at or before j
            lemma_word_end_bounds(s, a);
            assert(word_end(s, a) == j);
        }
    } else {
        lemma_word_end_bounds(s, j);
    }
}

proof fn lemma_word_listed(s: Seq<char>, w: int, k: int)
    requires
        starts_word(s, w),
        w < k,
    ensures
        exists|i: int|
            0 <= i < word_ranges(s, k).len() && #[trigger] word_ranges(s, k)[i] == (
                w,
                word_end(s, w),
            ),
    decreases k,
{
    if w == k - 1 {
        let r = word_ranges(s, k);
        assert(r[r.len() - 1] == (w, word_end(s, w)));
    } else {
        lemma_word_listed(s, w, k - 1);
        let i = choose|i: int|
            0 <= i < word_ranges(s, k - 1).len() && #[trigger] word_ranges(s, k - 1)[i] == (
                w,
                word_end(s, w),
            );
        assert(word_ranges(s, k)[i] == (w, word_end(s, w)));
    }
}

/// On a line without quoting the tolerant splitter cuts at whitespace and
/// nowhere else: its words are the whitespace-separated words of the line.
pub proof fn lemma_plain_line_splits_on_white_space(s: Seq<char>)
    requires
        has_no_quoting(s),
    ensures
        splits_on_white_space(s, word_ranges(s, s.len() as int)),
{
    let n = s.len() as int;
    let r = word_ranges(s, n);
    lemma_word_ranges_ordered(s, n);
    assert forall|j: int| 0 <= j < n implies is_separator(s, j) == is_white_space(s[j]) by {
        lemma_plain_state(s, j);
    }
    assert forall|i: int| 0 <= i < r.len() implies {
        let w = #[trigger] r[i];
        &&& 0 <= w.0 < w.1 <= s.len()
        &&& (w.0 == 0 || is_white_space(s[w.0 - 1]))
        &&& (w.1 == s.len() || is_white_space(s[w.1]))
    } by {
        let w = r[i];
        lemma_word_end_bounds(s, w.0);
    }
    assert forall|i: int, j: int| #[trigger] in_range(r, i, j) implies !is_white_space(s[j]) by {
        let w = r[i];
        lemma_word_end_run(s, w.0, j);
    }
    assert forall|j: int| 0 <= j < s.len() && !is_white_space(#[trigger] s[j]) implies exists|
        i: int,
    |
        in_range(r, i, j) by {
        lemma_run_start(s, j);
        let w = run_start(s, j);
        lemma_word_listed(s, w, n);
        let i = choose|i: int| 0 <= i < r.len() && #[trigger] r[i] == (w, word_end(s, w));
        assert(in_range(r, i, j));
    }
}

/// `c` is a letter or a digit of ASCII, `-`, `.` or `/`.
pub open spec fn is_plain_char(c: char) -> bool {
    ||| 'a' <= c <= 'z'
    ||| 'A' <= c <= 'Z'
    ||| '0' <= c <= '9'
    ||| c == '-'
    ||| c == '.'
    ||| c == '/'
}

/// `s` holds nothing but plain characters and blanks.
pub open spec fn is_plain_line(s: Seq<char>) -> bool {
    forall|i: int| 0 <= i < s.len() ==> is_plain_char(#[trigger] s[i]) || s[i] == ' '
}

/// The runs between the blanks of a plain line as tokens: the text of each
/// run with the positions, counted in characters, of its first character and
/// behind its last.
pub open spec fn plain_tokens(s: Seq<char>) -> Seq<(Seq<char>, int, int)> {
    let r = word_ranges(s, s.len() as int);
    Seq::new(r.len(), |i: int| (s.subrange(r[i].0, r[i].1), r[i].0, r[i].1))
}

/// The words of a line without the empty word that the cursor may call for:
/// its runs between separators.
pub open spec fn plain_words(s: Seq<char>) -> Seq<Seq<char>> {
    range_texts(s, word_ranges(s, s.len() as int))
}

proof fn lemma_plain_line(s: Seq<char>)
    requires
        is_plain_line(s),
    ensures
        has_no_quoting(s),
        forall|i: int| 0 <= i < s.len() ==> (is_white_space(#[trigger] s[i]) <==> s[i] == ' '),
        forall|i: int| 0 <= i < s.len() ==> utf8_width(#[trigger] s[i]) == 1,
{
    assert forall|i: int| 0 <= i < s.len() implies #[trigger] s[i] != '\'' && s[i] != '"' && s[i]
        != '\\' by {
        assert(is_plain_char(s[i]) || s[i] == ' ');
    }
    assert forall|i: int| 0 <= i < s.len() implies (is_white_space(#[trigger] s[i]) <==> s[i]
        == ' ') by {
        assert(is_plain_char(s[i]) || s[i] == ' ');
    }
    assert forall|i: int| 0 <= i < s.len() implies utf8_width(#[trigger] s[i]) == 1 by {
        assert(is_plain_char(s[i]) || s[i] == ' ');
    }
}

proof fn lemma_plain_offsets(s: Seq<char>, k: int)
    requires
        is_plain_line(s),
        0 <= k <= s.len(),
    ensures
        byte_offset(s, k) == k,
    decreases k,
{
    if k > 0 {
        lemma_plain_offsets(s, k - 1);
        lemma_plain_line(s);
    }
}

/// On a plain line bytes and characters count alike: a byte offset is the
/// character offset, and an offset past the end is the end.
pub proof fn lemma_plain_char_index(s: Seq<char>, b: int)
    requires
        is_plain_line(s),
    ensures
        char_index(s, b) == clamped(b, s.len() as int),
{
    let r = char_index(s, b);
    lemma_char_index_is_boundary(s, b);
    lemma_plain_offsets(s, s.len() as int);
    if b >= s.len() {
        lemma_char_index_at_end(s, b);
    } else if b <= 0 {
        if r > 0 {
            assert(byte_offset(s, 0) < b);
        }
    } else {
        if r < s.len() {
            lemma_plain_offsets(s, r);
        }
        if r > 0 {
            lemma_plain_offsets(s, r - 1);
            assert(byte_offset(s, r - 1) < b);
        }
    }
}

proof fn lemma_plain_span(s: Seq<char>, i: int)
    requires
        is_plain_line(s),
        0 <= i < word_ranges(s, s.len() as int).len(),
    ensures
        span_start(s, plain_tokens(s), i) == word_ranges(s, s.len() as int)[i].0,
        span_end(s, plain_tokens(s), i) == word_ranges(s, s.len() as int)[i].1,
        0 <= word_ranges(s, s.len() as int)[i].0 < word_ranges(s, s.len() as int)[i].1 <= s.len(),
{
    let w = word_ranges(s, s.len() as int)[i];
    lemma_word_ranges_ordered(s, s.len() as int);
    lemma_plain_char_index(s, w.0);
    lemma_plain_char_index(s, w.1);
    assert(plain_tokens(s)[i] == (s.subrange(w.0, w.1), w.0, w.1));
}

proof fn lemma_plain_tokens(s: Seq<char>)
    requires
        is_plain_line(s),
    ensures
        byte_spans(s, plain_tokens(s)) == plain_tokens(s),
        token_raw(plain_tokens(s)) == plain_words(s),
        token_words(plain_tokens(s)) == plain_words(s),
        spans_ordered(s, plain_tokens(s)),
        forall|i: int|
            0 <= i < plain_tokens(s).len() ==> #[trigger] span_start(s, plain_tokens(s), i)
                == word_ranges(s, s.len() as int)[i].0 && span_end(s, plain_tokens(s), i)
                == word_ranges(s, s.len() as int)[i].1,
{
    let n = s.len() as int;
    let r = word_ranges(s, n);
    let pt = plain_tokens(s);
    lemma_plain_line(s);
    lemma_word_ranges_ordered(s, n);
    assert forall|i: int| 0 <= i < pt.len() implies byte_spans(s, pt)[i] == pt[i] by {
        let w = r[i];
        lemma_plain_offsets(s, w.0);
        lemma_plain_offsets(s, w.1);
    }
    assert(byte_spans(s, pt) =~= pt);
    assert(token_raw(pt) =~= plain_words(s));
    assert forall|i: int| 0 <= i < pt.len() implies has_no_quoting(#[trigger] pt[i].0) by {
        let w = r[i];
        assert forall|j: int| 0 <= j < pt[i].0.len() implies #[trigger] pt[i].0[j] != '\''
            && pt[i].0[j] != '"' && pt[i].0[j] != '\\' by {
            assert(pt[i].0[j] == s[w.0 + j]);
        }
    }
    lemma_plain_tokens_keep_text(pt);
    assert forall|i: int| 0 <= i < pt.len() implies #[trigger] span_start(s, pt, i) == r[i].0
        && span_end(s, pt, i) == r[i].1 by {
        lemma_plain_span(s, i);
    }
    assert forall|i: int| 0 <= i < pt.len() implies span_start(s, pt, i) <= #[trigger] span_end(
        s,
        pt,
        i,
    ) && end_before(s, pt, i) <= span_start(s, pt, i) by {
        lemma_plain_span(s, i);
        if i > 0 {
            lemma_plain_span(s, i - 1);
            assert(r[i - 1].1 < r[i].0);
        }
    }
}

/// On a plain line the words are the runs between its blanks, as they stand
/// in the line. At most one empty word is added to them, and only for the
/// cursor: the words are those runs, or those runs with one empty word put in
/// at the cursor's index. The raw words are the same as the words.
pub proof fn lemma_plain_line_words(s: Seq<char>, cursor: int)
    requires
        is_plain_line(s),
    ensures
        splits_on_white_space(s, word_ranges(s, s.len() as int)),
        parsed_raw_words(s, cursor, Some(plain_tokens(s))) == parsed_words(
            s,
            cursor,
            Some(plain_tokens(s)),
        ),
        0 <= parsed_index(s, cursor, Some(plain_tokens(s))) < parsed_words(
            s,
            cursor,
            Some(plain_tokens(s)),
        ).len(),
        parsed_words(s, cursor, Some(plain_tokens(s))) == plain_words(s) || parsed_words(
            s,
            cursor,
            Some(plain_tokens(s)),
        ) == plain_words(s).insert(
            parsed_index(s, cursor, Some(plain_tokens(s))),
            Seq::<char>::empty(),
        ),
        parsed_index(s, cursor, Some(plain_tokens(s))) <= plain_words(s).len(),
{
    let n = s.len() as int;
    let r = word_ranges(s, n);
    let pt = plain_tokens(s);
    let base = plain_words(s);
    let empty = Seq::<char>::empty();
    lemma_plain_line(s);
    lemma_plain_line_splits_on_white_space(s);
    lemma_plain_tokens(s);
    let c = char_index(s, cursor);
    if is_blank(s) {
        assert forall|j: int| 0 <= j < n implies !starts_word(s, j) by {
            lemma_plain_state(s, j);
        }
        lemma_no_word_starts(s, 0, n);
        assert(base =~= Seq::<Seq<char>>::empty());
        assert(seq![empty] =~= base.insert(0, empty));
    } else {
        lemma_first_claim(s, pt, c, 0);
        let k = first_claim(s, pt, c, 0);
        assert(base.len() == pt.len());
        if k < pt.len() {
        } else if appends_trailing(s, pt, c) {
            assert(base.push(empty) =~= base.insert(base.len() as int, empty));
        } else if pt.len() == 0 {
            assert(seq![empty] =~= base.insert(0, empty));
        }
    }
}

/// On a plain line a cursor that touches a word, at either end or inside,
/// adds no empty word: the words are the runs between the blanks, and the
/// cursor's word is one that the cursor touches.
pub proof fn lemma_plain_line_cursor_on_word(s: Seq<char>, cursor: int, i: int)
    requires
        is_plain_line(s),
        0 <= i < word_ranges(s, s.len() as int).len(),
        word_ranges(s, s.len() as int)[i].0 <= cursor <= word_ranges(s, s.len() as int)[i].1,
    ensures
        parsed_words(s, cursor, Some(plain_tokens(s))) == plain_words(s),
        parsed_raw_words(s, cursor, Some(plain_tokens(s))) == plain_words(s),
        ({
            let k = parsed_index(s, cursor, Some(plain_tokens(s)));
            &&& 0 <= k <= i
            &&& word_ranges(s, s.len() as int)[k].0 <= cursor <= word_ranges(
                s,
                s.len() as int,
            )[k].1
        }),
{
    let n = s.len() as int;
    let r = word_ranges(s, n);
    let pt = plain_tokens(s);
    lemma_plain_line(s);
    lemma_plain_tokens(s);
    lemma_word_ranges_ordered(s, n);
    lemma_plain_char_index(s, cursor);
    let c = char_index(s, cursor);
    lemma_plain_span(s, i);
    assert(c == cursor);
    assert(cursor_in_token(s, pt, i, c));
    assert(!is_blank(s)) by {
        assert(!is_white_space(s[r[i].0])) by {
            lemma_plain_line_splits_on_white_space(s);
            assert(in_range(r, i, r[i].0));
        }
    }
    lemma_cursor_on_token_attaches(plain_words(s), s, pt, c, i);
    lemma_plain_span(s, placed_index(s, pt, c));
}

/// On a plain line a cursor strictly between two words, as in a run of two or
/// more blanks, gets an empty word of its own between them.
pub proof fn lemma_plain_line_cursor_in_gap(s: Seq<char>, cursor: int, i: int)
    requires
        is_plain_line(s),
        0 < i < word_ranges(s, s.len() as int).len(),
        word_ranges(s, s.len() as int)[i - 1].1 < cursor < word_ranges(s, s.len() as int)[i].0,
    ensures
        parsed_index(s, cursor, Some(plain_tokens(s))) == i,
        parsed_words(s, cursor, Some(plain_tokens(s))) == plain_words(s).insert(
            i,
            Seq::<char>::empty(),
        ),
        parsed_raw_words(s, cursor, Some(plain_tokens(s))) == plain_words(s).insert(
            i,
            Seq::<char>::empty(),
        ),
{
    let n = s.len() as int;
    let r = word_ranges(s, n);
    let pt = plain_tokens(s);
    lemma_plain_line(s);
    lemma_plain_tokens(s);
    lemma_word_ranges_ordered(s, n);
    lemma_plain_char_index(s, cursor);
    let c = char_index(s, cursor);
    lemma_plain_span(s, i);
    lemma_plain_span(s, i - 1);
    assert(c == cursor);
    assert(!is_blank(s)) by {
        assert(!is_white_space(s[r[i].0])) by {
            lemma_plain_line_splits_on_white_space(s);
            assert(in_range(r, i, r[i].0));
        }
    }
    lemma_cursor_in_gap_gets_empty_word(plain_words(s), s, pt, c, i);
}

/// A plain line of two words: `la` characters without a blank, then `k`
/// blanks, then characters without a blank up to the end.
pub open spec fn is_two_words(s: Seq<char>, la: int, k: int) -> bool {
    &&& is_plain_line(s)
    &&& 0 < la
    &&& 0 < k
    &&& la + k < s.len()
    &&& forall|j: int| 0 <= j < la ==> #[trigger] s[j] != ' '
    &&& forall|j: int| la <= j < la + k ==> #[trigger] s[j] == ' '
    &&& forall|j: int| la + k <= j < s.len() ==> #[trigger] s[j] != ' '
}

/// The words of a plain line of two words are what stands in front of the
/// blanks and what stands behind them.
pub proof fn lemma_two_words(s: Seq<char>, la: int, k: int)
    requires
        is_two_words(s, la, k),
    ensures
        word_ranges(s, s.len() as int) == seq![(0int, la), (la + k, s.len() as int)],
        plain_words(s) == seq![s.take(la), s.skip(la + k)],
{
    let n = s.len() as int;
    lemma_plain_line(s);
    assert forall|j: int| 0 <= j < n implies is_separator(s, j) == (s[j] == ' ') by {
        lemma_plain_state(s, j);
    }
    // the first word
    assert(starts_word(s, 0));
    lemma_word_end(s, 0, la);
    assert(word_ranges(s, 0) =~= Seq::<(int, int)>::empty());
    assert(word_ranges(s, 1) =~= seq![(0int, la)]);
    // nothing starts up to and including the blanks
    assert forall|j: int| 1 <= j < la + k implies !starts_word(s, j) by {
        if j < la {
            assert(!is_separator(s, j - 1));
        }
    }
    lemma_no_word_starts(s, 1, la + k);
    // the second word
    assert(starts_word(s, la + k));
    lemma_word_end(s, la + k, n);
    assert(word_ranges(s, la + k + 1) =~= seq![(0int, la), (la + k, n)]);
    assert forall|j: int| la + k + 1 <= j < n implies !starts_word(s, j) by {
        assert(!is_separator(s, j - 1));
    }
    lemma_no_word_starts(s, la + k + 1, n);
    let r = word_ranges(s, n);
    assert(range_texts(s, r) =~= seq![s.take(la), s.skip(la + k)]) by {
        assert(s.subrange(0, la) =~= s.take(la));
        assert(s.subrange(la + k, n) =~= s.skip(la + k));
    }
}

/// On a plain line of two words with two or more blanks between them, a
/// cursor inside the blanks, touching neither word, gets an empty word
/// between the two: the words are the first word, the empty word and the
/// second word, and the cursor's word is the empty one.
pub proof fn lemma_gap_between_two_words(s: Seq<char>, la: int, k: int, cursor: int)
    requires
        is_two_words(s, la, k),
        la < cursor < la + k,
    ensures
        parsed_words(s, cursor, Some(plain_tokens(s))) == seq![
            s.take(la),
            Seq::<char>::empty(),
            s.skip(la + k),
        ],
        parsed_raw_words(s, cursor, Some(plain_tokens(s))) == seq![
            s.take(la),
            Seq::<char>::empty(),
            s.skip(la + k),
        ],
        parsed_index(s, cursor, Some(plain_tokens(s))) == 1,
{
    lemma_two_words(s, la, k);
    let r = word_ranges(s, s.len() as int);
    assert(r[0] == (0int, la) && r[1] == (la + k, s.len() as int));
    lemma_plain_line_cursor_in_gap(s, cursor, 1);
    assert(plain_words(s).insert(1, Seq::<char>::empty()) =~= seq![
        s.take(la),
        Seq::<char>::empty(),
        s.skip(la + k),
    ]);
}

} // verus!
