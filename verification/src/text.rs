//! Character-level helpers shared by the tokenizer, the post-processor and the
//! line editor: UTF-8 widths, byte/character offset conversion, whitespace and
//! small string builders.
use vstd::prelude::*;
use vstd::string::StringExecFns;

verus! {

/// Whether `c` is whitespace: a character with the Unicode property
/// `White_Space`. These are the tab, the line feed, the vertical tab, the
/// form feed, the carriage return, the blank, the next-line character, the
/// no-break blank, the Ogham space mark, the blanks of fixed width from the
/// en quad to the hair space, the line and the paragraph separator, the
/// narrow no-break blank, the medium mathematical blank and the ideographic
/// blank.
pub open spec fn is_white_space(c: char) -> bool {
    let u = c as u32;
    ||| 0x09 <= u <= 0x0D
    ||| u == 0x20
    ||| u == 0x85
    ||| u == 0xA0
    ||| u == 0x1680
    ||| 0x2000 <= u <= 0x200A
    ||| u == 0x2028
    ||| u == 0x2029
    ||| u == 0x202F
    ||| u == 0x205F
    ||| u == 0x3000
}

/// `char::is_whitespace` of std says whether a character has the Unicode
/// property `White_Space`.
pub assume_specification[ char::is_whitespace ](c: char) -> (b: bool)
    ensures
        b == is_white_space(c),
;

/// `String::push` of std appends one character at the end.
pub assume_specification[ String::push ](s: &mut String, c: char)
    ensures
        final(s)@ == old(s)@.push(c),
;

/// Number of bytes that the UTF-8 encoding of `c` occupies.
pub open spec fn utf8_width(c: char) -> int {
    if (c as u32) < 0x80 {
        1
    } else if (c as u32) < 0x800 {
        2
    } else if (c as u32) < 0x10000 {
        3
    } else {
        4
    }
}

/// Byte offset at which character number `k` of `s` starts: the summed widths
/// of the `k` characters before it.
pub open spec fn byte_offset(s: Seq<char>, k: int) -> int
    decreases k,
{
    if k <= 0 {
        0
    } else {
        byte_offset(s, k - 1) + utf8_width(s[k - 1])
    }
}

/// Length of `s` in bytes once encoded as UTF-8.
pub open spec fn byte_len(s: Seq<char>) -> int {
    byte_offset(s, s.len() as int)
}

/// First character position at or after `k` that starts at byte `b` or later,
/// or the length of `s` when there is none.
pub open spec fn char_index_from(s: Seq<char>, b: int, k: int) -> int
    decreases s.len() - k,
{
    if k >= s.len() || byte_offset(s, k) >= b {
        k
    } else {
        char_index_from(s, b, k + 1)
    }
}

/// Character offset that corresponds to byte offset `b` in `s`: the number of
/// characters that start before byte `b`.
pub open spec fn char_index(s: Seq<char>, b: int) -> int {
    char_index_from(s, b, 0)
}

/// Every character of `s` is whitespace (an empty `s` is blank).
pub open spec fn is_blank(s: Seq<char>) -> bool {
    forall|i: int| 0 <= i < s.len() ==> is_white_space(#[trigger] s[i])
}

/// Some character of `s` at position `from` or later is whitespace.
pub open spec fn has_white_space_from(s: Seq<char>, from: int) -> bool {
    exists|i: int| from <= i < s.len() && 0 <= i && is_white_space(#[trigger] s[i])
}

/// A character takes between one and four bytes.
pub proof fn lemma_utf8_width_bounds(c: char)
    ensures
        1 <= utf8_width(c) <= 4,
{
}

/// Byte offsets grow strictly with the character position.
pub proof fn lemma_byte_offset_increases(s: Seq<char>, i: int, j: int)
    requires
        0 <= i <= j,
    ensures
        byte_offset(s, i) + (j - i) <= byte_offset(s, j),
    decreases j - i,
{
    if i < j {
        lemma_byte_offset_increases(s, i, j - 1);
    }
}

/// The byte offset of a position depends only on the characters before it.
pub proof fn lemma_byte_offset_prefix(s: Seq<char>, t: Seq<char>, k: int)
    requires
        0 <= k <= s.len(),
        k <= t.len(),
        s.take(k) == t.take(k),
    ensures
        byte_offset(s, k) == byte_offset(t, k),
    decreases k,
{
    if k > 0 {
        assert(s.take(k - 1) == s.take(k).take(k - 1));
        assert(t.take(k - 1) == t.take(k).take(k - 1));
        lemma_byte_offset_prefix(s, t, k - 1);
        assert(s[k - 1] == s.take(k)[k - 1]);
        assert(t[k - 1] == t.take(k)[k - 1]);
    }
}

/// What `char_index` returns, said without recursion: positions below it
/// start before byte `b`, and the position itself (if any) does not.
pub proof fn lemma_char_index_is_boundary(s: Seq<char>, b: int)
    ensures
        0 <= char_index(s, b) <= s.len(),
        forall|j: int| 0 <= j < char_index(s, b) ==> byte_offset(s, j) < b,
        char_index(s, b) < s.len() ==> byte_offset(s, char_index(s, b)) >= b,
{
    lemma_char_index_from(s, b, 0);
}

proof fn lemma_char_index_from(s: Seq<char>, b: int, k: int)
    requires
        0 <= k <= s.len(),
    ensures
        k <= char_index_from(s, b, k) <= s.len(),
        forall|j: int| k <= j < char_index_from(s, b, k) ==> byte_offset(s, j) < b,
        char_index_from(s, b, k) < s.len() ==> byte_offset(s, char_index_from(s, b, k)) >= b,
    decreases s.len() - k,
{
    if k < s.len() && byte_offset(s, k) < b {
        lemma_char_index_from(s, b, k + 1);
    }
}

/// A byte offset at or past the end maps to the number of characters.
pub proof fn lemma_char_index_at_end(s: Seq<char>, b: int)
    requires
        b >= byte_len(s),
    ensures
        char_index(s, b) == s.len(),
{
    lemma_char_index_is_boundary(s, b);
    let k = char_index(s, b);
    if k < s.len() {
        lemma_byte_offset_increases(s, k, s.len() as int);
        lemma_byte_offset_increases(s, k, k + 1);
        lemma_utf8_width_bounds(s[k]);
    }
}

proof fn lemma_byte_offset_drop_first(s: Seq<char>, k: int)
    requires
        1 <= k <= s.len(),
    ensures
        byte_offset(s, k) == utf8_width(s[0]) + byte_offset(s.drop_first(), k - 1),
    decreases k,
{
    if k > 1 {
        lemma_byte_offset_drop_first(s, k - 1);
        assert(s.drop_first()[k - 2] == s[k - 1]);
    } else {
        assert(byte_offset(s, 0) == 0);
        assert(byte_offset(s.drop_first(), 0) == 0);
    }
}

/// `byte_len` is the length of the UTF-8 encoding.
pub proof fn lemma_byte_len_is_encoded_len(s: Seq<char>)
    ensures
        vstd::utf8::encode_utf8(s).len() == byte_len(s),
    decreases s.len(),
{
    if s.len() > 0 {
        lemma_byte_len_is_encoded_len(s.drop_first());
        lemma_byte_offset_drop_first(s, s.len() as int);
        vstd::utf8::char_is_scalar(s[0]);
    }
}

/// The views of a list of strings, in order.
pub open spec fn texts(v: Seq<String>) -> Seq<Seq<char>> {
    Seq::new(v.len(), |i: int| v[i]@)
}

/// Length of `s` in bytes.
pub fn str_byte_len(s: &str) -> (n: usize)
    ensures
        n as int == byte_len(s@),
{
    proof {
        lemma_byte_len_is_encoded_len(s@);
    }
    s.as_bytes().len()
}

/// Whether two strings hold the same characters.
pub fn str_eq(a: &str, b: &str) -> (r: bool)
    ensures
        r == (a@ == b@),
{
    let x = to_chars(a);
    let y = to_chars(b);
    chars_eq(&x, &y)
}

/// Whether two character lists are equal.
pub fn chars_eq(x: &Vec<char>, y: &Vec<char>) -> (r: bool)
    ensures
        r == (x@ == y@),
{
    if x.len() != y.len() {
        return false;
    }
    let mut i: usize = 0;
    while i < x.len()
        invariant
            i <= x.len(),
            x.len() == y.len(),
            x@.take(i as int) == y@.take(i as int),
        decreases x.len() - i,
    {
        if x[i] != y[i] {
            return false;
        }
        assert(x@.take(i as int + 1) =~= x@.take(i as int).push(x@[i as int]));
        assert(y@.take(i as int + 1) =~= y@.take(i as int).push(y@[i as int]));
        i = i + 1;
    }
    assert(x@.take(x.len() as int) =~= x@);
    assert(y@.take(y.len() as int) =~= y@);
    true
}

/// Width in bytes of the UTF-8 encoding of `c`.
pub fn char_width(c: char) -> (w: usize)
    ensures
        w as int == utf8_width(c),
{
    let u: u32 = c as u32;
    if u < 0x80 {
        1
    } else if u < 0x800 {
        2
    } else if u < 0x10000 {
        3
    } else {
        4
    }
}

/// The characters of `s`, in order.
pub fn to_chars(s: &str) -> (v: Vec<char>)
    ensures
        v@ == s@,
{
    let mut v: Vec<char> = Vec::new();
    for c in it: s.chars()
        invariant
            it.seq() == s@,
            v@ == s@.take(it.index() as int),
    {
        v.push(c);
    }
    assert(s@.take(s@.len() as int) == s@);
    v
}

/// The string made of `chars[from..to]`.
pub fn string_from(chars: &Vec<char>, from: usize, to: usize) -> (s: String)
    requires
        from <= to <= chars.len(),
    ensures
        s@ == chars@.subrange(from as int, to as int),
{
    let mut s = String::new();
    let mut i: usize = from;
    while i < to
        invariant
            from <= i <= to <= chars.len(),
            s@ == chars@.subrange(from as int, i as int),
        decreases to - i,
    {
        s.push(chars[i]);
        i = i + 1;
        assert(chars@.subrange(from as int, i as int) == chars@.subrange(
            from as int,
            i as int - 1,
        ).push(chars@[i as int - 1]));
    }
    s
}

/// Character offset for a byte offset into `chars`: how many characters start
/// before byte `byte_idx`.
pub fn char_index_in(chars: &Vec<char>, byte_idx: usize) -> (k: usize)
    ensures
        k as int == char_index(chars@, byte_idx as int),
        k <= chars.len(),
{
    let mut k: usize = 0;
    let mut left: usize = byte_idx;
    while k < chars.len() && left > 0
        invariant
            k <= chars.len(),
            char_index(chars@, byte_idx as int) == char_index_from(chars@, byte_idx as int, k as int),
            left as int == if byte_offset(chars@, k as int) >= byte_idx {
                0
            } else {
                byte_idx - byte_offset(chars@, k as int)
            },
        decreases chars.len() - k,
    {
        let w = char_width(chars[k]);
        left = if w >= left {
            0
        } else {
            left - w
        };
        k = k + 1;
    }
    k
}

/// Whether every character of `chars` is whitespace.
pub fn all_white_space(chars: &Vec<char>) -> (b: bool)
    ensures
        b == is_blank(chars@),
{
    let mut i: usize = 0;
    while i < chars.len()
        invariant
            i <= chars.len(),
            forall|j: int| 0 <= j < i ==> is_white_space(#[trigger] chars@[j]),
        decreases chars.len() - i,
    {
        if !chars[i].is_whitespace() {
            return false;
        }
        i = i + 1;
    }
    true
}

/// Whether some character of `chars` at position `from` or later is
/// whitespace.
pub fn any_white_space_from(chars: &Vec<char>, from: usize) -> (b: bool)
    ensures
        b == has_white_space_from(chars@, from as int),
{
    let mut i: usize = from;
    while i < chars.len()
        invariant
            from <= i,
            forall|j: int| from <= j < i && j < chars.len() ==> !is_white_space(#[trigger] chars@[j]),
        decreases chars.len() - i,
    {
        if chars[i].is_whitespace() {
            return true;
        }
        i = i + 1;
    }
    false
}

/// `s` in lower case, as `str::to_lowercase` gives it.
pub uninterp spec fn lowercase(s: Seq<char>) -> Seq<char>;

/// Calls `str::to_lowercase` of std. The result depends on the text alone and
/// is named `lowercase`.
#[verifier::external_body]
pub(crate) fn to_lowercase(s: &str) -> (r: String)
    ensures
        r@ == lowercase(s@),
{
    s.to_lowercase()
}

/// `s` starts with `prefix`, letter case aside.
pub open spec fn starts_with_ignoring_case(s: Seq<char>, prefix: Seq<char>) -> bool {
    lowercase(prefix).is_prefix_of(lowercase(s))
}

/// Whether `x` starts with `prefix`.
pub fn chars_start_with(x: &Vec<char>, prefix: &Vec<char>) -> (b: bool)
    ensures
        b == prefix@.is_prefix_of(x@),
{
    if prefix.len() > x.len() {
        return false;
    }
    let mut i: usize = 0;
    while i < prefix.len()
        invariant
            i <= prefix.len() <= x.len(),
            x@.take(i as int) == prefix@.take(i as int),
        decreases prefix.len() - i,
    {
        if x[i] != prefix[i] {
            assert(x@.subrange(0, prefix.len() as int)[i as int] != prefix@[i as int]);
            return false;
        }
        assert(x@.take(i as int + 1) =~= x@.take(i as int).push(x@[i as int]));
        assert(prefix@.take(i as int + 1) =~= prefix@.take(i as int).push(prefix@[i as int]));
        i = i + 1;
    }
    assert(prefix@.take(prefix.len() as int) =~= prefix@);
    assert(x@.take(prefix.len() as int) =~= x@.subrange(0, prefix.len() as int));
    true
}

/// Whether `s` starts with `prefix`.
pub fn starts_with(s: &str, prefix: &str) -> (b: bool)
    ensures
        b == prefix@.is_prefix_of(s@),
{
    let x = to_chars(s);
    let y = to_chars(prefix);
    chars_start_with(&x, &y)
}

/// Whether `s` starts with `prefix` once both are in lower case.
pub fn starts_with_lowercase(s: &str, prefix: &str) -> (b: bool)
    ensures
        b == starts_with_ignoring_case(s@, prefix@),
{
    let x = to_lowercase(s);
    let y = to_lowercase(prefix);
    starts_with(x.as_str(), y.as_str())
}

/// First position at or after `k` that holds no whitespace; the length of `s`
/// when there is none.
pub open spec fn skip_white(s: Seq<char>, k: int) -> int
    decreases s.len() - k,
{
    if k >= s.len() || k < 0 || !is_white_space(s[k]) {
        k
    } else {
        skip_white(s, k + 1)
    }
}

/// End of the last run without trailing whitespace in `s[..k]`.
pub open spec fn skip_white_back(s: Seq<char>, k: int) -> int
    decreases k,
{
    if k <= 0 || k > s.len() || !is_white_space(s[k - 1]) {
        k
    } else {
        skip_white_back(s, k - 1)
    }
}

/// `s` without the whitespace at its two ends.
pub open spec fn trimmed(s: Seq<char>) -> Seq<char> {
    let a = skip_white(s, 0);
    let b = skip_white_back(s, s.len() as int);
    if a >= b {
        Seq::empty()
    } else {
        s.subrange(a, b)
    }
}

/// `s` without the whitespace at its two ends.
pub fn trim(s: &str) -> (r: String)
    ensures
        r@ == trimmed(s@),
{
    let chars = to_chars(s);
    let mut a: usize = 0;
    while a < chars.len() && chars[a].is_whitespace()
        invariant
            a <= chars.len(),
            skip_white(chars@, 0) == skip_white(chars@, a as int),
        decreases chars.len() - a,
    {
        a = a + 1;
    }
    let mut b: usize = chars.len();
    while b > 0 && chars[b - 1].is_whitespace()
        invariant
            b <= chars.len(),
            skip_white_back(chars@, chars.len() as int) == skip_white_back(chars@, b as int),
        decreases b,
    {
        b = b - 1;
    }
    if a >= b {
        String::new()
    } else {
        string_from(&chars, a, b)
    }
}

/// `a` followed by `b`.
pub fn concat(a: &str, b: &str) -> (r: String)
    ensures
        r@ == a@ + b@,
{
    let mut r = a.to_owned();
    r.append(b);
    r
}

/// `a` comes before `b` in the order of strings: at the first position where
/// they differ `a` has the smaller character, or `a` ends there and `b` goes
/// on. Positions before `k` are taken to agree.
pub open spec fn lex_lt_from(a: Seq<char>, b: Seq<char>, k: int) -> bool
    decreases a.len() - k,
{
    if k < 0 || k >= b.len() {
        false
    } else if k >= a.len() {
        true
    } else if a[k] != b[k] {
        a[k] < b[k]
    } else {
        lex_lt_from(a, b, k + 1)
    }
}

/// `a` comes before `b` in the order of strings.
pub open spec fn lex_lt(a: Seq<char>, b: Seq<char>) -> bool {
    lex_lt_from(a, b, 0)
}

proof fn lemma_lex_from(a: Seq<char>, b: Seq<char>, k: int)
    requires
        0 <= k <= a.len(),
        k <= b.len(),
        a.take(k) == b.take(k),
    ensures
        lex_lt_from(a, b, k) || lex_lt_from(b, a, k) || a == b,
        !(lex_lt_from(a, b, k) && lex_lt_from(b, a, k)),
        a == b ==> !lex_lt_from(a, b, k),
    decreases a.len() - k,
{
    if k < a.len() && k < b.len() {
        if a[k] == b[k] {
            assert(a.take(k + 1) =~= a.take(k).push(a[k]));
            assert(b.take(k + 1) =~= b.take(k).push(b[k]));
            lemma_lex_from(a, b, k + 1);
        }
    } else if k == a.len() && k == b.len() {
        assert(a =~= a.take(k));
        assert(b =~= b.take(k));
    }
}

/// Of two strings one comes first, or they are the same; never both.
pub proof fn lemma_lex_trichotomy(a: Seq<char>, b: Seq<char>)
    ensures
        lex_lt(a, b) || lex_lt(b, a) || a == b,
        !(lex_lt(a, b) && lex_lt(b, a)),
        a == b ==> !lex_lt(a, b),
{
    assert(a.take(0) =~= b.take(0));
    lemma_lex_from(a, b, 0);
}

proof fn lemma_lex_transitive_from(a: Seq<char>, b: Seq<char>, c: Seq<char>, k: int)
    requires
        0 <= k,
        lex_lt_from(a, b, k),
        lex_lt_from(b, c, k),
    ensures
        lex_lt_from(a, c, k),
    decreases a.len() - k,
{
    if k < a.len() && k < b.len() && k < c.len() && a[k] == b[k] && b[k] == c[k] {
        lemma_lex_transitive_from(a, b, c, k + 1);
    }
}

/// The order of strings is transitive.
pub proof fn lemma_lex_transitive(a: Seq<char>, b: Seq<char>, c: Seq<char>)
    requires
        lex_lt(a, b),
        lex_lt(b, c),
    ensures
        lex_lt(a, c),
{
    lemma_lex_transitive_from(a, b, c, 0);
}

/// Whether `x` comes before `y` in the order of strings.
pub fn chars_precede(x: &Vec<char>, y: &Vec<char>) -> (b: bool)
    ensures
        b == lex_lt(x@, y@),
{
    let mut k: usize = 0;
    loop
        invariant
            k <= x.len(),
            k <= y.len(),
            lex_lt(x@, y@) == lex_lt_from(x@, y@, k as int),
        decreases x.len() - k,
    {
        if k >= y.len() {
            return false;
        }
        if k >= x.len() {
            return true;
        }
        if x[k] != y[k] {
            return x[k] < y[k];
        }
        k = k + 1;
    }
}

/// First position at or after `k` that holds whitespace; the length of `s`
/// when there is none.
pub open spec fn skip_non_white(s: Seq<char>, k: int) -> int
    decreases s.len() - k,
{
    if k >= s.len() || k < 0 || is_white_space(s[k]) {
        k
    } else {
        skip_non_white(s, k + 1)
    }
}

/// Position at which the whitespace-separated word number `n` of `s` starts,
/// counting from 0; the length of `s` when there are fewer words.
pub open spec fn word_start(s: Seq<char>, n: nat) -> int
    decreases n,
{
    if n == 0 {
        skip_white(s, 0)
    } else {
        skip_white(s, skip_non_white(s, word_start(s, (n - 1) as nat)))
    }
}

/// The whitespace-separated word number `n` of `s`, counting from 0.
pub open spec fn nth_word(s: Seq<char>, n: nat) -> Option<Seq<char>> {
    let a = word_start(s, n);
    if 0 <= a < s.len() {
        Some(s.subrange(a, skip_non_white(s, a)))
    } else {
        None
    }
}

proof fn lemma_skip_bounds(s: Seq<char>, k: int)
    requires
        0 <= k <= s.len(),
    ensures
        k <= skip_white(s, k) <= s.len(),
        k <= skip_non_white(s, k) <= s.len(),
    decreases s.len() - k,
{
    if k < s.len() {
        lemma_skip_bounds(s, k + 1);
    }
}

/// The whitespace-separated word number `n` of `s`, counting from 0.
pub fn nth_word_of(s: &str, n: usize) -> (r: Option<String>)
    ensures
        crate::completion::opt_text(r) == nth_word(s@, n as nat),
{
    let chars = to_chars(s);
    let mut a: usize = 0;
    let mut seen: usize = 0;
    proof {
        lemma_skip_bounds(chars@, 0);
    }
    while a < chars.len() && chars[a].is_whitespace()
        invariant
            a <= chars.len(),
            skip_white(chars@, 0) == skip_white(chars@, a as int),
        decreases chars.len() - a,
    {
        a = a + 1;
    }
    while seen < n
        invariant
            seen <= n,
            a <= chars.len(),
            a as int == word_start(chars@, seen as nat),
        decreases n - seen,
    {
        let mut b: usize = a;
        while b < chars.len() && !chars[b].is_whitespace()
            invariant
                a <= b <= chars.len(),
                skip_non_white(chars@, a as int) == skip_non_white(chars@, b as int),
            decreases chars.len() - b,
        {
            b = b + 1;
        }
        let mut c: usize = b;
        while c < chars.len() && chars[c].is_whitespace()
            invariant
                b <= c <= chars.len(),
                skip_white(chars@, b as int) == skip_white(chars@, c as int),
            decreases chars.len() - c,
        {
            c = c + 1;
        }
        a = c;
        seen = seen + 1;
    }
    if a >= chars.len() {
        return None;
    }
    let mut b: usize = a;
    while b < chars.len() && !chars[b].is_whitespace()
        invariant
            a <= b <= chars.len(),
            skip_non_white(chars@, a as int) == skip_non_white(chars@, b as int),
        decreases chars.len() - b,
    {
        b = b + 1;
    }
    Some(string_from(&chars, a, b))
}

/// `s` with every `c` replaced by the text `by`.
pub open spec fn replaced(s: Seq<char>, c: char, by: Seq<char>) -> Seq<char>
    decreases s.len(),
{
    if s.len() == 0 {
        Seq::empty()
    } else if s.last() == c {
        replaced(s.drop_last(), c, by) + by
    } else {
        replaced(s.drop_last(), c, by).push(s.last())
    }
}

/// Replaces every `c` in `s` by the text `by`.
pub fn replace_char(s: &str, c: char, by: &str) -> (r: String)
    ensures
        r@ == replaced(s@, c, by@),
{
    let chars = to_chars(s);
    let mut r = String::new();
    let mut i: usize = 0;
    while i < chars.len()
        invariant
            i <= chars.len(),
            chars@ == s@,
            r@ == replaced(s@.take(i as int), c, by@),
        decreases chars.len() - i,
    {
        assert(s@.take(i as int + 1).drop_last() =~= s@.take(i as int));
        if chars[i] == c {
            r.append(by);
        } else {
            r.push(chars[i]);
        }
        i = i + 1;
    }
    assert(s@.take(chars.len() as int) =~= s@);
    r
}

/// The digit character for `d`.
pub open spec fn digit_char(d: int) -> char {
    (d + 48) as char
}

/// `n` written in decimal digits.
pub open spec fn decimal(n: nat) -> Seq<char>
    decreases n,
{
    if n < 10 {
        seq![digit_char(n as int)]
    } else {
        decimal(n / 10).push(digit_char((n % 10) as int))
    }
}

/// `n` written in decimal digits.
pub fn to_decimal(n: usize) -> (r: String)
    ensures
        r@ == decimal(n as nat),
{
    let mut digits: Vec<char> = Vec::new();
    let mut m: usize = n;
    while m >= 10
        invariant
            decimal(n as nat) == decimal(m as nat) + digits@.reverse(),
        decreases m,
    {
        let d: u8 = (m % 10) as u8;
        let ghost before = digits@;
        digits.push((d + 48) as char);
        proof {
            assert(digits@.reverse() =~= seq![digit_char((m % 10) as int)] + before.reverse());
            assert(decimal(m as nat) == decimal((m / 10) as nat).push(
                digit_char((m % 10) as int),
            ));
            assert(decimal((m / 10) as nat).push(digit_char((m % 10) as int)) + before.reverse()
                =~= decimal((m / 10) as nat) + digits@.reverse());
        }
        m = m / 10;
    }
    let mut r = String::new();
    let first: u8 = m as u8;
    r.push((first + 48) as char);
    let mut i: usize = digits.len();
    while i > 0
        invariant
            i <= digits.len(),
            r@ == decimal(m as nat) + digits@.reverse().take(digits.len() - i),
        decreases i,
    {
        let ghost before = r@;
        r.push(digits[i - 1]);
        assert(digits@.reverse().take(digits.len() - i + 1) =~= digits@.reverse().take(
            digits.len() - i,
        ).push(digits@[i as int - 1]));
        i = i - 1;
    }
    assert(digits@.reverse().take(digits.len() as int) =~= digits@.reverse());
    r
}

} // verus!
