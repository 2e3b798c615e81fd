//! Putting the chosen candidate back into the line.
use vstd::prelude::*;
use vstd::string::StringExecFns;
use crate::quoting::ends_with_slash;
use crate::text::{
    byte_len, byte_offset, char_index, char_index_in, concat, lemma_byte_offset_prefix,
    str_byte_len, string_from, to_chars, utf8_width,
};

verus! {

/// Character offset at which the replaced text starts: as many characters in
/// front of the cursor as the current word has, or the start of the line when
/// there are fewer.
pub open spec fn replacement_start(line: Seq<char>, point: int, word: Seq<char>) -> int {
    let cursor = char_index(line, point);
    if cursor >= word.len() {
        cursor - word.len()
    } else {
        0
    }
}

/// A space follows the inserted value, unless the caller opted out or the
/// value ends in `/`.
pub open spec fn wants_space(completion: Seq<char>, nospace: bool) -> bool {
    !nospace && !ends_with_slash(completion)
}

/// The line up to the end of the inserted value, the space included if one is
/// wanted.
pub open spec fn spliced_head(
    line: Seq<char>,
    point: int,
    completion: Seq<char>,
    nospace: bool,
    word: Seq<char>,
) -> Seq<char> {
    let head = line.take(replacement_start(line, point, word)) + completion;
    if wants_space(completion, nospace) {
        head.push(' ')
    } else {
        head
    }
}

/// The line with the current word replaced by the chosen value.
pub open spec fn spliced_line(
    line: Seq<char>,
    point: int,
    completion: Seq<char>,
    nospace: bool,
    word: Seq<char>,
) -> Seq<char> {
    spliced_head(line, point, completion, nospace, word) + line.skip(char_index(line, point))
}

/// Appending a character adds its width to the byte length.
pub proof fn lemma_byte_len_push(s: Seq<char>, c: char)
    ensures
        byte_len(s.push(c)) == byte_len(s) + utf8_width(c),
{
    let t = s.push(c);
    assert(t.take(s.len() as int) =~= s.take(s.len() as int));
    lemma_byte_offset_prefix(t, s, s.len() as int);
    assert(t[t.len() - 1] == c);
}

/// Replaces the current word, which ends at the cursor, by `completion`.
///
/// `point` is the cursor's byte offset in `line`. The new line consists of
/// the text in front of the current word, the completion, a space unless
/// `nospace` is set or the completion ends in `/`, and the text behind the
/// cursor. The new cursor, again a byte offset, stands behind the completion
/// and its space.
pub fn insert_completion(
    line: &str,
    point: usize,
    completion: &str,
    nospace: bool,
    current_word: &str,
) -> (r: (String, usize))
    ensures
        r.0@ == spliced_line(line@, point as int, completion@, nospace, current_word@),
        r.1 as int == byte_len(
            spliced_head(line@, point as int, completion@, nospace, current_word@),
        ),
        r.1 as int == byte_len(
            line@.take(replacement_start(line@, point as int, current_word@)) + completion@,
        ) + if wants_space(completion@, nospace) {
            1int
        } else {
            0int
        },
{
    let chars = to_chars(line);
    let cursor = char_index_in(&chars, point);
    let word_len = current_word.unicode_len();
    let start = if cursor >= word_len {
        cursor - word_len
    } else {
        0
    };
    let before = string_from(&chars, 0, start);
    let after = string_from(&chars, cursor, chars.len());
    assert(chars@.subrange(0, start as int) =~= line@.take(start as int));
    assert(chars@.subrange(cursor as int, chars.len() as int) =~= line@.skip(cursor as int));
    let mut head = concat(before.as_str(), completion);
    let n = completion.unicode_len();
    let ends_in_slash = n > 0 && completion.get_char(n - 1) == '/';
    if !nospace && !ends_in_slash {
        proof {
            lemma_byte_len_push(head@, ' ');
        }
        head.push(' ');
    }
    let new_point = str_byte_len(head.as_str());
    let new_line = concat(head.as_str(), after.as_str());
    (new_line, new_point)
}

} // verus!
