//! Cutting a text into words and into lines, and stripping what trails a
//! word.

use vstd::prelude::*;
use crate::text::{byte_offset, lemma_byte_offset_step, lemma_byte_range, slice_between, utf8_width};
use crate::unicode::{alphanumeric, is_alphanumeric, is_white_space, white_space};

verus! {

/// The views of a sequence of string slices.
pub open spec fn str_views(parts: Seq<&str>) -> Seq<Seq<char>> {
    Seq::new(parts.len(), |i: int| parts[i]@)
}

/// The number of characters before the first white space of `text`.
pub open spec fn word_len(text: Seq<char>) -> nat
    decreases text.len(),
{
    if text.len() == 0 || white_space(text[0]) {
        0
    } else {
        1 + word_len(text.drop_first())
    }
}

/// The words of `text`: its longest runs of characters that are not white
/// space, in order. (The test on the length of the first word is always
/// met; it shows that the definition ends.)
pub open spec fn words_of(text: Seq<char>) -> Seq<Seq<char>>
    decreases text.len(),
{
    if text.len() == 0 {
        Seq::empty()
    } else if white_space(text[0]) {
        words_of(text.drop_first())
    } else {
        let n = word_len(text) as int;
        if 0 < n <= text.len() {
            seq![text.take(n)] + words_of(text.skip(n))
        } else {
            Seq::empty()
        }
    }
}

/// A run of characters without white space, followed by white space or by
/// the end of the text, is the first word.
proof fn lemma_word_len(text: Seq<char>, n: int)
    requires
        0 <= n <= text.len(),
        forall|k: int| 0 <= k < n ==> !white_space(#[trigger] text[k]),
        n == text.len() || white_space(text[n]),
    ensures
        word_len(text) == n,
    decreases n,
{
    if n > 0 {
        lemma_word_len(text.drop_first(), n - 1);
    }
}

/// Splits `text` at white space into its words.
pub fn split_words<'a>(text: &'a str) -> (words: Vec<&'a str>)
    ensures
        str_views(words@) == words_of(text@),
{
    let total = text.as_bytes().len();
    let mut words: Vec<&'a str> = Vec::new();
    let mut pos: usize = 0;
    let mut start: usize = 0;
    let ghost mut begun: int = 0;
    proof {
        lemma_byte_range(text@, 0, 0);
        assert(text@.skip(0) == text@);
        assert(str_views(words@) + words_of(text@.skip(begun)) == words_of(text@));
    }
    for c in it: text.chars()
        invariant
            it.seq() == text@,
            total == vstd::utf8::encode_utf8(text@).len(),
            0 <= begun <= it.index() <= text@.len(),
            pos == byte_offset(text@, it.index() as int),
            start == byte_offset(text@, begun),
            forall|k: int| begun <= k < it.index() ==> !white_space(#[trigger] text@[k]),
            str_views(words@) + words_of(text@.skip(begun)) == words_of(text@),
    {
        let ghost index = it.index() as int;
        proof {
            lemma_byte_offset_step(text@, index);
        }
        let width = utf8_width(c);
        if is_white_space(c) {
            if start < pos {
                proof {
                    lemma_byte_range(text@, begun, index);
                }
                let word = slice_between(text, start, pos, Ghost(begun), Ghost(index));
                let ghost before = str_views(words@);
                words.push(word);
                proof {
                    let rest = text@.skip(begun);
                    lemma_word_len(rest, index - begun);
                    assert(rest.take(index - begun) == text@.subrange(begun, index));
                    assert(rest.skip(index - begun) == text@.skip(index));
                    assert(str_views(words@) == before.push(word@));
                    assert(before.push(word@) + words_of(text@.skip(index)) == before + words_of(
                        rest,
                    ));
                }
            } else {
                proof {
                    lemma_strictly_between(text@, begun, index);
                }
            }
            proof {
                assert(text@.skip(index).drop_first() == text@.skip(index + 1));
                begun = index + 1;
            }
            pos = pos + width;
            start = pos;
        } else {
            pos = pos + width;
        }
    }
    proof {
        lemma_byte_range(text@, begun, text@.len() as int);
    }
    if start < pos {
        let word = slice_between(text, start, pos, Ghost(begun), Ghost(text@.len() as int));
        let ghost before = str_views(words@);
        words.push(word);
        proof {
            let rest = text@.skip(begun);
            let n = rest.len() as int;
            lemma_word_len(rest, n);
            assert(rest.take(n) == text@.subrange(begun, text@.len() as int));
            assert(rest.skip(n).len() == 0);
            assert(str_views(words@) == before.push(word@));
            assert(words_of(rest) == seq![rest.take(n)] + words_of(rest.skip(n)));
            assert(before.push(word@) == before + words_of(rest));
        }
    } else {
        proof {
            lemma_strictly_between(text@, begun, text@.len() as int);
            assert(text@.skip(begun).len() == 0);
            assert(str_views(words@) + words_of(text@.skip(begun)) == str_views(words@));
        }
    }
    words
}

/// Two positions with the same byte offset are the same position.
pub proof fn lemma_strictly_between(text: Seq<char>, from: int, to: int)
    requires
        0 <= from <= to <= text.len(),
        byte_offset(text, from) >= byte_offset(text, to),
    ensures
        from == to,
    decreases to - from,
{
    if from < to {
        lemma_byte_offset_step(text, to - 1);
        lemma_byte_range(text, from, to - 1);
    }
}

/// `word` without the characters at its end that are neither letters nor
/// numbers.
pub open spec fn trim_end(word: Seq<char>) -> Seq<char>
    decreases word.len(),
{
    if word.len() > 0 && !alphanumeric(word.last()) {
        trim_end(word.drop_last())
    } else {
        word
    }
}

/// What is left of a word whose characters from `kept` on are all neither
/// letters nor numbers, and whose character before `kept` is one.
proof fn lemma_trim_end(word: Seq<char>, kept: int)
    requires
        0 <= kept <= word.len(),
        kept == 0 || alphanumeric(word[kept - 1]),
        forall|k: int| kept <= k < word.len() ==> !alphanumeric(#[trigger] word[k]),
    ensures
        trim_end(word) == word.take(kept),
    decreases word.len(),
{
    if kept < word.len() {
        lemma_trim_end(word.drop_last(), kept);
        assert(word.drop_last().take(kept) == word.take(kept));
    } else {
        assert(word.take(kept) == word);
    }
}

/// Strips from the end of `word` every character that is neither a letter
/// nor a number.
pub fn trim_trailing<'a>(word: &'a str) -> (trimmed: &'a str)
    ensures
        trimmed@ == trim_end(word@),
{
    let total = word.as_bytes().len();
    let mut pos: usize = 0;
    let mut keep: usize = 0;
    let ghost mut kept: int = 0;
    proof {
        lemma_byte_range(word@, 0, 0);
    }
    for c in it: word.chars()
        invariant
            it.seq() == word@,
            total == vstd::utf8::encode_utf8(word@).len(),
            0 <= kept <= it.index() <= word@.len(),
            pos == byte_offset(word@, it.index() as int),
            keep == byte_offset(word@, kept),
            kept == 0 || alphanumeric(word@[kept - 1]),
            forall|k: int| kept <= k < it.index() ==> !alphanumeric(#[trigger] word@[k]),
    {
        proof {
            lemma_byte_offset_step(word@, it.index() as int);
        }
        pos = pos + utf8_width(c);
        if is_alphanumeric(c) {
            keep = pos;
            proof {
                kept = it.index() + 1;
            }
        }
    }
    proof {
        lemma_trim_end(word@, kept);
        lemma_byte_range(word@, 0, kept);
        assert(word@.subrange(0, kept) == word@.take(kept));
    }
    slice_between(word, 0, keep, Ghost(0), Ghost(kept))
}

/// The number of characters before the first line feed of `text`.
pub open spec fn line_len(text: Seq<char>) -> nat
    decreases text.len(),
{
    if text.len() == 0 || text[0] == '\n' {
        0
    } else {
        1 + line_len(text.drop_first())
    }
}

/// `line` without the carriage return at its end, if it has one.
pub open spec fn strip_cr(line: Seq<char>) -> Seq<char> {
    if line.len() > 0 && line.last() == '\r' {
        line.drop_last()
    } else {
        line
    }
}

/// The lines of `text`. A line ends at a line feed, or at a carriage return
/// followed by one; neither belongs to the line. What follows the last line
/// feed is a line of its own unless it is empty, and keeps a carriage return
/// at its end.
pub open spec fn lines_of(text: Seq<char>) -> Seq<Seq<char>>
    decreases text.len(),
{
    if text.len() == 0 {
        Seq::empty()
    } else {
        let n = line_len(text) as int;
        if n < text.len() {
            seq![strip_cr(text.take(n))] + lines_of(text.skip(n + 1))
        } else {
            seq![text]
        }
    }
}

/// A run of characters without a line feed, followed by a line feed or by
/// the end of the text, is the first line.
proof fn lemma_line_len(text: Seq<char>, n: int)
    requires
        0 <= n <= text.len(),
        forall|k: int| 0 <= k < n ==> #[trigger] text[k] != '\n',
        n == text.len() || text[n] == '\n',
    ensures
        line_len(text) == n,
    decreases n,
{
    if n > 0 {
        lemma_line_len(text.drop_first(), n - 1);
    }
}

/// Splits `text` into its lines.
pub fn split_lines<'a>(text: &'a str) -> (lines: Vec<&'a str>)
    ensures
        str_views(lines@) == lines_of(text@),
{
    let total = text.as_bytes().len();
    let mut lines: Vec<&'a str> = Vec::new();
    let mut pos: usize = 0;
    let mut start: usize = 0;
    let mut after_cr: bool = false;
    let ghost mut begun: int = 0;
    proof {
        lemma_byte_range(text@, 0, 0);
        assert(text@.skip(0) == text@);
        assert(str_views(lines@) + lines_of(text@.skip(begun)) == lines_of(text@));
    }
    for c in it: text.chars()
        invariant
            it.seq() == text@,
            total == vstd::utf8::encode_utf8(text@).len(),
            0 <= begun <= it.index() <= text@.len(),
            pos == byte_offset(text@, it.index() as int),
            start == byte_offset(text@, begun),
            forall|k: int| begun <= k < it.index() ==> #[trigger] text@[k] != '\n',
            after_cr <==> (begun < it.index() && text@[it.index() - 1] == '\r'),
            str_views(lines@) + lines_of(text@.skip(begun)) == lines_of(text@),
    {
        let ghost index = it.index() as int;
        proof {
            lemma_byte_offset_step(text@, index);
        }
        let width = utf8_width(c);
        if c == '\n' {
            let ghost end_index = if after_cr { index - 1 } else { index };
            proof {
                if after_cr {
                    lemma_byte_offset_step(text@, index - 1);
                    assert(vstd::utf8::encode_scalar('\r' as u32).len() == 1);
                }
                lemma_byte_range(text@, begun, end_index);
            }
            let end: usize = if after_cr { pos - 1 } else { pos };
            let line = slice_between(text, start, end, Ghost(begun), Ghost(end_index));
            let ghost before = str_views(lines@);
            lines.push(line);
            proof {
                let rest = text@.skip(begun);
                let n = index - begun;
                lemma_line_len(rest, n);
                assert(rest.take(n) == text@.subrange(begun, index));
                assert(strip_cr(rest.take(n)) == text@.subrange(begun, end_index));
                assert(rest.skip(n + 1) == text@.skip(index + 1));
                assert(str_views(lines@) == before.push(line@));
                assert(before.push(line@) + lines_of(text@.skip(index + 1)) == before + lines_of(
                    rest,
                ));
                begun = index + 1;
            }
            pos = pos + width;
            start = pos;
            after_cr = false;
        } else {
            pos = pos + width;
            after_cr = c == '\r';
        }
    }
    proof {
        lemma_byte_range(text@, begun, text@.len() as int);
    }
    if start < pos {
        let line = slice_between(text, start, pos, Ghost(begun), Ghost(text@.len() as int));
        let ghost before = str_views(lines@);
        lines.push(line);
        proof {
            let rest = text@.skip(begun);
            lemma_line_len(rest, rest.len() as int);
            assert(line@ == rest);
            assert(str_views(lines@) == before.push(line@));
            assert(before.push(line@) == before + lines_of(rest));
        }
    } else {
        proof {
            lemma_strictly_between(text@, begun, text@.len() as int);
            assert(text@.skip(begun).len() == 0);
            assert(str_views(lines@) + lines_of(text@.skip(begun)) == str_views(lines@));
        }
    }
    lines
}

} // verus!
