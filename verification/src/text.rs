//! Text as a sequence of characters: where a character lies among the bytes
//! of a string, and how to take a run of characters out of it.

use vstd::prelude::*;
use vstd::utf8::*;
use vstd::string::StringSliceAdditionalSpecFns;

verus! {

/// The number of bytes that the first `count` characters of `text` take.
pub open spec fn byte_offset(text: Seq<char>, count: int) -> int {
    encode_utf8(text.take(count)).len() as int
}

/// The encoding of two texts joined is the two encodings joined.
pub proof fn lemma_encode_concat(a: Seq<char>, b: Seq<char>)
    ensures
        encode_utf8(a + b) == encode_utf8(a) + encode_utf8(b),
    decreases a.len(),
{
    if a.len() == 0 {
        assert(a + b == b);
    } else {
        lemma_encode_concat(a.drop_first(), b);
        assert((a + b).drop_first() == a.drop_first() + b);
    }
}

/// The bytes of a text begin with the bytes of each of its prefixes, and the
/// next character follows them.
pub proof fn lemma_byte_offset_step(text: Seq<char>, count: int)
    requires
        0 <= count < text.len(),
    ensures
        byte_offset(text, count + 1) == byte_offset(text, count) + encode_scalar(
            text[count] as u32,
        ).len(),
        0 <= byte_offset(text, count) < byte_offset(text, count + 1) <= encode_utf8(text).len(),
{
    let head = text.take(count);
    let one = seq![text[count]];
    assert(text.take(count + 1) == head + one);
    lemma_encode_concat(head, one);
    assert(one.drop_first() == Seq::<char>::empty());
    assert(encode_utf8(one) == encode_scalar(text[count] as u32)) by {
        reveal_with_fuel(encode_utf8, 2);
    }
    assert(text == text.take(count + 1) + text.skip(count + 1));
    lemma_encode_concat(text.take(count + 1), text.skip(count + 1));
}

/// The bytes of a run of characters are the bytes of the text between the
/// offsets of its ends, and both offsets are character boundaries.
pub proof fn lemma_byte_range(text: Seq<char>, from: int, to: int)
    requires
        0 <= from <= to <= text.len(),
    ensures
        0 <= byte_offset(text, from) <= byte_offset(text, to) <= encode_utf8(text).len(),
        encode_utf8(text).subrange(byte_offset(text, from), byte_offset(text, to)) == encode_utf8(
            text.subrange(from, to),
        ),
        is_char_boundary(encode_utf8(text), byte_offset(text, from)),
        is_char_boundary(encode_utf8(text), byte_offset(text, to)),
        byte_offset(text, 0) == 0,
        byte_offset(text, text.len() as int) == encode_utf8(text).len(),
{
    let a = text.take(from);
    let b = text.subrange(from, to);
    let c = text.skip(to);
    assert(text.take(to) == a + b);
    assert(text == text.take(to) + c);
    lemma_encode_concat(a, b);
    lemma_encode_concat(text.take(to), c);
    assert(text == a + text.skip(from));
    lemma_encode_concat(a, text.skip(from));
    lemma_boundary_between(a, text.skip(from));
    lemma_boundary_between(text.take(to), c);
    assert(text.take(0) == Seq::<char>::empty());
    assert(text.take(text.len() as int) == text);
}

/// Where one text ends and the next begins is a character boundary of the
/// two joined.
proof fn lemma_boundary_between(a: Seq<char>, b: Seq<char>)
    ensures
        is_char_boundary(encode_utf8(a + b), encode_utf8(a).len() as int),
{
    let whole = encode_utf8(a + b);
    let at = encode_utf8(a).len() as int;
    lemma_encode_concat(a, b);
    encode_utf8_valid_utf8(a + b);
    encode_utf8_valid_utf8(b);
    if encode_utf8(b).len() == 0 {
        is_char_boundary_start_end_of_seq(whole);
    } else {
        is_char_boundary_iff_not_is_continuation_byte(encode_utf8(b), 0);
        is_char_boundary_iff_not_is_continuation_byte(whole, at);
        assert(whole[at] == encode_utf8(b)[0]);
    }
}

/// The number of bytes that `c` takes in UTF-8.
pub(crate) fn utf8_width(c: char) -> (width: usize)
    ensures
        width == encode_scalar(c as u32).len(),
        1 <= width <= 4,
{
    let code: u32 = c as u32;
    if code < 0x80 {
        1
    } else if code < 0x800 {
        2
    } else if code < 0x10000 {
        3
    } else {
        4
    }
}

/// The characters of `s` from position `from` up to position `to`, given the
/// byte offsets `start` and `end` of the two positions.
pub(crate) fn slice_between<'a>(
    s: &'a str,
    start: usize,
    end: usize,
    Ghost(from): Ghost<int>,
    Ghost(to): Ghost<int>,
) -> (part: &'a str)
    requires
        0 <= from <= to <= s@.len(),
        start == byte_offset(s@, from),
        end == byte_offset(s@, to),
    ensures
        part@ == s@.subrange(from, to),
{
    proof {
        lemma_byte_range(s@, from, to);
    }
    let (head, _) = s.split_at(end);
    proof {
        encode_utf8_decode_utf8(head@);
        encode_utf8_decode_utf8(s@.take(to));
        lemma_byte_range(s@, 0, to);
        assert(s@.subrange(0, to) == s@.take(to));
        assert(head@ == s@.take(to));
        lemma_byte_range(head@, from, to);
        assert(head@.take(from) == s@.take(from));
    }
    let (_, part) = head.split_at(start);
    proof {
        encode_utf8_decode_utf8(part@);
        encode_utf8_decode_utf8(head@.subrange(from, to));
        assert(head@.subrange(from, to) == s@.subrange(from, to));
    }
    part
}

} // verus!
