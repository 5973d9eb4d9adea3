//! What holds of every chunking: the cuts fall on character boundaries, the
//! chunk sizes stay within bounds, and a smaller chunk size never gives fewer
//! chunks.

use vstd::prelude::*;
use vstd::utf8::*;
use crate::chunker::{
    first_cut, joined_text, lemma_next_boundary, lemma_split_bytes_step, next_boundary,
    spec_chunk_text, split_bytes, ChunkView,
};

verus! {

/// The number of bytes in the first `count` pieces.
pub open spec fn offset_of(pieces: Seq<Seq<u8>>, count: int) -> int
    decreases count,
{
    if count <= 0 {
        0
    } else {
        offset_of(pieces, count - 1) + pieces[count - 1].len()
    }
}

/// A position counted from a character boundary is a boundary of the rest of
/// the text exactly when it is one of the whole text.
proof fn lemma_boundary_shift(bytes: Seq<u8>, p: int, k: int)
    requires
        valid_utf8(bytes),
        is_char_boundary(bytes, p),
        0 <= p <= bytes.len(),
        0 <= k <= bytes.len() - p,
    ensures
        valid_utf8(bytes.subrange(p, bytes.len() as int)),
        is_char_boundary(bytes.subrange(p, bytes.len() as int), k) <==> is_char_boundary(
            bytes,
            p + k,
        ),
{
    valid_utf8_split(bytes, p);
    let suffix = bytes.subrange(p, bytes.len() as int);
    if k == bytes.len() - p {
        is_char_boundary_start_end_of_seq(suffix);
        is_char_boundary_start_end_of_seq(bytes);
    } else {
        is_char_boundary_iff_not_is_continuation_byte(suffix, k);
        is_char_boundary_iff_not_is_continuation_byte(bytes, p + k);
    }
}

/// `next_boundary` of the rest of a text is `next_boundary` of the whole
/// text, counted from where the rest begins.
proof fn lemma_next_boundary_shift(bytes: Seq<u8>, p: int, k: int)
    requires
        valid_utf8(bytes),
        is_char_boundary(bytes, p),
        0 <= p <= bytes.len(),
        0 <= k <= bytes.len() - p,
    ensures
        next_boundary(bytes.subrange(p, bytes.len() as int), k) + p == next_boundary(bytes, p + k),
    decreases bytes.len() - p - k,
{
    lemma_boundary_shift(bytes, p, k);
    if k < bytes.len() - p {
        lemma_next_boundary_shift(bytes, p, k + 1);
    }
}

/// `next_boundary` does not decrease when its starting position grows.
proof fn lemma_next_boundary_monotone(bytes: Seq<u8>, a: int, b: int)
    requires
        valid_utf8(bytes),
        0 <= a <= b <= bytes.len(),
    ensures
        next_boundary(bytes, a) <= next_boundary(bytes, b),
{
    lemma_next_boundary(bytes, a);
    lemma_next_boundary(bytes, b);
}

/// In a valid text a character boundary lies at most three bytes after any
/// position.
proof fn lemma_boundary_is_near(bytes: Seq<u8>, pos: int)
    requires
        valid_utf8(bytes),
        0 <= pos <= bytes.len(),
    ensures
        next_boundary(bytes, pos) <= pos + 3,
    decreases bytes.len(),
{
    lemma_next_boundary(bytes, pos);
    if pos == 0 || pos == bytes.len() {
        is_char_boundary_start_end_of_seq(bytes);
    } else {
        let width = length_of_first_scalar(bytes);
        let rest = pop_first_scalar(bytes);
        if pos <= width {
            is_char_boundary_start_end_of_seq(rest);
            assert(is_char_boundary(bytes, width));
        } else {
            lemma_boundary_is_near(rest, pos - width);
            lemma_next_boundary(rest, pos - width);
            let found = next_boundary(rest, pos - width);
            assert(is_char_boundary(bytes, found + width));
        }
    }
}

/// The number of chunks from a character boundary on does not grow when the
/// start moves forward or the chunk size grows.
proof fn lemma_count_monotone_from(bytes: Seq<u8>, near: int, far: int, small: int, large: int)
    requires
        valid_utf8(bytes),
        is_char_boundary(bytes, near),
        is_char_boundary(bytes, far),
        0 <= near <= far <= bytes.len(),
        0 < small <= large,
    ensures
        split_bytes(bytes.subrange(near, bytes.len() as int), small).len() >= split_bytes(
            bytes.subrange(far, bytes.len() as int),
            large,
        ).len(),
    decreases bytes.len() - near,
{
    let len = bytes.len() as int;
    let near_rest = bytes.subrange(near, len);
    let far_rest = bytes.subrange(far, len);
    if far < len {
        lemma_boundary_shift(bytes, near, 0);
        lemma_boundary_shift(bytes, far, 0);
        lemma_split_bytes_step(near_rest, small);
        lemma_split_bytes_step(far_rest, large);
        let near_from = if small < near_rest.len() { small } else { near_rest.len() as int };
        let far_from = if large < far_rest.len() { large } else { far_rest.len() as int };
        lemma_next_boundary_shift(bytes, near, near_from);
        lemma_next_boundary_shift(bytes, far, far_from);
        lemma_next_boundary_monotone(bytes, near + near_from, far + far_from);
        let near_cut = first_cut(near_rest, small);
        let far_cut = first_cut(far_rest, large);
        lemma_boundary_shift(bytes, near, near_cut);
        lemma_boundary_shift(bytes, far, far_cut);
        assert(near_rest.subrange(near_cut, near_rest.len() as int) == bytes.subrange(near + near_cut, len));
        assert(far_rest.subrange(far_cut, far_rest.len() as int) == bytes.subrange(far + far_cut, len));
        lemma_count_monotone_from(bytes, near + near_cut, far + far_cut, small, large);
    }
}

/// A smaller chunk size never gives fewer chunks of the same text.
pub proof fn lemma_chunk_count_monotone(
    text: Seq<char>,
    smaller: int,
    larger: int,
    source: Seq<char>,
)
    requires
        0 < smaller <= larger,
    ensures
        spec_chunk_text(text, smaller, source).len() >= spec_chunk_text(text, larger, source).len(),
{
    let bytes = encode_utf8(text);
    encode_utf8_valid_utf8(text);
    is_char_boundary_start_end_of_seq(bytes);
    assert(bytes.subrange(0, bytes.len() as int) == bytes);
    lemma_count_monotone_from(bytes, 0, 0, smaller, larger);
}

/// What holds of the piece at position `i`: where it lies and how long it is.
pub open spec fn piece_in_place(bytes: Seq<u8>, size: int, i: int) -> bool {
    let pieces = split_bytes(bytes, size);
    let from = offset_of(pieces, i);
    let to = offset_of(pieces, i + 1);
    &&& 0 <= from < to <= bytes.len()
    &&& is_char_boundary(bytes, from)
    &&& is_char_boundary(bytes, to)
    &&& pieces[i] == bytes.subrange(from, to)
    &&& valid_utf8(pieces[i])
    &&& pieces[i].len() <= size + 3
    &&& (i + 1 < pieces.len() ==> pieces[i].len() >= size)
    &&& (i + 1 == pieces.len() ==> to == bytes.len())
}

/// The pieces of a text lie one after another in it, each between two
/// character boundaries, and none is empty. Every piece but the last holds at
/// least `size` bytes, no piece holds more than `size + 3`, and the last
/// piece ends where the text ends.
pub proof fn lemma_piece(bytes: Seq<u8>, size: int, i: int)
    requires
        valid_utf8(bytes),
        size > 0,
        0 <= i < split_bytes(bytes, size).len(),
    ensures
        piece_in_place(bytes, size, i),
    decreases i,
{
    let pieces = split_bytes(bytes, size);
    let len = bytes.len() as int;
    lemma_split_bytes_step(bytes, size);
    let cut = first_cut(bytes, size);
    let head = bytes.subrange(0, cut);
    let rest = bytes.subrange(cut, len);
    let tail = split_bytes(rest, size);
    valid_utf8_split(bytes, cut);
    assert(pieces == seq![head] + tail);
    if i == 0 {
        let start = if size < len { size } else { len };
        lemma_next_boundary(bytes, start);
        lemma_boundary_is_near(bytes, start);
        is_char_boundary_start_end_of_seq(bytes);
        lemma_offset_shift(head, tail, 0);
        assert(offset_of(pieces, 0) == 0);
        assert(offset_of(tail, 0) == 0);
        assert(pieces[0] == head);
        if tail.len() == 0 {
            assert(rest.len() == 0) by {
                if rest.len() > 0 {
                    lemma_split_bytes_step(rest, size);
                }
            }
        } else {
            assert(rest.len() > 0);
        }
    } else {
        let j = i - 1;
        lemma_piece(rest, size, j);
        lemma_offset_shift(head, tail, j);
        lemma_offset_shift(head, tail, j + 1);
        assert(pieces[i] == tail[j]);
        let from = offset_of(tail, j);
        let to = offset_of(tail, j + 1);
        lemma_boundary_shift(bytes, cut, from);
        lemma_boundary_shift(bytes, cut, to);
        assert(rest.subrange(from, to) == bytes.subrange(cut + from, cut + to));
    }
}

/// Offsets in a sequence of pieces, counted past its first piece.
proof fn lemma_offset_shift(first: Seq<u8>, tail: Seq<Seq<u8>>, j: int)
    requires
        0 <= j <= tail.len(),
    ensures
        offset_of(seq![first] + tail, j + 1) == first.len() + offset_of(tail, j),
    decreases j,
{
    let pieces = seq![first] + tail;
    if j == 0 {
        assert(offset_of(pieces, 1) == offset_of(pieces, 0) + pieces[0].len());
    } else {
        lemma_offset_shift(first, tail, j - 1);
        assert(pieces[j] == tail[j - 1]);
    }
}

/// Every chunk holds the bytes of its text between two character boundaries
/// and nothing else: no character is split between two chunks.
pub proof fn lemma_chunks_hold_whole_characters(
    text: Seq<char>,
    size: int,
    source: Seq<char>,
    i: int,
)
    requires
        size > 0,
        0 <= i < spec_chunk_text(text, size, source).len(),
    ensures
        piece_in_place(encode_utf8(text), size, i),
        encode_utf8(spec_chunk_text(text, size, source)[i].text) == split_bytes(
            encode_utf8(text),
            size,
        )[i],
{
    let bytes = encode_utf8(text);
    encode_utf8_valid_utf8(text);
    lemma_piece(bytes, size, i);
    decode_utf8_encode_utf8(split_bytes(bytes, size)[i]);
}

/// The chunks made of `pieces`, numbered from `base` on.
spec fn numbered(pieces: Seq<Seq<u8>>, source: Seq<char>, base: int) -> Seq<ChunkView> {
    Seq::new(
        pieces.len(),
        |i: int| ChunkView { text: decode_utf8(pieces[i]), file: source, index: (base + i) as nat },
    )
}

/// The text of a chunk followed by the joined texts of others is the joined
/// text of all of them.
proof fn lemma_joined_prepend(first: ChunkView, rest: Seq<ChunkView>)
    ensures
        joined_text(seq![first] + rest) == first.text + joined_text(rest),
    decreases rest.len(),
{
    let all = seq![first] + rest;
    if rest.len() == 0 {
        assert(all.drop_last() == Seq::<ChunkView>::empty());
        assert(joined_text(all.drop_last()) == Seq::<char>::empty());
        assert(joined_text(all) == Seq::<char>::empty() + first.text);
    } else {
        lemma_joined_prepend(first, rest.drop_last());
        assert(all.drop_last() == seq![first] + rest.drop_last());
        assert(all.last() == rest.last());
    }
}

/// The texts of the pieces of a text, joined, are the text.
proof fn lemma_pieces_join(bytes: Seq<u8>, size: int, source: Seq<char>, base: int)
    requires
        valid_utf8(bytes),
        size > 0,
        base >= 0,
    ensures
        joined_text(numbered(split_bytes(bytes, size), source, base)) == decode_utf8(bytes),
    decreases bytes.len(),
{
    let pieces = split_bytes(bytes, size);
    if bytes.len() == 0 {
        assert(numbered(pieces, source, base) == Seq::<ChunkView>::empty());
    } else {
        lemma_split_bytes_step(bytes, size);
        let cut = first_cut(bytes, size);
        let head = bytes.subrange(0, cut);
        let rest = bytes.subrange(cut, bytes.len() as int);
        valid_utf8_split(bytes, cut);
        decode_utf8_split(bytes, cut);
        lemma_pieces_join(rest, size, source, base + 1);
        let first = ChunkView { text: decode_utf8(head), file: source, index: base as nat };
        let others = numbered(split_bytes(rest, size), source, base + 1);
        assert(numbered(pieces, source, base) == seq![first] + others);
        lemma_joined_prepend(first, others);
    }
}

/// The texts of the chunks of a text, joined in their order, are the text:
/// nothing is lost and nothing occurs twice.
pub proof fn lemma_chunks_join_to_text(text: Seq<char>, size: int, source: Seq<char>)
    requires
        size > 0,
    ensures
        joined_text(spec_chunk_text(text, size, source)) == text,
{
    let bytes = encode_utf8(text);
    encode_utf8_valid_utf8(text);
    encode_utf8_decode_utf8(text);
    lemma_pieces_join(bytes, size, source, 0);
    assert(numbered(split_bytes(bytes, size), source, 0) == spec_chunk_text(text, size, source));
}

} // verus!
