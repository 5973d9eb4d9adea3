//! Splitting a text into consecutive chunks of a target size in bytes, cut
//! only where a character ends.

use vstd::prelude::*;
use vstd::utf8::*;
use vstd::string::StringSliceAdditionalSpecFns;

verus! {

/// A contiguous piece of one source document.
#[derive(Debug)]
pub struct Chunk {
    /// The content of the piece.
    pub text: String,
    /// The name of the document that the piece was cut from.
    pub file: String,
    /// The position of the piece among the pieces of its document, from 0.
    pub index: usize,
}

/// The mathematical value of a [`Chunk`].
pub struct ChunkView {
    pub text: Seq<char>,
    pub file: Seq<char>,
    pub index: nat,
}

impl View for Chunk {
    type V = ChunkView;

    open spec fn view(&self) -> ChunkView {
        ChunkView { text: self.text@, file: self.file@, index: self.index as nat }
    }
}

impl Clone for Chunk {
    fn clone(&self) -> (copy: Chunk)
        ensures
            copy == *self,
    {
        Chunk { text: self.text.clone(), file: self.file.clone(), index: self.index }
    }
}

/// The first character boundary of `bytes` at or after `pos`; the end of
/// `bytes` where there is none before it.
pub open spec fn next_boundary(bytes: Seq<u8>, pos: int) -> int
    decreases bytes.len() - pos,
{
    if pos >= bytes.len() {
        bytes.len() as int
    } else if is_char_boundary(bytes, pos) {
        pos
    } else {
        next_boundary(bytes, pos + 1)
    }
}

/// Where the first chunk of `bytes` ends: at the first character boundary
/// that lies `size` bytes into the text or later.
pub open spec fn first_cut(bytes: Seq<u8>, size: int) -> int {
    next_boundary(bytes, if size < bytes.len() { size } else { bytes.len() as int })
}

/// The pieces that `bytes` is cut into for a chunk size of `size` bytes.
/// (In a valid text the first cut always lies within the text and past its
/// start; the test on it shows that the definition ends.)
pub open spec fn split_bytes(bytes: Seq<u8>, size: int) -> Seq<Seq<u8>>
    decreases bytes.len(),
{
    if bytes.len() == 0 || size <= 0 {
        Seq::empty()
    } else {
        let cut = first_cut(bytes, size);
        if 0 < cut <= bytes.len() {
            seq![bytes.subrange(0, cut)] + split_bytes(bytes.subrange(cut, bytes.len() as int), size)
        } else {
            Seq::empty()
        }
    }
}

/// The chunks of `text` for a chunk size of `size` bytes, each tagged with
/// `source` and its position.
pub open spec fn spec_chunk_text(text: Seq<char>, size: int, source: Seq<char>) -> Seq<ChunkView> {
    let pieces = split_bytes(encode_utf8(text), size);
    Seq::new(
        pieces.len(),
        |i: int| ChunkView { text: decode_utf8(pieces[i]), file: source, index: i as nat },
    )
}

/// The views of a sequence of chunks.
pub open spec fn chunk_views(chunks: Seq<Chunk>) -> Seq<ChunkView> {
    Seq::new(chunks.len(), |i: int| chunks[i]@)
}

/// The texts of a sequence of chunks, joined in order.
pub open spec fn joined_text(chunks: Seq<ChunkView>) -> Seq<char>
    decreases chunks.len(),
{
    if chunks.len() == 0 {
        Seq::empty()
    } else {
        joined_text(chunks.drop_last()) + chunks.last().text
    }
}

/// `next_boundary` stays within the text, does not go back, and lands on a
/// character boundary.
pub proof fn lemma_next_boundary(bytes: Seq<u8>, pos: int)
    requires
        valid_utf8(bytes),
        0 <= pos <= bytes.len(),
    ensures
        pos <= next_boundary(bytes, pos) <= bytes.len(),
        is_char_boundary(bytes, next_boundary(bytes, pos)),
        forall|k: int| pos <= k < next_boundary(bytes, pos) ==> !is_char_boundary(bytes, k),
    decreases bytes.len() - pos,
{
    if pos >= bytes.len() {
        is_char_boundary_start_end_of_seq(bytes);
    } else if is_char_boundary(bytes, pos) {
    } else {
        lemma_next_boundary(bytes, pos + 1);
    }
}

/// Unfolds `split_bytes` once on a text that is not empty.
pub proof fn lemma_split_bytes_step(bytes: Seq<u8>, size: int)
    requires
        valid_utf8(bytes),
        bytes.len() > 0,
        size > 0,
    ensures
        0 < first_cut(bytes, size) <= bytes.len(),
        is_char_boundary(bytes, first_cut(bytes, size)),
        split_bytes(bytes, size) == seq![bytes.subrange(0, first_cut(bytes, size))] + split_bytes(
            bytes.subrange(first_cut(bytes, size), bytes.len() as int),
            size,
        ),
{
    let from = if size < bytes.len() { size } else { bytes.len() as int };
    lemma_next_boundary(bytes, from);
}

/// Splits `text` into consecutive chunks of `chunk_size` bytes. A cut that
/// would fall inside a character moves forward to the end of that character,
/// and the last chunk holds what is left.
pub fn chunk_text(text: &str, chunk_size: usize, source_file: &str) -> (chunks: Vec<Chunk>)
    requires
        chunk_size > 0,
    ensures
        chunk_views(chunks@) == spec_chunk_text(text@, chunk_size as int, source_file@),
        joined_text(chunk_views(chunks@)) == text@,
{
    let mut chunks: Vec<Chunk> = Vec::new();
    let mut rest: &str = text;
    let ghost all = text.spec_bytes();
    let ghost mut done: Seq<Seq<u8>> = Seq::empty();
    let ghost mut joined: Seq<char> = Seq::empty();
    proof {
        assert(done + split_bytes(rest.spec_bytes(), chunk_size as int) == split_bytes(
            all,
            chunk_size as int,
        ));
        assert(joined + rest@ == text@);
    }
    while rest.as_bytes().len() > 0
        invariant
            chunk_size > 0,
            all == encode_utf8(text@),
            done + split_bytes(rest.spec_bytes(), chunk_size as int) == split_bytes(
                all,
                chunk_size as int,
            ),
            chunks@.len() == done.len(),
            forall|i: int|
                0 <= i < chunks@.len() ==> (#[trigger] chunks@[i])@ == (ChunkView {
                    text: decode_utf8(done[i]),
                    file: source_file@,
                    index: i as nat,
                }),
            joined == joined_text(chunk_views(chunks@)),
            joined + rest@ == text@,
        decreases rest.spec_bytes().len(),
    {
        let len = rest.as_bytes().len();
        let ghost bytes = rest.spec_bytes();
        proof {
            encode_utf8_valid_utf8(rest@);
        }
        let start: usize = if chunk_size < len { chunk_size } else { len };
        let mut cut: usize = start;
        while cut < len && !rest.is_char_boundary(cut)
            invariant
                start <= cut <= len,
                len == bytes.len(),
                bytes == rest.spec_bytes(),
                next_boundary(bytes, cut as int) == next_boundary(bytes, start as int),
            decreases len - cut,
        {
            cut += 1;
        }
        proof {
            lemma_split_bytes_step(bytes, chunk_size as int);
            assert(cut as int == first_cut(bytes, chunk_size as int));
        }
        let (head, tail) = rest.split_at(cut);
        proof {
            encode_utf8_decode_utf8(head@);
            encode_utf8_decode_utf8(tail@);
            encode_utf8_decode_utf8(rest@);
            decode_utf8_split(bytes, cut as int);
            assert(head@ == decode_utf8(bytes.subrange(0, cut as int)));
            assert(tail@ == decode_utf8(bytes.subrange(cut as int, bytes.len() as int)));
            assert(rest@ == decode_utf8(bytes));
            assert(rest@ == head@ + tail@);
        }
        let index = chunks.len();
        let chunk = Chunk { text: head.to_owned(), file: source_file.to_owned(), index };
        let ghost before = chunk_views(chunks@);
        chunks.push(chunk);
        proof {
            let piece = bytes.subrange(0, cut as int);
            assert(done.push(piece) + split_bytes(tail.spec_bytes(), chunk_size as int) == done
                + split_bytes(bytes, chunk_size as int));
            done = done.push(piece);
            assert(chunk_views(chunks@).drop_last() == before);
            joined = joined + head@;
            assert(joined + tail@ == text@);
        }
        rest = tail;
    }
    proof {
        assert(split_bytes(rest.spec_bytes(), chunk_size as int) == Seq::<Seq<u8>>::empty());
        assert(done == split_bytes(all, chunk_size as int));
        assert(chunk_views(chunks@) =~= spec_chunk_text(text@, chunk_size as int, source_file@));
        assert(rest@.len() == 0) by {
            encode_utf8_decode_utf8(rest@);
        }
        assert(joined + rest@ == joined);
    }
    chunks
}

/// Why a text was not cut into chunks.
#[derive(Clone, Copy, Debug, PartialEq, Eq, Structural)]
pub enum ChunkError {
    /// The chunk size was zero.
    ZeroChunkSize,
}

/// Splits `text` as `chunk_text` does, and refuses a chunk size of zero.
pub fn try_chunk_text(text: &str, chunk_size: usize, source_file: &str) -> (result: Result<
    Vec<Chunk>,
    ChunkError,
>)
    ensures
        chunk_size == 0 <==> result is Err,
        result matches Ok(chunks) ==> {
            &&& chunk_views(chunks@) == spec_chunk_text(text@, chunk_size as int, source_file@)
            &&& joined_text(chunk_views(chunks@)) == text@
        },
{
    if chunk_size == 0 {
        Err(ChunkError::ZeroChunkSize)
    } else {
        Ok(chunk_text(text, chunk_size, source_file))
    }
}

} // verus!
