use doc_search::chunker::{chunk_text, try_chunk_text, ChunkError};

fn joined(text: &str, size: usize) -> String {
    let mut all = String::new();
    for chunk in chunk_text(text, size, "doc") {
        all.push_str(&chunk.text);
    }
    all
}

#[test]
fn test_chunk_text_basic() {
    let text = "The quick brown fox jumps over the lazy dog.";
    let chunks = chunk_text(text, 20, "test.txt");

    assert_eq!(chunks.len(), 3);
    assert_eq!(chunks[0].text, "The quick brown fox ");
    assert_eq!(chunks[1].text, "jumps over the lazy ");
    assert_eq!(chunks[2].text, "dog.");
}

#[test]
fn chunks_carry_source_and_index() {
    let chunks = chunk_text("abcdefghij", 3, "notes/a.txt");
    assert_eq!(chunks.len(), 4);
    for (i, chunk) in chunks.iter().enumerate() {
        assert_eq!(chunk.file, "notes/a.txt");
        assert_eq!(chunk.index, i);
    }
    assert_eq!(chunks[3].text, "j");
}

#[test]
fn empty_text_has_no_chunks() {
    assert!(chunk_text("", 1, "doc").is_empty());
    assert!(chunk_text("", 500, "doc").is_empty());
}

#[test]
fn text_shorter_than_chunk_size_is_one_chunk() {
    let chunks = chunk_text("short", 500, "doc");
    assert_eq!(chunks.len(), 1);
    assert_eq!(chunks[0].text, "short");
    let exact = chunk_text("exact", 5, "doc");
    assert_eq!(exact.len(), 1);
    assert_eq!(exact[0].text, "exact");
}

#[test]
fn huge_chunk_size_does_not_overflow() {
    let chunks = chunk_text("some text", usize::MAX, "doc");
    assert_eq!(chunks.len(), 1);
    assert_eq!(chunks[0].text, "some text");
}

#[test]
fn cut_inside_a_character_moves_forward() {
    // 'é' takes two bytes: a cut after one byte of it moves past it.
    let chunks = chunk_text("aébc", 2, "doc");
    assert_eq!(chunks.len(), 2);
    assert_eq!(chunks[0].text, "aé");
    assert_eq!(chunks[1].text, "bc");
}

#[test]
fn four_byte_characters_stay_whole() {
    let chunks = chunk_text("😀😀", 1, "doc");
    assert_eq!(chunks.len(), 2);
    assert_eq!(chunks[0].text, "😀");
    assert_eq!(chunks[1].text, "😀");
    let three = chunk_text("a😀b", 2, "doc");
    assert_eq!(three.len(), 2);
    assert_eq!(three[0].text, "a😀");
    assert_eq!(three[1].text, "b");
}

#[test]
fn joined_chunks_give_the_text_back() {
    let texts = ["", "a", "hello world", "naïve café — 日本語のテキスト 😀 end", "\n\r\n\t  "];
    for text in texts {
        for size in 1..12 {
            assert_eq!(joined(text, size), text);
        }
    }
}

#[test]
fn chunk_sizes_stay_within_bounds() {
    let text = "naïve café — 日本語のテキスト 😀😀😀 end of the text";
    for size in 1..10usize {
        let chunks = chunk_text(text, size, "doc");
        for (i, chunk) in chunks.iter().enumerate() {
            assert!(!chunk.text.is_empty());
            assert!(chunk.text.len() <= size + 3);
            if i + 1 < chunks.len() {
                assert!(chunk.text.len() >= size);
            }
        }
    }
}

#[test]
fn smaller_chunk_size_never_gives_fewer_chunks() {
    let text = "naïve café — 日本語のテキスト 😀😀😀 end of the text";
    let mut last = usize::MAX;
    for size in 1..40usize {
        let count = chunk_text(text, size, "doc").len();
        assert!(count <= last);
        last = count;
    }
    assert_eq!(chunk_text("abcdefgh", 1, "doc").len(), 8);
    assert_eq!(chunk_text("abcdefgh", 3, "doc").len(), 3);
    assert_eq!(chunk_text("abcdefgh", 8, "doc").len(), 1);
}

#[test]
fn zero_chunk_size_is_refused() {
    assert_eq!(try_chunk_text("abc", 0, "doc").err(), Some(ChunkError::ZeroChunkSize));
    assert_eq!(try_chunk_text("", 0, "doc").err(), Some(ChunkError::ZeroChunkSize));
}

#[test]
fn positive_chunk_size_is_accepted() {
    let chunks = try_chunk_text("The quick brown fox", 10, "doc").unwrap();
    assert_eq!(chunks.len(), 2);
    assert_eq!(chunks[0].text, "The quick ");
    assert_eq!(chunks[1].text, "brown fox");
}

#[test]
fn a_chunk_can_be_cloned() {
    let chunks = chunk_text("abc", 2, "doc");
    let copy = chunks[1].clone();
    assert_eq!(copy.text, "c");
    assert_eq!(copy.file, "doc");
    assert_eq!(copy.index, 1);
}
