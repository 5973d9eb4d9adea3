//! Literal search: the chunks, or the lines, that hold a query as a
//! substring, without regard to case.

use vstd::prelude::*;
use crate::chunker::{chunk_text, chunk_views, spec_chunk_text, Chunk, ChunkView};
use crate::tfidf::chunk_holds;
use crate::unicode::{contains_seq, contains_str, lowercase, lowercase_of};
use crate::words::{lines_of, split_lines, str_views};

verus! {

/// The size in bytes of the chunks that `search_chunks` cuts.
pub const SEARCH_CHUNK_SIZE: usize = 500;

/// A document as a pair of sequences of characters: its name and its
/// content.
pub type DocumentView = (Seq<char>, Seq<char>);

/// A document's name with those of its lines that hold a query.
pub type LineMatchesView = (Seq<char>, Seq<Seq<char>>);

/// The views of a sequence of documents.
pub open spec fn document_views(files: Seq<(String, String)>) -> Seq<DocumentView> {
    Seq::new(files.len(), |i: int| (files[i].0@, files[i].1@))
}

/// The views of a sequence of strings.
pub open spec fn string_views(strings: Seq<String>) -> Seq<Seq<char>> {
    Seq::new(strings.len(), |i: int| strings[i]@)
}

/// The views of a sequence of line matches.
pub open spec fn line_matches_views(found: Seq<(String, Vec<String>)>) -> Seq<LineMatchesView> {
    Seq::new(found.len(), |i: int| (found[i].0@, string_views(found[i].1@)))
}

/// The chunks of all documents, document after document.
pub open spec fn all_chunks(files: Seq<DocumentView>) -> Seq<ChunkView>
    decreases files.len(),
{
    if files.len() == 0 {
        Seq::empty()
    } else {
        all_chunks(files.drop_last()) + spec_chunk_text(
            files.last().1,
            SEARCH_CHUNK_SIZE as int,
            files.last().0,
        )
    }
}

/// The chunks of all documents that hold `query`, in their order.
pub open spec fn spec_search_chunks(query: Seq<char>, files: Seq<DocumentView>) -> Seq<ChunkView> {
    all_chunks(files).filter(|chunk: ChunkView| chunk_holds(chunk, query))
}

/// Whether `line`, in lower case, holds `query` in lower case.
pub open spec fn line_holds(line: Seq<char>, query: Seq<char>) -> bool {
    contains_seq(lowercase_of(line), lowercase_of(query))
}

/// The lines of `content` that hold `query`, in their order.
pub open spec fn matching_lines(query: Seq<char>, content: Seq<char>) -> Seq<Seq<char>> {
    lines_of(content).filter(|line: Seq<char>| line_holds(line, query))
}

/// For each document that has a line holding `query`, its name and those
/// lines; the documents in their order.
pub open spec fn spec_search_files(query: Seq<char>, files: Seq<DocumentView>) -> Seq<
    LineMatchesView,
>
    decreases files.len(),
{
    if files.len() == 0 {
        Seq::empty()
    } else {
        let before = spec_search_files(query, files.drop_last());
        let lines = matching_lines(query, files.last().1);
        if lines.len() > 0 {
            before.push((files.last().0, lines))
        } else {
            before
        }
    }
}

/// Cuts every document into chunks of 500 bytes and returns the chunks whose
/// text holds `query`, without regard to case, in the order of the documents
/// and of the chunks in each.
pub fn search_chunks(query: &str, files: &[(String, String)]) -> (found: Vec<Chunk>)
    ensures
        chunk_views(found@) == spec_search_chunks(query@, document_views(files@)),
{
    let query_lower = lowercase(query);
    let mut found: Vec<Chunk> = Vec::new();
    let ghost docs = document_views(files@);
    let ghost holds = |chunk: ChunkView| chunk_holds(chunk, query@);
    let mut i: usize = 0;
    proof {
        reveal(Seq::filter);
        assert(docs.take(0) == Seq::<DocumentView>::empty());
        assert(chunk_views(found@) == all_chunks(docs.take(0)).filter(holds));
    }
    while i < files.len()
        invariant
            0 <= i <= files.len(),
            docs == document_views(files@),
            query_lower@ == lowercase_of(query@),
            holds == |chunk: ChunkView| chunk_holds(chunk, query@),
            chunk_views(found@) == all_chunks(docs.take(i as int)).filter(holds),
        decreases files.len() - i,
    {
        let chunks = chunk_text(files[i].1.as_str(), SEARCH_CHUNK_SIZE, files[i].0.as_str());
        let ghost cut = chunk_views(chunks@);
        let ghost before = all_chunks(docs.take(i as int)).filter(holds);
        let mut j: usize = 0;
        proof {
            reveal(Seq::filter);
            assert(cut.take(0).filter(holds) == Seq::<ChunkView>::empty());
            assert(before + cut.take(0).filter(holds) == before);
        }
        while j < chunks.len()
            invariant
                0 <= j <= chunks.len(),
                cut == chunk_views(chunks@),
                query_lower@ == lowercase_of(query@),
                holds == |chunk: ChunkView| chunk_holds(chunk, query@),
                chunk_views(found@) == before + cut.take(j as int).filter(holds),
            decreases chunks.len() - j,
        {
            let text_lower = lowercase(chunks[j].text.as_str());
            let ghost so_far = chunk_views(found@);
            proof {
                assert(cut[j as int] == chunks@[j as int]@);
                assert(cut.take(j + 1).drop_last() == cut.take(j as int));
                reveal(Seq::filter);
            }
            if contains_str(text_lower.as_str(), query_lower.as_str()) {
                found.push(chunks[j].clone());
                proof {
                    assert(chunk_views(found@) == so_far.push(cut[j as int]));
                    assert(so_far.push(cut[j as int]) == before + cut.take(j + 1).filter(holds));
                }
            }
            j = j + 1;
        }
        proof {
            assert(cut.take(chunks.len() as int) == cut);
            assert(docs.take(i + 1).drop_last() == docs.take(i as int));
            assert(docs.take(i + 1).last() == docs[i as int]);
            Seq::filter_distributes_over_add(all_chunks(docs.take(i as int)), cut, holds);
        }
        i = i + 1;
    }
    proof {
        assert(docs.take(files.len() as int) == docs);
    }
    found
}

/// Returns, for each document with a line that holds `query` without regard
/// to case, the document's name and those lines, in the order of the
/// documents and of the lines in each. A document without such a line is
/// left out.
pub fn search_files(query: &str, files: &[(String, String)]) -> (found: Vec<(String, Vec<String>)>)
    ensures
        line_matches_views(found@) == spec_search_files(query@, document_views(files@)),
{
    let query_lower = lowercase(query);
    let mut found: Vec<(String, Vec<String>)> = Vec::new();
    let ghost docs = document_views(files@);
    let ghost holds = |line: Seq<char>| line_holds(line, query@);
    let mut i: usize = 0;
    proof {
        assert(docs.take(0) == Seq::<DocumentView>::empty());
        assert(line_matches_views(found@) == spec_search_files(query@, docs.take(0)));
    }
    while i < files.len()
        invariant
            0 <= i <= files.len(),
            docs == document_views(files@),
            query_lower@ == lowercase_of(query@),
            holds == |line: Seq<char>| line_holds(line, query@),
            line_matches_views(found@) == spec_search_files(query@, docs.take(i as int)),
        decreases files.len() - i,
    {
        let lines = split_lines(files[i].1.as_str());
        let ghost all = lines_of(files@[i as int].1@);
        let mut matches: Vec<String> = Vec::new();
        let mut j: usize = 0;
        proof {
            reveal(Seq::filter);
            assert(all.take(0).filter(holds) == Seq::<Seq<char>>::empty());
            assert(string_views(matches@) == all.take(0).filter(holds));
        }
        while j < lines.len()
            invariant
                0 <= j <= lines.len(),
                str_views(lines@) == all,
                query_lower@ == lowercase_of(query@),
                holds == |line: Seq<char>| line_holds(line, query@),
                string_views(matches@) == all.take(j as int).filter(holds),
            decreases lines.len() - j,
        {
            let line_lower = lowercase(lines[j]);
            let ghost so_far = string_views(matches@);
            proof {
                assert(all[j as int] == lines@[j as int]@);
                assert(all.take(j + 1).drop_last() == all.take(j as int));
                reveal(Seq::filter);
            }
            if contains_str(line_lower.as_str(), query_lower.as_str()) {
                matches.push(lines[j].to_owned());
                proof {
                    assert(string_views(matches@) == so_far.push(all[j as int]));
                }
            }
            j = j + 1;
        }
        let ghost so_far = line_matches_views(found@);
        proof {
            assert(all.take(lines.len() as int) == all);
            assert(docs.take(i + 1).drop_last() == docs.take(i as int));
            assert(docs.take(i + 1).last() == docs[i as int]);
            assert(string_views(matches@) == matching_lines(query@, docs[i as int].1));
        }
        if matches.len() > 0 {
            let ghost lines_found = string_views(matches@);
            found.push((files[i].0.clone(), matches));
            proof {
                assert(line_matches_views(found@) == so_far.push((docs[i as int].0, lines_found)));
            }
        }
        i = i + 1;
    }
    proof {
        assert(docs.take(files.len() as int) == docs);
    }
    found
}

} // verus!
