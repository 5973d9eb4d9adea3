//! What holds of the inverse document frequency whatever the corpus.

use vstd::prelude::*;
use crate::chunker::ChunkView;
use crate::tfidf::{
    chunk_holds, chunks_holding, spec_divisor, InverseDocumentFrequency, TermScore,
};

verus! {

/// The divisor of a term is at least 1 and, in a corpus that is not empty,
/// at most the number of chunks: the quotient is at least 1 and its
/// logarithm is not negative.
pub proof fn lemma_idf_not_negative(term: Seq<char>, chunks: Seq<ChunkView>)
    requires
        chunks.len() > 0,
    ensures
        1 <= spec_divisor(term, chunks) <= chunks.len(),
{
    chunks.lemma_filter_len(|chunk: ChunkView| chunk_holds(chunk, term));
}

/// A term that fewer chunks hold has the greater inverse document frequency,
/// or the same.
pub proof fn lemma_rarer_term_weighs_more(
    rare: Seq<char>,
    common: Seq<char>,
    chunks: Seq<ChunkView>,
    rare_idf: InverseDocumentFrequency,
    common_idf: InverseDocumentFrequency,
)
    requires
        chunks_holding(rare, chunks).len() <= chunks_holding(common, chunks).len(),
        rare_idf.total == chunks.len(),
        rare_idf.divisor == spec_divisor(rare, chunks),
        common_idf.total == chunks.len(),
        common_idf.divisor == spec_divisor(common, chunks),
    ensures
        rare_idf.divisor <= common_idf.divisor,
        rare_idf.at_least(common_idf),
{
    let total = chunks.len() as int;
    let small = rare_idf.divisor as int;
    let large = common_idf.divisor as int;
    assert(total * large >= total * small) by (nonlinear_arith)
        requires
            total >= 0,
            small <= large,
    ;
}

/// In a corpus that is not empty a score is never below zero: it is either
/// zero or above zero.
pub proof fn lemma_score_is_zero_or_positive(score: TermScore)
    requires
        score.tf.wf(),
        score.idf.wf(),
        score.idf.total > 0,
    ensures
        score.is_positive() <==> !score.is_zero(),
{
}

} // verus!
