//! Term frequency and inverse document frequency, held as the whole numbers
//! that they are made of: a frequency as the two counts of its fraction, an
//! inverse frequency as the two counts under its logarithm.

use vstd::prelude::*;
use crate::chunker::{chunk_views, Chunk, ChunkView};
use crate::progress::{Progress, Report, Reporter};
use crate::ranking::{is_ranking, ranking, ranking_of};
use crate::unicode::{contains_seq, contains_str, lowercase, lowercase_of};
use crate::words::{split_words, str_views, trim_end, trim_trailing, words_of};

verus! {

/// How often a term occurs among the words of a text: the fraction
/// `matches / words`, and zero for a text without words.
#[derive(Clone, Copy, Debug, PartialEq, Eq, Structural)]
pub struct TermFrequency {
    /// The number of words that hold the term.
    pub matches: usize,
    /// The number of words of the text.
    pub words: usize,
}

/// How rare a term is among the chunks of a corpus: the natural logarithm of
/// `total / divisor`.
#[derive(Clone, Copy, Debug, PartialEq, Eq, Structural)]
pub struct InverseDocumentFrequency {
    /// The number of chunks of the corpus.
    pub total: usize,
    /// The number of chunks that hold the term, and 1 where none does.
    pub divisor: usize,
}

/// The score of a term in a chunk: the term frequency times the inverse
/// document frequency.
#[derive(Clone, Copy, Debug, PartialEq, Eq, Structural)]
pub struct TermScore {
    pub tf: TermFrequency,
    pub idf: InverseDocumentFrequency,
}

impl TermFrequency {
    /// A frequency is a fraction between 0 and 1.
    pub open spec fn wf(self) -> bool {
        self.matches <= self.words
    }

    /// Whether the fraction is zero.
    pub open spec fn is_zero(self) -> bool {
        self.matches == 0
    }
}

impl InverseDocumentFrequency {
    /// The divisor is at least 1 and, in a corpus that is not empty, at most
    /// the number of its chunks: the logarithm is then defined and not
    /// negative.
    pub open spec fn wf(self) -> bool {
        1 <= self.divisor && (self.total > 0 ==> self.divisor <= self.total)
    }

    /// Whether the logarithm is zero: the quotient is 1.
    pub open spec fn is_zero(self) -> bool {
        self.total == self.divisor
    }

    /// Whether the logarithm of `self` is at least that of `other`: the
    /// quotient of `self` is at least that of `other`.
    pub open spec fn at_least(self, other: InverseDocumentFrequency) -> bool {
        self.total * other.divisor >= other.total * self.divisor
    }
}

impl TermScore {
    /// Whether the product is zero: one of its two factors is.
    pub open spec fn is_zero(self) -> bool {
        self.tf.is_zero() || self.idf.is_zero()
    }

    /// Whether the product is greater than zero.
    pub open spec fn is_positive(self) -> bool {
        self.tf.matches > 0 && self.idf.total > self.idf.divisor
    }

    /// Tells whether the product is greater than zero.
    pub fn positive(&self) -> (positive: bool)
        ensures
            positive == self.is_positive(),
    {
        self.tf.matches > 0 && self.idf.total > self.idf.divisor
    }
}

/// Whether a word of a text in lower case counts for a term in lower case:
/// the word, without what trails it and in lower case again, holds the term.
pub open spec fn word_matches(word: Seq<char>, term_lower: Seq<char>) -> bool {
    contains_seq(lowercase_of(trim_end(word)), term_lower)
}

/// The words of `text`, taken in lower case, that count for `term`.
pub open spec fn matching_words(term: Seq<char>, text: Seq<char>) -> Seq<Seq<char>> {
    words_of(lowercase_of(text)).filter(|word: Seq<char>| word_matches(word, lowercase_of(term)))
}

/// The number of words of `text` that count for `term`; zero where either
/// is empty.
pub open spec fn spec_matches(term: Seq<char>, text: Seq<char>) -> nat {
    if text.len() == 0 || term.len() == 0 {
        0
    } else {
        matching_words(term, text).len()
    }
}

/// The number of words of `text`; zero where `term` is empty.
pub open spec fn spec_words(term: Seq<char>, text: Seq<char>) -> nat {
    if text.len() == 0 || term.len() == 0 {
        0
    } else {
        words_of(lowercase_of(text)).len()
    }
}

/// Whether the text of `chunk`, in lower case, holds `term` in lower case.
pub open spec fn chunk_holds(chunk: ChunkView, term: Seq<char>) -> bool {
    contains_seq(lowercase_of(chunk.text), lowercase_of(term))
}

/// The chunks that hold `term`.
pub open spec fn chunks_holding(term: Seq<char>, chunks: Seq<ChunkView>) -> Seq<ChunkView> {
    chunks.filter(|chunk: ChunkView| chunk_holds(chunk, term))
}

/// The divisor of the inverse document frequency of `term`: the number of
/// chunks that hold it, and 1 where none does.
pub open spec fn spec_divisor(term: Seq<char>, chunks: Seq<ChunkView>) -> nat {
    if chunks_holding(term, chunks).len() == 0 {
        1
    } else {
        chunks_holding(term, chunks).len()
    }
}

/// Whether `score` is the score of `term` in a chunk with the text `text`
/// of the corpus `chunks`.
pub open spec fn is_score_of(
    score: TermScore,
    term: Seq<char>,
    text: Seq<char>,
    chunks: Seq<ChunkView>,
) -> bool {
    &&& score.tf.matches == spec_matches(term, text)
    &&& score.tf.words == spec_words(term, text)
    &&& score.idf.total == chunks.len()
    &&& score.idf.divisor == spec_divisor(term, chunks)
}

/// Counts the words of `text` that hold `term`. Both are put in lower case;
/// a word is what stands between white space, without the characters at its
/// end that are neither letters nor numbers; and a word counts where the term
/// occurs anywhere in it.
pub fn term_frequency(term: &str, text: &str) -> (tf: TermFrequency)
    ensures
        tf.matches == spec_matches(term@, text@),
        tf.words == spec_words(term@, text@),
        tf.wf(),
        text@.len() == 0 || term@.len() == 0 ==> tf.matches == 0 && tf.words == 0,
{
    if text.is_empty() || term.is_empty() {
        return TermFrequency { matches: 0, words: 0 };
    }
    let text_lower = lowercase(text);
    let term_lower = lowercase(term);
    let words = split_words(text_lower.as_str());
    let ghost all = words_of(lowercase_of(text@));
    let ghost counts = |word: Seq<char>| word_matches(word, lowercase_of(term@));
    let mut matches: usize = 0;
    let mut i: usize = 0;
    proof {
        reveal(Seq::filter);
        assert(all.take(0).filter(counts).len() == 0);
    }
    while i < words.len()
        invariant
            0 <= i <= words.len(),
            str_views(words@) == all,
            term_lower@ == lowercase_of(term@),
            counts == |word: Seq<char>| word_matches(word, lowercase_of(term@)),
            matches == all.take(i as int).filter(counts).len(),
            matches <= i,
        decreases words.len() - i,
    {
        let cleaned = trim_trailing(words[i]);
        let lowered = lowercase(cleaned);
        let found = contains_str(lowered.as_str(), term_lower.as_str());
        proof {
            assert(all[i as int] == words@[i as int]@);
            assert(found == counts(all[i as int]));
            assert(all.take(i + 1).drop_last() == all.take(i as int));
            reveal(Seq::filter);
        }
        if found {
            matches = matches + 1;
        }
        i = i + 1;
    }
    proof {
        assert(all.take(words.len() as int) == all);
    }
    TermFrequency { matches, words: words.len() }
}

/// Counts the chunks whose text holds `term`, both in lower case. Where no
/// chunk holds the term the divisor is 1, as if one did.
pub fn inverse_document_frequency(term: &str, chunks: &[Chunk]) -> (idf: InverseDocumentFrequency)
    ensures
        idf.total == chunks@.len(),
        idf.divisor == spec_divisor(term@, chunk_views(chunks@)),
        idf.wf(),
        chunks_holding(term@, chunk_views(chunks@)).len() == 0 ==> idf.divisor == 1,
{
    let term_lower = lowercase(term);
    let ghost all = chunk_views(chunks@);
    let ghost holds = |chunk: ChunkView| chunk_holds(chunk, term@);
    let mut holding: usize = 0;
    let mut i: usize = 0;
    proof {
        reveal(Seq::filter);
        assert(all.take(0).filter(holds).len() == 0);
    }
    while i < chunks.len()
        invariant
            0 <= i <= chunks.len(),
            all == chunk_views(chunks@),
            term_lower@ == lowercase_of(term@),
            holds == |chunk: ChunkView| chunk_holds(chunk, term@),
            holding == all.take(i as int).filter(holds).len(),
            holding <= i,
        decreases chunks.len() - i,
    {
        let text_lower = lowercase(chunks[i].text.as_str());
        let found = contains_str(text_lower.as_str(), term_lower.as_str());
        proof {
            assert(all[i as int] == chunks@[i as int]@);
            assert(found == holds(all[i as int]));
            assert(all.take(i + 1).drop_last() == all.take(i as int));
            reveal(Seq::filter);
        }
        if found {
            holding = holding + 1;
        }
        i = i + 1;
    }
    proof {
        assert(all.take(chunks.len() as int) == all);
    }
    InverseDocumentFrequency { total: chunks.len(), divisor: if holding == 0 { 1 } else { holding } }
}

/// The score of `term` in `chunk`, as a chunk of the corpus `all_chunks`.
/// It is zero where no word of the chunk holds the term.
pub fn tfidf_score(term: &str, chunk: &Chunk, all_chunks: &[Chunk]) -> (score: TermScore)
    ensures
        is_score_of(score, term@, chunk@.text, chunk_views(all_chunks@)),
        score.tf.wf(),
        score.idf.wf(),
        spec_matches(term@, chunk@.text) == 0 ==> score.is_zero(),
{
    TermScore {
        tf: term_frequency(term, chunk.text.as_str()),
        idf: inverse_document_frequency(term, all_chunks),
    }
}

/// Whether `row` holds the scores of the words of `query`, in their order, in
/// a chunk with the text `text` of the corpus `corpus`. A word that the query
/// holds twice has two scores.
pub open spec fn is_row_of(
    row: Seq<TermScore>,
    query: Seq<char>,
    text: Seq<char>,
    corpus: Seq<ChunkView>,
) -> bool {
    &&& row.len() == words_of(query).len()
    &&& forall|t: int|
        0 <= t < row.len() ==> is_score_of(#[trigger] row[t], words_of(query)[t], text, corpus)
}

/// Whether the score of the word at position `t` of `query` is above zero in
/// a chunk with the text `text`: a word of the chunk holds it, and not every
/// chunk of the corpus does.
pub open spec fn positive_at(
    query: Seq<char>,
    text: Seq<char>,
    corpus: Seq<ChunkView>,
    t: int,
) -> bool {
    &&& 0 <= t < words_of(query).len()
    &&& spec_matches(words_of(query)[t], text) > 0
    &&& corpus.len() > spec_divisor(words_of(query)[t], corpus)
}

/// Whether the score of a chunk for `query`, the sum of the scores of the
/// query's words, is above zero: no score is below zero, so the sum is above
/// zero exactly where one of them is.
pub open spec fn has_positive_score(
    query: Seq<char>,
    text: Seq<char>,
    corpus: Seq<ChunkView>,
) -> bool {
    exists|t: int| positive_at(query, text, corpus, t)
}

/// Whether `weight` is the weight of a chunk with the text `text`: zero where
/// the chunk's score is not above zero, and else what `weigh` gave for the
/// chunk's row of scores.
pub open spec fn is_weight_of<W: Fn(&Vec<TermScore>) -> u32>(
    weigh: W,
    query: Seq<char>,
    text: Seq<char>,
    corpus: Seq<ChunkView>,
    weight: u32,
) -> bool {
    if has_positive_score(query, text, corpus) {
        exists|row: Vec<TermScore>|
            is_row_of(row@, query, text, corpus) && #[trigger] call_ensures(
                weigh,
                (&row,),
                weight,
            )
    } else {
        weight == 0
    }
}

/// Whether `ranked` is what scoring `chunks` for `query` gives where the
/// chunks have the weights `weights`: every chunk has its weight, and
/// `ranked` holds the chunks with a weight above zero, each with its weight,
/// in the order of the ranking.
pub open spec fn is_scoring<W: Fn(&Vec<TermScore>) -> u32>(
    weigh: W,
    query: Seq<char>,
    chunks: Seq<Chunk>,
    weights: Seq<u32>,
    ranked: Seq<(Chunk, u32)>,
) -> bool {
    &&& weights.len() == chunks.len()
    &&& forall|i: int|
        0 <= i < chunks.len() ==> is_weight_of(
            weigh,
            query,
            chunks[i]@.text,
            chunk_views(chunks),
            #[trigger] weights[i],
        )
    &&& is_ranking(weights, ranking_of(weights))
    &&& ranked.len() == ranking_of(weights).len()
    &&& forall|k: int|
        0 <= k < ranked.len() ==> #[trigger] ranked[k] == (
            chunks[ranking_of(weights)[k] as int],
            weights[ranking_of(weights)[k] as int],
        )
}

/// What a listener is told while `count` chunks are scored: of each chunk as
/// it is taken up, and at the end that the work is done.
pub open spec fn scoring_reports(count: nat) -> Seq<Report> {
    Seq::new(count, |i: int| Report::Advance(1)).push(Report::Complete("TF IDF complete!"@))
}

/// The inverse document frequency of each term, computed once for the whole
/// corpus.
fn inverse_frequencies(terms: &Vec<&str>, chunks: &[Chunk]) -> (idfs: Vec<InverseDocumentFrequency>)
    ensures
        idfs@.len() == terms@.len(),
        forall|k: int|
            0 <= k < terms@.len() ==> {
                &&& (#[trigger] idfs@[k]).total == chunks@.len()
                &&& idfs@[k].divisor == spec_divisor(terms@[k]@, chunk_views(chunks@))
            },
{
    let mut idfs: Vec<InverseDocumentFrequency> = Vec::new();
    let mut t: usize = 0;
    while t < terms.len()
        invariant
            0 <= t <= terms.len(),
            idfs@.len() == t,
            forall|k: int|
                0 <= k < t ==> {
                    &&& (#[trigger] idfs@[k]).total == chunks@.len()
                    &&& idfs@[k].divisor == spec_divisor(terms@[k]@, chunk_views(chunks@))
                },
        decreases terms.len() - t,
    {
        idfs.push(inverse_document_frequency(terms[t], chunks));
        t = t + 1;
    }
    idfs
}

/// The scores of the terms in one chunk, and whether one of them is above
/// zero.
fn score_row(
    terms: &Vec<&str>,
    idfs: &Vec<InverseDocumentFrequency>,
    chunk: &Chunk,
    Ghost(query): Ghost<Seq<char>>,
    Ghost(corpus): Ghost<Seq<ChunkView>>,
) -> (scored: (Vec<TermScore>, bool))
    requires
        str_views(terms@) == words_of(query),
        idfs@.len() == terms@.len(),
        forall|k: int|
            0 <= k < terms@.len() ==> {
                &&& (#[trigger] idfs@[k]).total == corpus.len()
                &&& idfs@[k].divisor == spec_divisor(terms@[k]@, corpus)
            },
    ensures
        is_row_of(scored.0@, query, chunk@.text, corpus),
        scored.1 == has_positive_score(query, chunk@.text, corpus),
{
    let mut row: Vec<TermScore> = Vec::new();
    let mut positive = false;
    let mut t: usize = 0;
    while t < terms.len()
        invariant
            0 <= t <= terms.len(),
            row@.len() == t,
            str_views(terms@) == words_of(query),
            idfs@.len() == terms@.len(),
            forall|k: int|
                0 <= k < terms@.len() ==> {
                    &&& (#[trigger] idfs@[k]).total == corpus.len()
                    &&& idfs@[k].divisor == spec_divisor(terms@[k]@, corpus)
                },
            forall|k: int|
                0 <= k < t ==> is_score_of(
                    #[trigger] row@[k],
                    words_of(query)[k],
                    chunk@.text,
                    corpus,
                ),
            positive == exists|k: int| k < t && positive_at(query, chunk@.text, corpus, k),
        decreases terms.len() - t,
    {
        let score = TermScore { tf: term_frequency(terms[t], chunk.text.as_str()), idf: idfs[t] };
        proof {
            assert(str_views(terms@)[t as int] == terms@[t as int]@);
            assert(score.is_positive() == positive_at(query, chunk@.text, corpus, t as int));
        }
        if score.positive() {
            positive = true;
        }
        row.push(score);
        t = t + 1;
    }
    (row, positive)
}

/// Scores the chunks for a query and ranks them.
///
/// The score of a chunk is the sum, over the words of `query`, of the word's
/// term frequency in the chunk times its inverse document frequency in the
/// corpus; a word that the query holds twice counts twice. The library holds
/// the counts that the score is made of and decides from them, exactly,
/// whether it is above zero. The number itself is the caller's: for each
/// chunk with a score above zero `weigh` is handed the chunk's row of
/// scores, one for each word of the query, and gives the chunk's weight, an
/// unsigned number that orders as the scores do. A chunk whose score is not
/// above zero has the weight zero and is left out, and so is one that
/// `weigh` gives the weight zero. The others are returned with their
/// weights, the greater weight first and, among equal weights, the chunk
/// that stood earlier first.
///
/// The inverse document frequency of a term is computed once, not once for
/// each chunk. The reporter's listener is told of each chunk as it is taken
/// up, and at the end that the work is done.
pub fn score_chunks_tfidf<P: Progress, W: Fn(&Vec<TermScore>) -> u32>(
    query: &str,
    chunks: &[Chunk],
    reporter: &mut Reporter<P>,
    weigh: W,
) -> (ranked: Vec<(Chunk, u32)>)
    requires
        forall|row: &Vec<TermScore>| call_requires(weigh, (row,)),
    ensures
        exists|weights: Seq<u32>| is_scoring(weigh, query@, chunks@, weights, ranked@),
        forall|k: int| 0 <= k < ranked@.len() ==> (#[trigger] ranked@[k]).1 > 0,
        forall|a: int, b: int|
            0 <= a < b < ranked@.len() ==> (#[trigger] ranked@[a]).1 >= (#[trigger] ranked@[b]).1,
        forall|k: int|
            0 <= k < ranked@.len() ==> exists|i: int|
                0 <= i < chunks@.len() && (#[trigger] ranked@[k]).0 == chunks@[i]
                    && has_positive_score(query@, chunks@[i]@.text, chunk_views(chunks@)),
        (forall|i: int|
            0 <= i < chunks@.len() ==> !has_positive_score(
                query@,
                (#[trigger] chunks@[i])@.text,
                chunk_views(chunks@),
            )) ==> ranked@.len() == 0,
        words_of(query@).len() == 0 || chunks@.len() == 0 ==> ranked@.len() == 0,
        final(reporter).told() == old(reporter).told() + scoring_reports(chunks@.len()),
{
    let terms = split_words(query);
    let ghost corpus = chunk_views(chunks@);
    let idfs = inverse_frequencies(&terms, chunks);
    let mut weights: Vec<u32> = Vec::new();
    let mut i: usize = 0;
    proof {
        assert(reporter.told() == old(reporter).told() + Seq::new(0, |n: int| Report::Advance(1)));
    }
    while i < chunks.len()
        invariant
            0 <= i <= chunks.len(),
            weights@.len() == i,
            corpus == chunk_views(chunks@),
            str_views(terms@) == words_of(query@),
            idfs@.len() == terms@.len(),
            forall|row: &Vec<TermScore>| call_requires(weigh, (row,)),
            forall|k: int|
                0 <= k < terms@.len() ==> {
                    &&& (#[trigger] idfs@[k]).total == corpus.len()
                    &&& idfs@[k].divisor == spec_divisor(terms@[k]@, corpus)
                },
            forall|n: int|
                0 <= n < i ==> is_weight_of(
                    weigh,
                    query@,
                    chunks@[n]@.text,
                    corpus,
                    #[trigger] weights@[n],
                ),
            reporter.told() == old(reporter).told() + Seq::new(
                i as nat,
                |n: int| Report::Advance(1),
            ),
        decreases chunks.len() - i,
    {
        let ghost told = reporter.told();
        reporter.advance(1);
        proof {
            assert(Seq::new(i as nat, |n: int| Report::Advance(1)).push(Report::Advance(1))
                == Seq::new((i + 1) as nat, |n: int| Report::Advance(1)));
            assert(told.push(Report::Advance(1)) == old(reporter).told() + Seq::new(
                (i + 1) as nat,
                |n: int| Report::Advance(1),
            ));
        }
        let (row, positive) = score_row(&terms, &idfs, &chunks[i], Ghost(query@), Ghost(corpus));
        let weight = if positive {
            weigh(&row)
        } else {
            0
        };
        weights.push(weight);
        i = i + 1;
    }
    let ghost told = reporter.told();
    reporter.complete("TF IDF complete!");
    proof {
        assert(told.push(Report::Complete("TF IDF complete!"@)) == old(reporter).told()
            + scoring_reports(chunks@.len()));
    }
    let order = ranking(weights.as_slice());
    let mut ranked: Vec<(Chunk, u32)> = Vec::new();
    let mut k: usize = 0;
    while k < order.len()
        invariant
            0 <= k <= order.len(),
            ranked@.len() == k,
            weights@.len() == chunks@.len(),
            is_ranking(weights@, order@),
            forall|n: int|
                0 <= n < k ==> #[trigger] ranked@[n] == (
                    chunks@[order@[n] as int],
                    weights@[order@[n] as int],
                ),
        decreases order.len() - k,
    {
        let at = order[k];
        ranked.push((chunks[at].clone(), weights[at]));
        k = k + 1;
    }
    proof {
        assert(is_scoring(weigh, query@, chunks@, weights@, ranked@));
        assert forall|a: int, b: int| 0 <= a < b < ranked@.len() implies (#[trigger] ranked@[a]).1
            >= (#[trigger] ranked@[b]).1 by {
            assert(crate::ranking::precedes(weights@, order@[a], order@[b]));
        }
        assert forall|n: int| 0 <= n < ranked@.len() implies exists|i: int|
            0 <= i < chunks@.len() && (#[trigger] ranked@[n]).0 == chunks@[i] && has_positive_score(
                query@,
                chunks@[i]@.text,
                corpus,
            ) by {
            let i = order@[n] as int;
            assert(weights@[i] > 0);
            assert(is_weight_of(weigh, query@, chunks@[i]@.text, corpus, weights@[i]));
        }
        if forall|i: int|
            0 <= i < chunks@.len() ==> !has_positive_score(
                query@,
                (#[trigger] chunks@[i])@.text,
                corpus,
            ) {
            if ranked@.len() > 0 {
                let i = order@[0] as int;
                assert(weights@[i] > 0);
                assert(is_weight_of(weigh, query@, chunks@[i]@.text, corpus, weights@[i]));
                assert(!has_positive_score(query@, chunks@[i]@.text, corpus));
            }
        }
        if words_of(query@).len() == 0 && ranked@.len() > 0 {
            let i = order@[0] as int;
            assert(weights@[i] > 0);
            assert(is_weight_of(weigh, query@, chunks@[i]@.text, corpus, weights@[i]));
        }
        if chunks@.len() == 0 && ranked@.len() > 0 {
            assert(order@[0] < weights@.len());
        }
    }
    ranked
}

} // verus!
