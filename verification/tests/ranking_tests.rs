use doc_search::chunker::Chunk;
use doc_search::ranking::{rank_scored_chunks, ranking};

fn scored(text: &str, index: usize, weight: u32) -> (Chunk, u32) {
    (Chunk { text: text.to_string(), file: "doc".to_string(), index }, weight)
}

#[test]
fn ranking_keeps_positive_weights_in_descending_order() {
    assert_eq!(ranking(&[0, 5, 3, 5, 0, 1]), vec![1, 3, 2, 5]);
    assert_eq!(ranking(&[1, 2, 3, 4]), vec![3, 2, 1, 0]);
    assert_eq!(ranking(&[7]), vec![0]);
}

#[test]
fn ranking_of_nothing_is_empty() {
    assert!(ranking(&[]).is_empty());
    assert!(ranking(&[0, 0, 0]).is_empty());
}

#[test]
fn equal_weights_keep_their_order() {
    assert_eq!(ranking(&[2, 2, 2, 9, 2]), vec![3, 0, 1, 2, 4]);
}

#[test]
fn ranking_of_many_weights_is_sorted() {
    let weights: Vec<u32> = (0..5000u32).map(|i| (i * 7919) % 1000).collect();
    let order = ranking(&weights);
    assert_eq!(order.len(), weights.iter().filter(|w| **w > 0).count());
    for pair in order.windows(2) {
        let (a, b) = (pair[0], pair[1]);
        assert!(weights[a] > weights[b] || (weights[a] == weights[b] && a < b));
    }
}

#[test]
fn ranked_chunks_have_positive_descending_weights() {
    let input = vec![
        scored("a", 0, 3),
        scored("b", 1, 0),
        scored("c", 2, 9),
        scored("d", 3, 3),
        scored("e", 4, 1),
    ];
    let ranked = rank_scored_chunks(&input);
    let texts: Vec<&str> = ranked.iter().map(|(chunk, _)| chunk.text.as_str()).collect();
    let weights: Vec<u32> = ranked.iter().map(|(_, weight)| *weight).collect();
    assert_eq!(texts, vec!["c", "a", "d", "e"]);
    assert_eq!(weights, vec![9, 3, 3, 1]);
    assert_eq!(ranked[1].0.index, 0);
    assert_eq!(ranked[0].0.file, "doc");
    assert!(rank_scored_chunks(&[]).is_empty());
}
