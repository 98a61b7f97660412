use text_search::model::{Index, Term};
use text_search::ranking::rank;

fn chars(text: &str) -> Vec<char> {
    text.chars().collect()
}

fn score(terms: &[Term]) -> f32 {
    let mut score = 0f32;
    for term in terms {
        let frequency = term.occurrences as f32 / term.length as f32;
        let rarity = (term.corpus as f32 / term.containing as f32).log10();
        score += frequency * rarity;
    }
    score
}

fn key_of(score: f32) -> i32 {
    let bits = (score + 0.0).to_bits() as i32;
    bits ^ (((bits >> 31) as u32) >> 1) as i32
}

fn score_of(key: i32) -> f32 {
    f32::from_bits((key ^ (((key >> 31) as u32) >> 1) as i32) as u32)
}

fn search(index: &Index, query: &str) -> Vec<(String, f32)> {
    let scored = index
        .search_query(&chars(query))
        .into_iter()
        .map(|(name, terms)| (name, key_of(score(&terms))))
        .collect();
    rank(scored).into_iter().map(|(name, key)| (name, score_of(key))).collect()
}

fn cats() -> Index {
    let mut index = Index::new();
    index.add_document("doc1", &chars("the cat sat"));
    index.add_document("doc2", &chars("the cat ran"));
    index.add_document("doc3", &chars(""));
    index
}

#[test]
fn keys_are_ordered_as_scores() {
    let scores = [f32::NEG_INFINITY, -3.5, -1e-30, 0.0, 1e-30, 0.0586971, 0.25, 19.0, f32::INFINITY];
    for a in scores {
        assert_eq!(score_of(key_of(a)), a);
        for b in scores {
            assert_eq!(key_of(a) < key_of(b), a < b);
            assert_eq!(key_of(a) == key_of(b), a == b);
        }
    }
    assert_eq!(key_of(-0.0), key_of(0.0));
    assert_eq!(key_of(0.0), 0);
}

#[test]
fn documents_with_the_token_outrank_the_empty_one() {
    let ranked = search(&cats(), "cat");
    assert_eq!(ranked.len(), 3);
    assert_eq!(ranked[0].0, "doc1");
    assert_eq!(ranked[1].0, "doc2");
    assert_eq!(ranked[2].0, "doc3");
    assert_eq!(ranked[0].1, ranked[1].1);
    assert!(ranked[0].1 > 0.0);
    assert_eq!(ranked[2].1, 0.0);
    assert!(ranked[1].1 > ranked[2].1);
}

#[test]
fn the_score_is_frequency_times_rarity() {
    let ranked = search(&cats(), "cat");
    let expected = (1f32 / 3f32) * (3f32 / 2f32).log10();
    assert_eq!(ranked[0].1, expected);
    assert!((ranked[0].1 - 0.058697).abs() < 1e-6);
    let ranked = search(&cats(), "sat");
    let expected = (1f32 / 3f32) * (3f32 / 1f32).log10();
    assert_eq!(ranked[0], ("doc1".to_string(), expected));
    assert!((ranked[0].1 - 0.159040).abs() < 1e-6);
    assert_eq!(ranked[1], ("doc2".to_string(), 0.0));
    assert_eq!(ranked[2], ("doc3".to_string(), 0.0));
}

#[test]
fn the_score_is_a_sum_over_the_query() {
    let ranked = search(&cats(), "cat ran cat");
    let cat = (1f32 / 3f32) * (3f32 / 2f32).log10();
    let ran = (1f32 / 3f32) * (3f32 / 1f32).log10();
    assert_eq!(ranked[0], ("doc2".to_string(), cat + ran + cat));
    assert_eq!(ranked[1], ("doc1".to_string(), cat + cat));
    assert_eq!(ranked[2], ("doc3".to_string(), 0.0));
}

#[test]
fn a_token_in_every_document_weighs_nothing() {
    let mut index = Index::new();
    index.add_document("doc1", &chars("the cat"));
    index.add_document("doc2", &chars("the dog"));
    let ranked = search(&index, "the");
    assert_eq!(ranked, vec![("doc1".to_string(), 0.0), ("doc2".to_string(), 0.0)]);
}

#[test]
fn an_unknown_token_adds_nothing_to_any_score() {
    let index = cats();
    let ranked = search(&index, "zebra");
    assert_eq!(
        ranked,
        vec![("doc1".to_string(), 0.0), ("doc2".to_string(), 0.0), ("doc3".to_string(), 0.0)]
    );
    assert_eq!(search(&index, "zebra sat zebra"), search(&index, "sat"));
}

#[test]
fn every_document_has_a_score_that_can_be_compared() {
    let mut index = Index::new();
    index.add_document("blank", &chars(""));
    index.add_document("signs", &chars("?!"));
    index.add_document("words", &chars("a cat"));
    index.add_document("words", &chars("a cat and a cat"));
    for query in ["", "cat", "zebra", "a cat zebra", "?!", "a a a a"] {
        let ranked = search(&index, query);
        assert_eq!(ranked.len(), 3);
        for entry in &ranked {
            assert!(entry.1.is_finite());
        }
        for pair in ranked.windows(2) {
            assert!(pair[0].1 >= pair[1].1);
        }
    }
    let ranked = search(&index, "cat");
    assert_eq!(ranked[0], ("words".to_string(), (2f32 / 5f32) * (3f32 / 2f32).log10()));
    assert_eq!(ranked[1], ("blank".to_string(), 0.0));
    assert_eq!(ranked[2], ("signs".to_string(), 0.0));
}

#[test]
fn an_index_of_empty_documents_ranks_them_by_name() {
    let mut index = Index::new();
    index.add_document("b", &chars(""));
    index.add_document("a", &chars(""));
    let ranked = search(&index, "cat");
    assert_eq!(ranked, vec![("a".to_string(), 0.0), ("b".to_string(), 0.0)]);
}

#[test]
fn search_over_nothing_ranks_nothing() {
    assert!(search(&Index::new(), "cat").is_empty());
}

#[test]
fn the_same_query_ranks_the_same() {
    let index = cats();
    let first = search(&index, "the cat sat");
    let second = search(&index, "the cat sat");
    assert_eq!(first, second);
    assert_eq!(first[0].0, "doc1");
    assert_eq!(first[1].0, "doc2");
    assert_eq!(first[2].0, "doc3");
}

#[test]
fn ties_do_not_depend_on_the_order_of_ingestion() {
    let mut forward = Index::new();
    forward.add_document("doc1", &chars("the cat sat"));
    forward.add_document("doc2", &chars("the cat ran"));
    let mut backward = Index::new();
    backward.add_document("doc2", &chars("the cat ran"));
    backward.add_document("doc1", &chars("the cat sat"));
    assert_eq!(search(&forward, "cat"), search(&backward, "cat"));
    assert_eq!(search(&backward, "cat")[0].0, "doc1");
}

#[test]
fn stale_counts_can_push_a_score_below_nothing() {
    let mut index = Index::new();
    index.add_document("blank", &chars(""));
    index.add_document("cats", &chars("cat"));
    index.add_document("cats", &chars("cat"));
    index.add_document("cats", &chars("cat"));
    let ranked = search(&index, "cat");
    assert_eq!(ranked[0], ("blank".to_string(), 0.0));
    assert_eq!(ranked[1], ("cats".to_string(), (2f32 / 3f32).log10()));
    assert!(ranked[1].1 < 0.0);
}
