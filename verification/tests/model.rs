use text_search::model::{Document, Index, Term};

fn chars(text: &str) -> Vec<char> {
    text.chars().collect()
}

fn words(list: &[&str]) -> Vec<String> {
    list.iter().map(|word| word.to_string()).collect()
}

fn names(found: &[(String, Vec<Term>)]) -> Vec<&str> {
    found.iter().map(|entry| entry.0.as_str()).collect()
}

#[test]
fn new_index_is_empty() {
    let index = Index::new();
    assert_eq!(index.len(), 0);
    assert_eq!(index.document_frequency("cat"), 0);
    assert!(index.document("doc1").is_none());
}

#[test]
fn default_index_is_empty() {
    let index = Index::default();
    assert_eq!(index.len(), 0);
    assert!(index.search_query(&chars("cat")).is_empty());
}

#[test]
fn add_document_returns_the_number_of_tokens() {
    let mut index = Index::new();
    assert_eq!(index.add_document("doc1", &chars("the cat sat")), 3);
    assert_eq!(index.add_document("doc2", &chars("The cat; the CAT!")), 4);
    assert_eq!(index.add_document("doc3", &chars("")), 0);
    assert_eq!(index.add_document("doc4", &chars(" ... ")), 0);
    assert_eq!(index.len(), 4);
}

#[test]
fn document_counts_its_tokens() {
    let mut index = Index::new();
    index.add_document("doc", &chars("The cat saw the other cat; the end."));
    let document = index.document("doc").unwrap();
    assert_eq!(document.token_count(), 8);
    assert_eq!(document.occurrences("the"), 3);
    assert_eq!(document.occurrences("cat"), 2);
    assert_eq!(document.occurrences("saw"), 1);
    assert_eq!(document.occurrences("other"), 1);
    assert_eq!(document.occurrences("end"), 1);
    assert_eq!(document.occurrences("dog"), 0);
    assert_eq!(document.occurrences("The"), 0);
}

#[test]
fn token_count_is_the_sum_of_the_term_frequencies() {
    let document = Document::from_tokens(&words(&["a", "b", "a", "c", "a", "b"]));
    let sum = document.occurrences("a") + document.occurrences("b") + document.occurrences("c");
    assert_eq!(document.occurrences("a"), 3);
    assert_eq!(document.occurrences("b"), 2);
    assert_eq!(document.occurrences("c"), 1);
    assert_eq!(document.token_count(), 6);
    assert_eq!(sum, document.token_count());
}

#[test]
fn document_without_tokens_is_stored() {
    let mut index = Index::new();
    assert_eq!(index.add_document("blank", &chars("?!")), 0);
    assert_eq!(index.len(), 1);
    let document = index.document("blank").unwrap();
    assert_eq!(document.token_count(), 0);
    assert_eq!(document.occurrences("a"), 0);
}

#[test]
fn a_token_is_counted_once_for_each_document() {
    let mut index = Index::new();
    index.add_document("doc1", &chars("cat cat cat"));
    assert_eq!(index.document_frequency("cat"), 1);
    index.add_document("doc2", &chars("dog"));
    assert_eq!(index.document_frequency("cat"), 1);
    assert_eq!(index.document_frequency("dog"), 1);
    index.add_document("doc3", &chars("a cat and a dog and a cat"));
    assert_eq!(index.document_frequency("cat"), 2);
    assert_eq!(index.document_frequency("dog"), 2);
    assert_eq!(index.document_frequency("and"), 1);
    assert_eq!(index.document_frequency("a"), 1);
    assert_eq!(index.document_frequency("bird"), 0);
}

#[test]
fn no_token_is_counted_more_often_than_there_are_documents() {
    let mut index = Index::new();
    let texts = ["the cat sat", "the cat ran", "", "the the the", "a dog", "cat dog the"];
    for (i, text) in texts.iter().enumerate() {
        index.add_document(&format!("doc{i}"), &chars(text));
        for token in ["the", "cat", "sat", "ran", "a", "dog", "bird"] {
            assert!(index.document_frequency(token) <= index.len());
        }
    }
    assert_eq!(index.len(), 6);
    assert_eq!(index.document_frequency("the"), 4);
    assert_eq!(index.document_frequency("cat"), 3);
    assert_eq!(index.document_frequency("dog"), 2);
}

#[test]
fn ingesting_a_name_again_replaces_the_document() {
    let mut index = Index::new();
    index.add_document("doc1", &chars("old words"));
    index.add_document("doc2", &chars("other words"));
    index.add_document("doc1", &chars("new new text"));
    assert_eq!(index.len(), 2);
    let document = index.document("doc1").unwrap();
    assert_eq!(document.token_count(), 3);
    assert_eq!(document.occurrences("new"), 2);
    assert_eq!(document.occurrences("text"), 1);
    assert_eq!(document.occurrences("old"), 0);
    assert_eq!(document.occurrences("words"), 0);
    assert_eq!(names(&index.search_query(&chars(""))), vec!["doc1", "doc2"]);
}

#[test]
fn ingesting_a_name_again_keeps_the_earlier_counts() {
    let mut index = Index::new();
    index.add_document("doc1", &chars("cat"));
    index.add_document("doc1", &chars("cat"));
    assert_eq!(index.len(), 1);
    assert_eq!(index.document_frequency("cat"), 2);
    index.add_document("doc1", &chars("dog"));
    assert_eq!(index.document_frequency("cat"), 2);
    assert_eq!(index.document_frequency("dog"), 1);
}

#[test]
fn add_tokens_takes_the_tokens_as_they_are() {
    let mut index = Index::new();
    assert_eq!(index.add_tokens("doc", &words(&["b", "a", "b"])), 3);
    assert_eq!(index.document_frequency("b"), 1);
    assert_eq!(index.document_frequency("a"), 1);
    assert_eq!(index.document("doc").unwrap().occurrences("b"), 2);
    assert_eq!(index.add_tokens("none", &words(&[])), 0);
    assert_eq!(index.len(), 2);
}

#[test]
fn search_over_an_empty_index_finds_nothing() {
    let index = Index::new();
    assert!(index.search_query(&chars("cat")).is_empty());
    assert!(index.search_query(&chars("")).is_empty());
    assert!(index.search_tokens(&words(&["cat", "dog"])).is_empty());
}

#[test]
fn search_lists_every_document_with_its_terms() {
    let mut index = Index::new();
    index.add_document("doc1", &chars("the cat sat"));
    index.add_document("doc2", &chars("the cat ran"));
    index.add_document("doc3", &chars(""));
    let found = index.search_query(&chars("cat"));
    let term = Term { occurrences: 1, length: 3, containing: 2, corpus: 3 };
    assert_eq!(
        found,
        vec![
            ("doc1".to_string(), vec![term]),
            ("doc2".to_string(), vec![term]),
            ("doc3".to_string(), vec![]),
        ]
    );
}

#[test]
fn search_gives_the_counts_of_each_token() {
    let mut index = Index::new();
    index.add_document("long", &chars("a a a b c c d"));
    index.add_document("short", &chars("c"));
    let found = index.search_query(&chars("  C, a! "));
    assert_eq!(
        found,
        vec![
            (
                "long".to_string(),
                vec![
                    Term { occurrences: 2, length: 7, containing: 2, corpus: 2 },
                    Term { occurrences: 3, length: 7, containing: 1, corpus: 2 },
                ]
            ),
            ("short".to_string(), vec![Term { occurrences: 1, length: 1, containing: 2, corpus: 2 }]),
        ]
    );
}

#[test]
fn a_repeated_query_token_gives_a_term_each_time() {
    let mut index = Index::new();
    index.add_document("doc", &chars("cat dog"));
    let cat = Term { occurrences: 1, length: 2, containing: 1, corpus: 1 };
    let dog = Term { occurrences: 1, length: 2, containing: 1, corpus: 1 };
    let found = index.search_query(&chars("cat dog cat"));
    assert_eq!(found, vec![("doc".to_string(), vec![cat, dog, cat])]);
}

#[test]
fn a_token_that_no_document_holds_gives_no_term() {
    let mut index = Index::new();
    index.add_document("doc1", &chars("the cat sat"));
    index.add_document("doc2", &chars(""));
    let found = index.search_query(&chars("zebra"));
    assert_eq!(found, vec![("doc1".to_string(), vec![]), ("doc2".to_string(), vec![])]);
    assert_eq!(index.search_query(&chars("zebra cat zebra")), index.search_query(&chars("cat")));
}

#[test]
fn a_token_of_a_replaced_text_gives_no_term() {
    let mut index = Index::new();
    index.add_document("doc", &chars("cat"));
    index.add_document("doc", &chars("dog"));
    assert_eq!(index.document_frequency("cat"), 1);
    assert_eq!(index.search_query(&chars("cat")), vec![("doc".to_string(), vec![])]);
}

#[test]
fn the_counts_of_earlier_texts_show_in_the_terms() {
    let mut index = Index::new();
    index.add_document("doc", &chars("cat"));
    index.add_document("doc", &chars("cat cat"));
    let found = index.search_query(&chars("cat"));
    let term = Term { occurrences: 2, length: 2, containing: 2, corpus: 1 };
    assert_eq!(found, vec![("doc".to_string(), vec![term])]);
}

#[test]
fn search_lists_documents_in_the_order_of_ingestion() {
    let mut index = Index::new();
    index.add_document("zeta", &chars("x"));
    index.add_document("alpha", &chars("x"));
    index.add_document("mid", &chars("x"));
    index.add_document("alpha", &chars("y"));
    assert_eq!(names(&index.search_query(&chars("x"))), vec!["zeta", "alpha", "mid"]);
}

#[test]
fn the_same_query_gives_the_same_answer() {
    let mut index = Index::new();
    index.add_document("doc1", &chars("the cat sat"));
    index.add_document("doc2", &chars("the cat ran"));
    index.add_document("doc3", &chars(""));
    let first = index.search_query(&chars("the cat"));
    let second = index.search_query(&chars("the cat"));
    assert_eq!(first, second);
    assert_eq!(index.len(), 3);
}

#[test]
fn search_tokens_answers_as_search_query_does() {
    let mut index = Index::new();
    index.add_document("doc1", &chars("the cat sat"));
    index.add_document("doc2", &chars("a dog"));
    assert_eq!(
        index.search_tokens(&words(&["cat", "dog"])),
        index.search_query(&chars("Cat & Dog"))
    );
}

#[test]
fn try_add_document_ingests_as_add_document_does() {
    let mut tried = Index::new();
    let mut added = Index::new();
    let texts = [("doc1", "the cat sat"), ("doc2", ""), ("doc1", "the cat, the dog"), ("doc3", "dog")];
    for (name, text) in texts {
        let count = added.add_document(name, &chars(text));
        assert_eq!(tried.try_add_document(name, &chars(text)), Some(count));
    }
    assert_eq!(tried.len(), 3);
    for token in ["the", "cat", "sat", "dog", "bird"] {
        assert_eq!(tried.document_frequency(token), added.document_frequency(token));
    }
    assert_eq!(tried.document_frequency("the"), 2);
    assert_eq!(tried.document_frequency("dog"), 2);
    assert_eq!(tried.search_query(&chars("the dog")), added.search_query(&chars("the dog")));
}

#[test]
fn try_add_tokens_counts_each_token_once() {
    let mut index = Index::new();
    assert_eq!(index.try_add_tokens("doc1", &words(&["t", "u", "t", "t"])), Some(4));
    assert_eq!(index.document_frequency("t"), 1);
    assert_eq!(index.document_frequency("u"), 1);
    assert_eq!(index.try_add_tokens("doc2", &words(&["t"])), Some(1));
    assert_eq!(index.document_frequency("t"), 2);
    assert_eq!(index.document_frequency("u"), 1);
    assert_eq!(index.try_add_tokens("doc3", &words(&[])), Some(0));
    assert_eq!(index.document_frequency("t"), 2);
    assert_eq!(index.len(), 3);
}

#[test]
fn ingesting_counts_each_token_of_the_text_once_more() {
    let mut index = Index::new();
    index.add_document("doc1", &chars("a b b c c c"));
    let tokens = ["a", "b", "c", "d", "e"];
    let before: Vec<usize> = tokens.iter().map(|token| index.document_frequency(token)).collect();
    assert_eq!(before, vec![1, 1, 1, 0, 0]);
    index.add_document("doc2", &chars("c c c d b"));
    let after: Vec<usize> = tokens.iter().map(|token| index.document_frequency(token)).collect();
    assert_eq!(after, vec![1, 2, 2, 1, 0]);
}
