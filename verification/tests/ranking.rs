use text_search::ranking::{letters_of, precedes, rank};

fn chars(text: &str) -> Vec<char> {
    text.chars().collect()
}

fn entries(list: &[(&str, i32)]) -> Vec<(String, i32)> {
    list.iter().map(|entry| (entry.0.to_string(), entry.1)).collect()
}

#[test]
fn rank_of_nothing_is_nothing() {
    assert_eq!(rank(Vec::new()), Vec::<(String, i32)>::new());
}

#[test]
fn rank_of_one_entry_is_that_entry() {
    assert_eq!(rank(entries(&[("only", -4)])), entries(&[("only", -4)]));
}

#[test]
fn rank_puts_the_highest_score_first() {
    let ranked = rank(entries(&[("a", 1), ("b", 3), ("c", 2), ("d", 0), ("e", -1)]));
    assert_eq!(ranked, entries(&[("b", 3), ("c", 2), ("a", 1), ("d", 0), ("e", -1)]));
}

#[test]
fn rank_orders_the_extremes() {
    let ranked = rank(entries(&[("low", i32::MIN), ("zero", 0), ("high", i32::MAX)]));
    assert_eq!(ranked, entries(&[("high", i32::MAX), ("zero", 0), ("low", i32::MIN)]));
}

#[test]
fn rank_breaks_ties_by_name() {
    let ranked = rank(entries(&[("doc2", 5), ("doc3", 0), ("doc1", 5), ("doc0", 0)]));
    assert_eq!(ranked, entries(&[("doc1", 5), ("doc2", 5), ("doc0", 0), ("doc3", 0)]));
}

#[test]
fn rank_orders_names_by_code_point() {
    let ranked = rank(entries(&[("é", 1), ("ab", 1), ("a", 1), ("B", 1), ("", 1), ("z", 1)]));
    assert_eq!(ranked, entries(&[("", 1), ("B", 1), ("a", 1), ("ab", 1), ("z", 1), ("é", 1)]));
}

#[test]
fn rank_keeps_equal_entries() {
    let ranked = rank(entries(&[("a", 1), ("b", 2), ("a", 1), ("a", 2)]));
    assert_eq!(ranked, entries(&[("a", 2), ("b", 2), ("a", 1), ("a", 1)]));
}

#[test]
fn rank_does_not_depend_on_the_order_of_its_input() {
    let expected = entries(&[("c", 9), ("a", 4), ("b", 4), ("d", 4), ("e", -2)]);
    let orders = [
        [("a", 4), ("b", 4), ("c", 9), ("d", 4), ("e", -2)],
        [("e", -2), ("d", 4), ("c", 9), ("b", 4), ("a", 4)],
        [("d", 4), ("e", -2), ("a", 4), ("c", 9), ("b", 4)],
        [("c", 9), ("a", 4), ("b", 4), ("d", 4), ("e", -2)],
    ];
    for order in orders {
        assert_eq!(rank(entries(&order)), expected);
    }
}

#[test]
fn ranking_a_ranking_changes_nothing() {
    let once = rank(entries(&[("x", 1), ("y", 1), ("w", 3), ("v", 2)]));
    let twice = rank(once.clone());
    assert_eq!(once, twice);
}

#[test]
fn letters_of_gives_the_characters() {
    assert_eq!(letters_of(""), Vec::<char>::new());
    assert_eq!(letters_of("doc1"), vec!['d', 'o', 'c', '1']);
    assert_eq!(letters_of("é→日"), vec!['é', '→', '日']);
}

#[test]
fn precedes_is_the_order_of_the_dictionary() {
    assert!(precedes(&chars(""), &chars("")));
    assert!(precedes(&chars(""), &chars("a")));
    assert!(!precedes(&chars("a"), &chars("")));
    assert!(precedes(&chars("a"), &chars("a")));
    assert!(precedes(&chars("a"), &chars("b")));
    assert!(!precedes(&chars("b"), &chars("a")));
    assert!(precedes(&chars("a"), &chars("ab")));
    assert!(!precedes(&chars("ab"), &chars("a")));
    assert!(precedes(&chars("abc"), &chars("abd")));
    assert!(precedes(&chars("abd"), &chars("b")));
    assert!(precedes(&chars("Z"), &chars("a")));
    assert!(precedes(&chars("doc10"), &chars("doc2")));
}

#[test]
fn precedes_agrees_with_the_order_of_strings() {
    let names = ["", "a", "B", "ab", "abc", "b", "é", "z", "日本", "doc1", "doc10", "doc2"];
    for a in names {
        for b in names {
            assert_eq!(precedes(&chars(a), &chars(b)), a <= b);
        }
    }
}
