use parallel_dictionary::Dictionary;

fn sorted_ids(d: &Dictionary, word: &str) -> Vec<usize> {
    let mut ids = d.book_ids_of(word).expect("word should be present");
    ids.sort();
    ids
}

fn dicts_equal(a: &Dictionary, b: &Dictionary) -> bool {
    if a.len() != b.len() {
        return false;
    }
    for word in a.words() {
        match (a.count_of(word.as_str()), b.count_of(word.as_str())) {
            (Some(ca), Some(cb)) if ca == cb => {}
            _ => return false,
        }
        let mut ia = a.book_ids_of(word.as_str()).unwrap();
        let mut ib = match b.book_ids_of(word.as_str()) {
            Some(v) => v,
            None => return false,
        };
        ia.sort();
        ib.sort();
        if ia != ib {
            return false;
        }
    }
    true
}

#[test]
fn insert_counts_and_records_books() {
    let mut d = Dictionary::new();
    d.insert("cat", 0);
    d.insert("cat", 0);
    d.insert("dog", 1);
    assert_eq!(d.len(), 2);
    assert_eq!(d.count_of("cat"), Some(2));
    assert_eq!(d.count_of("dog"), Some(1));
    assert_eq!(d.count_of("fish"), None);
    assert_eq!(sorted_ids(&d, "cat"), vec![0]);
    assert_eq!(sorted_ids(&d, "dog"), vec![1]);
}

#[test]
fn book_ids_hold_no_duplicates() {
    let mut d = Dictionary::new();
    d.insert("cat", 3);
    d.insert("cat", 3);
    d.insert("cat", 7);
    assert_eq!(d.count_of("cat"), Some(3));
    assert_eq!(sorted_ids(&d, "cat"), vec![3, 7]);
}

#[test]
fn merge_adds_counts_and_unions_ids() {
    let mut a = Dictionary::new();
    a.insert("cat", 0);
    a.insert("cat", 0);
    let mut b = Dictionary::new();
    b.insert("cat", 1);
    b.insert("dog", 1);
    a.merge(&b);
    assert_eq!(a.len(), 2);
    assert_eq!(a.count_of("cat"), Some(3));
    assert_eq!(sorted_ids(&a, "cat"), vec![0, 1]);
    assert_eq!(a.count_of("dog"), Some(1));
    assert_eq!(sorted_ids(&a, "dog"), vec![1]);
}

#[test]
fn merge_is_commutative_on_values() {
    let mut a1 = Dictionary::new();
    a1.insert("cat", 0);
    a1.insert("dog", 0);
    let mut b1 = Dictionary::new();
    b1.insert("cat", 1);
    b1.insert("owl", 2);
    let mut a2 = Dictionary::new();
    a2.insert("cat", 0);
    a2.insert("dog", 0);
    let mut b2 = Dictionary::new();
    b2.insert("cat", 1);
    b2.insert("owl", 2);
    a1.merge(&b1);
    b2.merge(&a2);
    assert!(dicts_equal(&a1, &b2));
}

#[test]
fn merge_is_associative_on_values() {
    let build = |pairs: &[(&str, usize)]| {
        let mut d = Dictionary::new();
        for (w, id) in pairs {
            d.insert(w, *id);
        }
        d
    };
    let d1 = || build(&[("cat", 0), ("dog", 0)]);
    let d2 = || build(&[("cat", 1), ("owl", 1)]);
    let d3 = || build(&[("dog", 2), ("owl", 2)]);
    let mut left = d1();
    left.merge(&d2());
    left.merge(&d3());
    let mut right23 = d2();
    right23.merge(&d3());
    let mut right = d1();
    right.merge(&right23);
    assert!(dicts_equal(&left, &right));
}

#[test]
fn merge_with_empty_changes_nothing() {
    let mut a = Dictionary::new();
    a.insert("cat", 0);
    let before_count = a.count_of("cat");
    a.merge(&Dictionary::new());
    assert_eq!(a.len(), 1);
    assert_eq!(a.count_of("cat"), before_count);
}

#[test]
fn split_stream_then_merge_matches_direct_build() {
    // one word-occurrence stream over two books, built directly
    let stream: [(&str, usize); 6] =
        [("the", 0), ("cat", 0), ("the", 0), ("the", 1), ("dog", 1), ("cat", 1)];
    let mut direct = Dictionary::new();
    for (w, id) in stream {
        direct.insert(w, id);
    }
    // the same stream split per book and re-merged
    let mut part_a = Dictionary::new();
    let mut part_b = Dictionary::new();
    for (w, id) in stream {
        if id == 0 {
            part_a.insert(w, id);
        } else {
            part_b.insert(w, id);
        }
    }
    part_a.merge(&part_b);
    assert!(dicts_equal(&direct, &part_a));
}

#[test]
fn remove_single_occurrences_filters_count_one() {
    let mut d = Dictionary::new();
    d.insert("the", 0);
    d.insert("the", 1);
    d.insert("dog", 1);
    d.remove_single_occurrences();
    assert_eq!(d.len(), 1);
    assert_eq!(d.count_of("the"), Some(2));
    assert_eq!(d.count_of("dog"), None);
}

#[test]
fn remove_single_occurrences_is_idempotent() {
    let mut once = Dictionary::new();
    once.insert("the", 0);
    once.insert("the", 1);
    once.insert("dog", 1);
    once.remove_single_occurrences();
    let mut twice = Dictionary::new();
    twice.insert("the", 0);
    twice.insert("the", 1);
    twice.insert("dog", 1);
    twice.remove_single_occurrences();
    twice.remove_single_occurrences();
    assert!(dicts_equal(&once, &twice));
}
