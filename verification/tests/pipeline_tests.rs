use parallel_dictionary::{process_books, run_pipeline, BookSource, Dictionary};

fn text(lines: &[&str]) -> BookSource {
    BookSource::Text { lines: lines.iter().map(|l| Some(l.to_string())).collect() }
}

fn unreadable(reason: &str) -> BookSource {
    BookSource::Unreadable { reason: reason.to_string() }
}

fn sorted_ids(d: &Dictionary, word: &str) -> Vec<usize> {
    let mut ids = d.book_ids_of(word).expect("word should be present");
    ids.sort();
    ids
}

fn dicts_equal(a: &Dictionary, b: &Dictionary) -> bool {
    if a.len() != b.len() {
        return false;
    }
    for word in a.words() {
        if a.count_of(word.as_str()) != b.count_of(word.as_str()) {
            return false;
        }
        let mut ia = a.book_ids_of(word.as_str()).unwrap();
        let mut ib = match b.book_ids_of(word.as_str()) {
            Some(v) => v,
            None => return false,
        };
        ia.sort();
        ib.sort();
        if ia != ib {
            return false;
        }
    }
    true
}

#[test]
fn end_to_end_three_books() {
    let books = vec![text(&["the cat"]), text(&["the dog"]), text(&["a cat"])];

    // pre-filter dictionary over all three books
    let (pre, warnings) = process_books(&books, 0, 3);
    assert!(warnings.is_empty());
    assert_eq!(pre.len(), 4);
    assert_eq!(pre.count_of("the"), Some(2));
    assert_eq!(sorted_ids(&pre, "the"), vec![0, 1]);
    assert_eq!(pre.count_of("cat"), Some(2));
    assert_eq!(sorted_ids(&pre, "cat"), vec![0, 2]);
    assert_eq!(pre.count_of("dog"), Some(1));
    assert_eq!(sorted_ids(&pre, "dog"), vec![1]);
    assert_eq!(pre.count_of("a"), Some(1));
    assert_eq!(sorted_ids(&pre, "a"), vec![2]);

    // after the post filter only `the` and `cat` remain
    let (fin, warnings) = run_pipeline(&books, 2);
    assert!(warnings.is_empty());
    assert_eq!(fin.len(), 2);
    assert_eq!(fin.count_of("the"), Some(2));
    assert_eq!(fin.count_of("cat"), Some(2));
    assert_eq!(fin.count_of("dog"), None);
    assert_eq!(fin.count_of("a"), None);
}

#[test]
fn worker_count_does_not_change_the_result() {
    let books = vec![
        text(&["the cat sat", "on the mat"]),
        text(&["the dog"]),
        text(&["a cat and a dog"]),
        text(&["mat and cat"]),
        text(&["on and on"]),
    ];
    let (d1, w1) = run_pipeline(&books, 1);
    let (d2, w2) = run_pipeline(&books, 2);
    let (d8, w8) = run_pipeline(&books, 8);
    assert!(dicts_equal(&d1, &d2));
    assert!(dicts_equal(&d1, &d8));
    assert!(w1.is_empty() && w2.is_empty() && w8.is_empty());
}

#[test]
fn unreadable_last_book_changes_nothing_but_the_warning() {
    let with_failure = vec![text(&["the cat"]), text(&["the dog"]), unreadable("permission denied")];
    let without = vec![text(&["the cat"]), text(&["the dog"])];
    let (da, wa) = run_pipeline(&with_failure, 2);
    let (db, wb) = run_pipeline(&without, 2);
    assert!(dicts_equal(&da, &db));
    assert!(wb.is_empty());
    assert_eq!(wa.len(), 1);
    assert_eq!(wa[0].book_id, 2);
    assert_eq!(wa[0].reason, "permission denied");
}

#[test]
fn unreadable_book_keeps_later_ids_stable() {
    let books = vec![text(&["the cat"]), unreadable("gone"), text(&["a cat"])];
    let (d, warnings) = run_pipeline(&books, 3);
    assert_eq!(warnings.len(), 1);
    assert_eq!(warnings[0].book_id, 1);
    assert_eq!(warnings[0].reason, "gone");
    // `cat` appears in books 0 and 2; ids are assigned by global position,
    // so the unreadable book in the middle shifts nothing
    assert_eq!(d.len(), 1);
    assert_eq!(d.count_of("cat"), Some(2));
    assert_eq!(sorted_ids(&d, "cat"), vec![0, 2]);
}

#[test]
fn undecodable_lines_are_skipped() {
    let books = vec![BookSource::Text {
        lines: vec![Some("the cat".to_string()), None, Some("the dog".to_string())],
    }];
    let (d, warnings) = process_books(&books, 0, 1);
    assert!(warnings.is_empty());
    assert_eq!(d.count_of("the"), Some(2));
    assert_eq!(d.count_of("cat"), Some(1));
    assert_eq!(d.count_of("dog"), Some(1));
}

#[test]
fn process_books_covers_only_its_range() {
    let books = vec![text(&["alpha beta"]), text(&["beta gamma"]), text(&["gamma delta"])];
    let (d, warnings) = process_books(&books, 1, 2);
    assert!(warnings.is_empty());
    assert_eq!(d.len(), 2);
    assert_eq!(d.count_of("beta"), Some(1));
    assert_eq!(sorted_ids(&d, "beta"), vec![1]);
    assert_eq!(d.count_of("gamma"), Some(1));
    assert_eq!(d.count_of("alpha"), None);
}

#[test]
fn empty_file_list_gives_empty_dictionary() {
    let books: Vec<BookSource> = Vec::new();
    let (d, warnings) = run_pipeline(&books, 4);
    assert_eq!(d.len(), 0);
    assert!(warnings.is_empty());
}

#[test]
fn merge_after_split_matches_single_build() {
    // the same corpus built in one pass and as two merged partials
    let books = vec![text(&["the cat"]), text(&["the dog"]), text(&["a cat"])];
    let (whole, _) = process_books(&books, 0, 3);
    let (mut left, _) = process_books(&books, 0, 1);
    let (right, _) = process_books(&books, 1, 3);
    left.merge(&right);
    assert!(dicts_equal(&whole, &left));
}
