use parallel_dictionary::split_to_words;

#[test]
fn splits_words_and_lowercases() {
    assert_eq!(split_to_words("Hello, World!"), vec!["hello", "world"]);
}

#[test]
fn empty_line_gives_no_words() {
    assert_eq!(split_to_words(""), Vec::<String>::new());
}

#[test]
fn digits_terminate_runs() {
    assert_eq!(split_to_words("123abc456"), vec!["abc"]);
}

#[test]
fn trailing_run_is_emitted() {
    assert_eq!(split_to_words("the cat"), vec!["the", "cat"]);
    assert_eq!(split_to_words("end-of-line word"), vec!["end", "of", "line", "word"]);
}

#[test]
fn only_non_alphabetic_gives_no_words() {
    assert_eq!(split_to_words(" ?! 42 ... "), Vec::<String>::new());
}

#[test]
fn case_folding_is_applied_per_word() {
    assert_eq!(split_to_words("MIXED case WoRdS"), vec!["mixed", "case", "words"]);
}

#[test]
fn non_ascii_letters_form_words() {
    assert_eq!(split_to_words("Über Äpfel!"), vec!["über", "äpfel"]);
}
