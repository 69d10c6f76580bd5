use irc_index::tokens::{copy_term, same_term, tokenize};

fn words(text: &str) -> Vec<String> {
    tokenize(text).into_iter().map(|t| t.into_iter().collect()).collect()
}

#[test]
fn terms_are_runs_of_letters_and_digits() {
    assert_eq!(words("hello world"), vec!["hello", "world"]);
    assert_eq!(words("  hello,  world!! "), vec!["hello", "world"]);
    assert_eq!(words("<alice"), vec!["alice"]);
    assert_eq!(words("2020-01-01 12:34"), vec!["2020", "01", "01", "12", "34"]);
    assert_eq!(words("a_b"), vec!["a", "b"]);
}

#[test]
fn terms_are_case_folded() {
    assert_eq!(words("Hello WORLD hELLo"), vec!["hello", "world", "hello"]);
    assert_eq!(words("AZaz09"), vec!["azaz09"]);
}

#[test]
fn text_without_letters_or_digits_has_no_terms() {
    assert_eq!(words(""), Vec::<String>::new());
    assert_eq!(words(" \t...!?"), Vec::<String>::new());
}

#[test]
fn characters_beyond_ascii_separate_terms() {
    assert_eq!(words("caf\u{e9} au lait"), vec!["caf", "au", "lait"]);
    assert_eq!(words("\u{4e16}\u{754c}"), Vec::<String>::new());
    assert_eq!(words("a\u{c9}b"), vec!["a", "b"]);
}

#[test]
fn terms_keep_their_order_and_repeats() {
    assert_eq!(words("b a b a"), vec!["b", "a", "b", "a"]);
}

#[test]
fn same_term_compares_characters() {
    let a: Vec<char> = "abc".chars().collect();
    let b: Vec<char> = "abc".chars().collect();
    let c: Vec<char> = "abd".chars().collect();
    let d: Vec<char> = "ab".chars().collect();
    assert!(same_term(&a, &b));
    assert!(!same_term(&a, &c));
    assert!(!same_term(&a, &d));
    assert!(same_term(&copy_term(&a), &a));
}
