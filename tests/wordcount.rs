use rust_in_action::wordcount::{count, CountOption};

fn lines(text: &[&str]) -> Vec<String> {
    text.iter().map(|l| l.to_string()).collect()
}

fn frequency(freqs: &[(String, usize)], key: &str) -> Option<usize> {
    freqs.iter().find(|(k, _)| k == key).map(|(_, n)| *n)
}

#[test]
fn counts_words() {
    let actual = count(&lines(&["aa bb cc bb"]), CountOption::Word);
    assert_eq!(actual.len(), 3);
    assert_eq!(frequency(&actual, "aa"), Some(1));
    assert_eq!(frequency(&actual, "bb"), Some(2));
    assert_eq!(frequency(&actual, "cc"), Some(1));
}

#[test]
fn words_skip_punctuation_across_lines() {
    let actual = count(&lines(&["Hello, world!", "hello world_2 -- world"]), CountOption::Word);
    assert_eq!(actual.len(), 4);
    assert_eq!(frequency(&actual, "Hello"), Some(1));
    assert_eq!(frequency(&actual, "hello"), Some(1));
    assert_eq!(frequency(&actual, "world"), Some(2));
    assert_eq!(frequency(&actual, "world_2"), Some(1));
    assert_eq!(frequency(&actual, "--"), None);
}

#[test]
fn counts_chars() {
    let actual = count(&lines(&["abca", "é a"]), CountOption::Char);
    assert_eq!(frequency(&actual, "a"), Some(3));
    assert_eq!(frequency(&actual, "b"), Some(1));
    assert_eq!(frequency(&actual, "c"), Some(1));
    assert_eq!(frequency(&actual, "é"), Some(1));
    assert_eq!(frequency(&actual, " "), Some(1));
    assert_eq!(actual.len(), 5);
}

#[test]
fn counts_lines() {
    let actual = count(&lines(&["x y", "z", "x y", ""]), CountOption::Line);
    assert_eq!(actual.len(), 3);
    assert_eq!(frequency(&actual, "x y"), Some(2));
    assert_eq!(frequency(&actual, "z"), Some(1));
    assert_eq!(frequency(&actual, ""), Some(1));
}

#[test]
fn empty_input_counts_nothing() {
    assert!(count(&lines(&[]), CountOption::Word).is_empty());
    assert!(count(&lines(&["", "  "]), CountOption::Word).is_empty());
    assert!(count(&lines(&[""]), CountOption::Char).is_empty());
}

#[test]
fn default_option_counts_words() {
    assert_eq!(CountOption::default(), CountOption::Word);
}
