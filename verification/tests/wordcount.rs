use map_reduce_rs::mr::function::wc;
use map_reduce_rs::mr::worker::KeyValue;

fn words(records: &[KeyValue]) -> Vec<&str> {
    records.iter().map(|r| r.key()).collect()
}

#[test]
fn map_gives_each_word_the_count_one() {
    let out = wc::map("a b a");
    assert_eq!(words(&out), vec!["a", "b", "a"]);
    assert!(out.iter().all(|r| r.value() == "1"));
}

#[test]
fn map_takes_out_the_punctuation() {
    let out = wc::map("Hello, world! It's a (fine) day; isn't-it?");
    assert_eq!(words(&out), vec!["Hello", "world", "Its", "a", "fine", "day", "isntit"]);
}

#[test]
fn map_keeps_word_characters_of_any_script() {
    let out = wc::map("naïve café_1 «日本語» 42");
    assert_eq!(words(&out), vec!["naïve", "café_1", "日本語", "42"]);
}

#[test]
fn map_of_nothing_is_empty() {
    assert!(wc::map("").is_empty());
    assert!(wc::map(" \n\t ").is_empty());
    assert!(wc::map("?!,.").is_empty());
}

#[test]
fn try_map_agrees_with_map() {
    assert!(wc::strips("a, b"));
    assert_eq!(wc::try_map("a, b"), Some(wc::map("a, b")));
}

#[test]
fn words_keeps_the_punctuation() {
    assert_eq!(words(&wc::words("a, b")), vec!["a,", "b"]);
}

#[test]
fn reduce_counts_the_values() {
    assert_eq!(wc::reduce("k", vec![]), "0");
    assert_eq!(wc::reduce("k", vec!["1"]), "1");
    assert_eq!(wc::reduce("k", vec!["1"; 12]), "12");
    assert_eq!(wc::reduce("", vec!["x", "y"]), "2");
}
