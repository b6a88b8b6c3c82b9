use mapreduce::evaluator::{evaluate, EvaluateError};
use mapreduce::wordcount::{count_words, create_pairs, reduce_pairs, Overflow};

fn ones(words: &[&str]) -> Vec<(String, isize)> {
    words.iter().map(|w| (w.to_string(), 1)).collect()
}

fn counts(pairs: &[(&str, isize)]) -> Vec<(String, isize)> {
    pairs.iter().map(|p| (p.0.to_string(), p.1)).collect()
}

#[test]
fn create_pairs_emits_each_word_with_one() {
    assert_eq!(
        create_pairs(&"these are words".to_string()),
        Ok(ones(&["these", "are", "words"]))
    );
}

#[test]
fn create_pairs_on_a_single_word() {
    assert_eq!(create_pairs(&"word".to_string()), Ok(ones(&["word"])));
}

#[test]
fn create_pairs_on_an_empty_line_gives_one_empty_word() {
    assert_eq!(create_pairs(&String::new()), Ok(ones(&[""])));
}

#[test]
fn create_pairs_keeps_empty_words_between_spaces() {
    assert_eq!(create_pairs(&"a  b".to_string()), Ok(ones(&["a", "", "b"])));
    assert_eq!(create_pairs(&" a ".to_string()), Ok(ones(&["", "a", ""])));
    assert_eq!(create_pairs(&" ".to_string()), Ok(ones(&["", ""])));
}

#[test]
fn create_pairs_splits_on_spaces_only() {
    assert_eq!(create_pairs(&"a\tb c\nd".to_string()), Ok(ones(&["a\tb", "c\nd"])));
}

#[test]
fn create_pairs_handles_characters_of_several_bytes() {
    assert_eq!(
        create_pairs(&"żółw é 日本語 x".to_string()),
        Ok(ones(&["żółw", "é", "日本語", "x"]))
    );
}

#[test]
fn create_pairs_agrees_with_split() {
    for line in ["", " ", "a", "a b", "  lead", "trail  ", "x  y   z", "ünï cödé"] {
        let expected: Vec<(String, isize)> =
            line.split(' ').map(|w| (w.to_string(), 1)).collect();
        assert_eq!(create_pairs(&line.to_string()), Ok(expected));
    }
}

#[test]
fn reduce_pairs_sums_the_values() {
    assert_eq!(
        reduce_pairs("words".to_string(), vec![1, 1, 1]),
        Ok(counts(&[("words", 3)]))
    );
    assert_eq!(
        reduce_pairs("mixed".to_string(), vec![5, -7, 2, -10]),
        Ok(counts(&[("mixed", -10)]))
    );
}

#[test]
fn reduce_pairs_of_no_values_is_zero() {
    assert_eq!(reduce_pairs("none".to_string(), Vec::new()), Ok(counts(&[("none", 0)])));
}

#[test]
fn reduce_pairs_fails_where_the_sum_does_not_fit() {
    assert_eq!(reduce_pairs("big".to_string(), vec![isize::MAX, 1]), Err(Overflow));
    assert_eq!(reduce_pairs("small".to_string(), vec![isize::MIN, -1]), Err(Overflow));
    assert_eq!(
        reduce_pairs("many".to_string(), vec![isize::MAX, isize::MAX, isize::MAX]),
        Err(Overflow)
    );
}

#[test]
fn reduce_pairs_goes_by_the_whole_sum() {
    assert_eq!(
        reduce_pairs("edge".to_string(), vec![isize::MAX, 1, -1]),
        Ok(counts(&[("edge", isize::MAX)]))
    );
    assert_eq!(
        reduce_pairs("edge".to_string(), vec![isize::MIN, -5, 5]),
        Ok(counts(&[("edge", isize::MIN)]))
    );
    assert_eq!(
        reduce_pairs("edge".to_string(), vec![isize::MAX, isize::MIN]),
        Ok(counts(&[("edge", -1)]))
    );
}

#[test]
fn evaluate_with_the_word_count_functions() {
    let records: Vec<String> = vec![
        "these are words".to_string(),
        "those are words".to_string(),
        "lots of words".to_string(),
    ];
    let mut result = evaluate(&records, create_pairs, reduce_pairs).unwrap();
    result.sort();
    let mut expected = counts(&[
        ("these", 1),
        ("are", 2),
        ("those", 1),
        ("lots", 1),
        ("of", 1),
        ("words", 3),
    ]);
    expected.sort();
    assert_eq!(result, expected);
}

#[test]
fn evaluate_returns_the_overflow_of_a_reduce_call() {
    let records: Vec<String> = vec!["a b".to_string(), "b".to_string()];
    let heavy = |line: &String| -> Result<Vec<(String, isize)>, Overflow> {
        Ok(line.split(' ').map(|w| (w.to_string(), isize::MAX)).collect())
    };
    assert_eq!(
        evaluate(&records, heavy, reduce_pairs),
        Err(EvaluateError::ReduceError(Overflow))
    );
}

#[test]
fn count_words_lists_words_by_first_occurrence() {
    let records: Vec<String> = vec![
        "these are words".to_string(),
        "those are words".to_string(),
        "lots of words".to_string(),
    ];
    assert_eq!(
        count_words(&records),
        Ok(counts(&[
            ("these", 1),
            ("are", 2),
            ("words", 3),
            ("those", 1),
            ("lots", 1),
            ("of", 1),
        ]))
    );
}

#[test]
fn count_words_of_nothing_is_empty() {
    assert_eq!(count_words(&Vec::new()), Ok(Vec::new()));
}

#[test]
fn count_words_counts_empty_words_too() {
    let records: Vec<String> = vec!["".to_string(), "a  a".to_string(), " ".to_string()];
    assert_eq!(count_words(&records), Ok(counts(&[("", 4), ("a", 2)])));
}
