use mapreduce::evaluator::{evaluate, EvaluateError, MapReduce};
use std::cell::Cell;

fn split_words(line: &String) -> Result<Vec<(String, i64)>, String> {
    Ok(line.split(' ').map(|w| (w.to_string(), 1)).collect())
}

fn sum_values(key: String, values: Vec<i64>) -> Result<Vec<(String, i64)>, String> {
    Ok(vec![(key, values.iter().sum())])
}

fn lines(texts: &[&str]) -> Vec<String> {
    texts.iter().map(|t| t.to_string()).collect()
}

fn pair(key: &str, value: i64) -> (String, i64) {
    (key.to_string(), value)
}

#[test]
fn word_count_over_three_lines() {
    let records = lines(&["these are words", "those are words", "lots of words"]);
    let mut result = evaluate(&records, split_words, sum_values).unwrap();
    result.sort();
    let mut expected = vec![
        pair("these", 1),
        pair("are", 2),
        pair("those", 1),
        pair("lots", 1),
        pair("of", 1),
        pair("words", 3),
    ];
    expected.sort();
    assert_eq!(result, expected);
}

#[test]
fn groups_are_reduced_in_order_of_first_occurrence() {
    let records = lines(&["these are words", "those are words", "lots of words"]);
    let result = evaluate(&records, split_words, sum_values).unwrap();
    assert_eq!(
        result,
        vec![
            pair("these", 1),
            pair("are", 2),
            pair("words", 3),
            pair("those", 1),
            pair("lots", 1),
            pair("of", 1),
        ]
    );
}

#[test]
fn no_records_give_an_empty_result() {
    let records: Vec<String> = Vec::new();
    let result = evaluate(&records, split_words, sum_values);
    assert_eq!(result, Ok(Vec::new()));
}

#[test]
fn no_records_call_neither_function() {
    let records: Vec<String> = Vec::new();
    let calls = Cell::new(0);
    let map_fn = |_line: &String| -> Result<Vec<(String, i64)>, String> {
        calls.set(calls.get() + 1);
        Err("never".to_string())
    };
    let reduce_fn = |_key: String, _values: Vec<i64>| -> Result<Vec<(String, i64)>, String> {
        calls.set(calls.get() + 1);
        Err("never".to_string())
    };
    assert_eq!(evaluate(&records, map_fn, reduce_fn), Ok(Vec::new()));
    assert_eq!(calls.get(), 0);
}

#[test]
fn map_failure_on_second_record_is_returned() {
    let records = lines(&["first line", "bad", "third line"]);
    let mapped = Cell::new(0);
    let reduced = Cell::new(0);
    let map_fn = |line: &String| -> Result<Vec<(String, i64)>, String> {
        mapped.set(mapped.get() + 1);
        if line == "bad" {
            Err(format!("cannot map {}", line))
        } else {
            split_words(line)
        }
    };
    let reduce_fn = |key: String, values: Vec<i64>| -> Result<Vec<(String, i64)>, String> {
        reduced.set(reduced.get() + 1);
        sum_values(key, values)
    };
    let result = evaluate(&records, map_fn, reduce_fn);
    assert_eq!(result, Err(EvaluateError::MapError("cannot map bad".to_string())));
    assert_eq!(mapped.get(), 2);
    assert_eq!(reduced.get(), 0);
}

#[test]
fn reduce_failure_is_returned_and_ends_the_run() {
    let records = lines(&["a b c", "b d"]);
    let reduced = Cell::new(0);
    let reduce_fn = |key: String, values: Vec<i64>| -> Result<Vec<(String, i64)>, u32> {
        reduced.set(reduced.get() + 1);
        if key == "b" {
            Err(values.len() as u32)
        } else {
            Ok(vec![(key, 0)])
        }
    };
    let result = evaluate(&records, split_words, reduce_fn);
    assert_eq!(result, Err(EvaluateError::ReduceError(2)));
    assert_eq!(reduced.get(), 2);
}

#[test]
fn reduce_with_no_output_drops_only_that_key() {
    let records = lines(&["a b a", "c b"]);
    let reduce_fn = |key: String, values: Vec<i64>| -> Result<Vec<(String, i64)>, String> {
        if key == "b" {
            Ok(Vec::new())
        } else {
            sum_values(key, values)
        }
    };
    let result = evaluate(&records, split_words, reduce_fn).unwrap();
    assert_eq!(result, vec![pair("a", 2), pair("c", 1)]);
}

#[test]
fn reduce_may_return_several_pairs_for_one_key() {
    let records = lines(&["x y x"]);
    let reduce_fn = |key: String, values: Vec<i64>| -> Result<Vec<(String, i64)>, String> {
        Ok(values.iter().map(|v| (key.clone(), *v * 10)).collect())
    };
    let result = evaluate(&records, split_words, reduce_fn).unwrap();
    assert_eq!(result, vec![pair("x", 10), pair("x", 10), pair("y", 10)]);
}

#[test]
fn map_may_return_no_pairs_for_a_record() {
    let records = lines(&["skip", "keep me", "skip"]);
    let map_fn = |line: &String| -> Result<Vec<(String, i64)>, String> {
        if line == "skip" {
            Ok(Vec::new())
        } else {
            split_words(line)
        }
    };
    let result = evaluate(&records, map_fn, sum_values).unwrap();
    assert_eq!(result, vec![pair("keep", 1), pair("me", 1)]);
}

#[test]
fn values_of_a_key_keep_the_order_of_the_records() {
    let records: Vec<u32> = vec![10, 21, 30, 41, 50];
    let map_fn = |n: &u32| -> Result<Vec<(bool, u32)>, ()> { Ok(vec![(*n % 2 == 0, *n)]) };
    let reduce_fn =
        |even: bool, values: Vec<u32>| -> Result<Vec<(bool, Vec<u32>)>, ()> { Ok(vec![(even, values)]) };
    let result = evaluate(&records, map_fn, reduce_fn).unwrap();
    assert_eq!(result, vec![(true, vec![10, 30, 50]), (false, vec![21, 41])]);
}

#[test]
fn each_key_is_reduced_once_with_all_its_values() {
    let records: Vec<u64> = vec![1, 2, 3, 4, 5, 6, 7, 8, 9];
    let calls = Cell::new(0);
    let map_fn = |n: &u64| -> Result<Vec<(u64, u64)>, ()> { Ok(vec![(*n % 3, *n), (*n % 3, 100)]) };
    let reduce_fn = |key: u64, values: Vec<u64>| -> Result<Vec<(u64, u64)>, ()> {
        calls.set(calls.get() + 1);
        Ok(vec![(key, values.iter().sum())])
    };
    let result = evaluate(&records, map_fn, reduce_fn).unwrap();
    assert_eq!(result, vec![(1, 312), (2, 315), (0, 318)]);
    assert_eq!(calls.get(), 3);
}

#[test]
fn running_twice_gives_the_same_result() {
    let records = lines(&["b a b", "c a", "", "b  c"]);
    let first = evaluate(&records, split_words, sum_values);
    let second = evaluate(&records, split_words, sum_values);
    assert_eq!(first, second);
    assert_eq!(first, Ok(vec![pair("b", 3), pair("a", 2), pair("c", 2), pair("", 2)]));
}

#[test]
fn running_twice_gives_the_same_error() {
    let records = lines(&["fine", "bad one", "bad two"]);
    let map_fn = |line: &String| -> Result<Vec<(String, i64)>, String> {
        if line.starts_with("bad") {
            Err(line.clone())
        } else {
            split_words(line)
        }
    };
    let first = evaluate(&records, map_fn, sum_values);
    let second = evaluate(&records, map_fn, sum_values);
    assert_eq!(first, second);
    assert_eq!(first, Err(EvaluateError::MapError("bad one".to_string())));
}

#[test]
fn mapreduce_on_a_vector_of_strings_runs_the_evaluator() {
    let records = lines(&["these are words", "those are words", "lots of words"]);
    let result = records.mapreduce(split_words, sum_values);
    assert_eq!(result, evaluate(&records, split_words, sum_values));
    assert_eq!(result.unwrap().len(), 6);
}

#[test]
fn mapreduce_on_an_empty_vector_is_empty() {
    let records: Vec<String> = Vec::new();
    assert_eq!(records.mapreduce(split_words, sum_values), Ok(Vec::new()));
}
