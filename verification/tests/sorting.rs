use minisort::sorter::{reverse, sort, SortMode};

fn doc(lines: &[&str]) -> Vec<String> {
    lines.iter().map(|l| l.to_string()).collect()
}

#[test]
fn numeric_example() {
    let input = doc(&["10", "2", "abc", "1"]);
    let sorted = sort(input, SortMode::Numeric);
    assert_eq!(sorted, doc(&["1", "2", "10", "abc"]));
}

#[test]
fn lexicographic_example() {
    let input = doc(&["10", "2", "abc", "1"]);
    let sorted = sort(input, SortMode::Lexicographic);
    assert_eq!(sorted, doc(&["1", "10", "2", "abc"]));
}

#[test]
fn default_mode_sorts_as_strings() {
    let input = doc(&["pear", "apple", "10", "2"]);
    let sorted = sort(input, SortMode::Default);
    assert_eq!(sorted, doc(&["10", "2", "apple", "pear"]));
}

#[test]
fn empty_document_sorts_empty() {
    assert_eq!(sort(Vec::new(), SortMode::Default), Vec::<String>::new());
    assert_eq!(sort(Vec::new(), SortMode::Numeric), Vec::<String>::new());
    assert_eq!(
        sort(Vec::new(), SortMode::Lexicographic),
        Vec::<String>::new()
    );
    assert_eq!(reverse(Vec::new()), Vec::<String>::new());
}

#[test]
fn out_of_range_number_sorts_after_integers() {
    let input = doc(&["99999999999999999999", "3", "-7", "20"]);
    let sorted = sort(input, SortMode::Numeric);
    assert_eq!(sorted, doc(&["-7", "3", "20", "99999999999999999999"]));
}

#[test]
fn unparseable_lines_keep_their_order() {
    let input = doc(&["banana", "5", "apple", "3", "cherry"]);
    let sorted = sort(input, SortMode::Numeric);
    assert_eq!(sorted, doc(&["3", "5", "banana", "apple", "cherry"]));
}

#[test]
fn duplicates_are_preserved() {
    let input = doc(&["b", "a", "b", "a"]);
    let sorted = sort(input, SortMode::Lexicographic);
    assert_eq!(sorted, doc(&["a", "a", "b", "b"]));
}

#[test]
fn sorting_twice_changes_nothing() {
    let input = doc(&["10", "2", "abc", "1", "abc"]);
    let once = sort(input, SortMode::Numeric);
    let twice = sort(once.clone(), SortMode::Numeric);
    assert_eq!(once, twice);
    let input = doc(&["pear", "apple", "pear"]);
    let once = sort(input, SortMode::Lexicographic);
    let twice = sort(once.clone(), SortMode::Lexicographic);
    assert_eq!(once, twice);
}

#[test]
fn reverse_reads_back_to_front() {
    let input = doc(&["10", "2", "abc", "1"]);
    let sorted = sort(input, SortMode::Numeric);
    let reversed = reverse(sorted.clone());
    let mut expected = sorted;
    expected.reverse();
    assert_eq!(reversed, expected);
    assert_eq!(reversed, doc(&["abc", "10", "2", "1"]));
}

#[test]
fn negative_numbers_sort_before_positive() {
    let input = doc(&["1", "-1", "0", "-9223372036854775808", "9223372036854775806"]);
    let sorted = sort(input, SortMode::Numeric);
    assert_eq!(
        sorted,
        doc(&["-9223372036854775808", "-1", "0", "1", "9223372036854775806"])
    );
}
