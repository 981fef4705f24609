use word_counter::opts::CountUnit;
use word_counter::sources::{count_lines, count_sources};

fn strs(v: &[&str]) -> Vec<String> {
    v.iter().map(|s| s.to_string()).collect()
}

#[test]
fn unreadable_source_is_skipped() {
    let sources = vec![None, Some(strs(&["ab cd", "ab"]))];
    let out = count_sources(&sources, CountUnit::Word).to_string();
    assert_eq!(out, "ab:**\ncd:*");
}

#[test]
fn no_sources_give_empty_output() {
    assert_eq!(count_sources(&[], CountUnit::Word).to_string(), "");
}

#[test]
fn sources_are_merged() {
    let sources = vec![Some(strs(&["x y"])), Some(strs(&["y"]))];
    assert_eq!(count_sources(&sources, CountUnit::Word).to_string(), "y:**\nx:*");
}

#[test]
fn lines_of_one_source_by_char() {
    let mut pairs = count_lines(&strs(&["ab", "b"]), CountUnit::Char).into_inner();
    pairs.sort();
    assert_eq!(pairs, vec![("a".to_string(), 1), ("b".to_string(), 2)]);
}
