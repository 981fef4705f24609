use word_counter::split::{split_chars, split_lines, split_marked, split_units, split_words};
use word_counter::opts::CountUnit;

fn strs(v: &[&str]) -> Vec<String> {
    v.iter().map(|s| s.to_string()).collect()
}

#[test]
fn chars_are_scalar_values() {
    assert_eq!(split_chars("aé😀"), strs(&["a", "é", "😀"]));
    assert_eq!(split_chars(""), strs(&[]));
}

#[test]
fn words_split_on_unicode_whitespace() {
    assert_eq!(split_words("  ab\tcd\u{3000}ef\n gh  "), strs(&["ab", "cd", "ef", "gh"]));
    assert_eq!(split_words("   "), strs(&[]));
    assert_eq!(split_words(""), strs(&[]));
}

#[test]
fn lines_strip_terminators() {
    assert_eq!(split_lines("ab\r\ncd\n\nef\n"), strs(&["ab", "cd", "", "ef"]));
    assert_eq!(split_lines("\n"), strs(&[""]));
    assert_eq!(split_lines(""), strs(&[]));
    assert_eq!(split_lines("ab\r"), strs(&["ab\r"]));
}

#[test]
fn marked_runs() {
    let marks = vec![false, true, true, false, false, true];
    assert_eq!(split_marked("a--bc-", &marks), strs(&["a", "bc"]));
}

#[test]
fn units_by_kind() {
    assert_eq!(split_units("ab b", CountUnit::Char), strs(&["a", "b", " ", "b"]));
    assert_eq!(split_units("ab b", CountUnit::Word), strs(&["ab", "b"]));
    assert_eq!(split_units("ab b", CountUnit::Line), strs(&["ab b"]));
}
