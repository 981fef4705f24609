use word_counter::freqs::Frequency;
use word_counter::opts::CountUnit;

fn get(pairs: &[(String, u32)], key: &str) -> Option<u32> {
    pairs.iter().find(|(k, _)| k == key).map(|(_, c)| *c)
}

fn sorted(mut pairs: Vec<(String, u32)>) -> Vec<(String, u32)> {
    pairs.sort();
    pairs
}

fn pairs(items: &[(&str, u32)]) -> Vec<(String, u32)> {
    items.iter().map(|(k, c)| (k.to_string(), *c)).collect()
}

#[test]
fn display_frequency() {
    let s = "ab xy ab cd xy ab".to_string();
    let freq = Frequency::builder(s).by_unit(CountUnit::Word);
    let out = freq.to_string();
    assert_eq!(out, "ab:***\nxy:**\ncd:*");
}

#[test]
fn count_chars() {
    let count = Frequency::builder("aabcb".to_string()).by_unit(CountUnit::Char).into_inner();
    assert_eq!(get(&count, "a"), Some(2));
    assert_eq!(get(&count, "x"), None);
    assert_eq!(sorted(count), pairs(&[("a", 2), ("b", 2), ("c", 1)]));
}

#[test]
fn count_words() {
    let count = Frequency::builder("ab xy ab cd".to_string()).by_unit(CountUnit::Word).into_inner();
    assert_eq!(get(&count, "ab"), Some(2));
    assert_eq!(get(&count, "01"), None);
    assert_eq!(sorted(count), pairs(&[("ab", 2), ("cd", 1), ("xy", 1)]));
}

#[test]
fn count_lines_of_text() {
    let count = Frequency::builder("ab\ncd\nab\nxy".to_string()).by_unit(CountUnit::Line).into_inner();
    assert_eq!(get(&count, "ab"), Some(2));
    assert_eq!(get(&count, "ab\ncd"), None);
    assert_eq!(sorted(count), pairs(&[("ab", 2), ("cd", 1), ("xy", 1)]));
}

#[test]
fn merge_adds_counts() {
    let mut freq = Frequency::default();
    freq.merge(&pairs(&[("ab", 1), ("xy", 2)]));
    freq.merge(&pairs(&[("ab", 3), ("cd", 4)]));
    let count = freq.into_inner();
    assert_eq!(get(&count, "ab"), Some(4));
    assert_eq!(get(&count, "xy"), Some(2));
    assert_eq!(get(&count, "cd"), Some(4));
    assert_eq!(get(&count, "01"), None);
}

#[test]
fn merge_repeated_key_in_one_call() {
    let mut freq = Frequency::new();
    freq.merge(&pairs(&[("ab", 1), ("ab", 2), ("cd", 0)]));
    assert_eq!(sorted(freq.into_inner()), pairs(&[("ab", 3)]));
}

#[test]
fn merge_saturates_at_u32_max() {
    let mut freq = Frequency::new();
    freq.merge(&pairs(&[("ab", u32::MAX - 1), ("ab", 5)]));
    assert_eq!(freq.into_inner(), pairs(&[("ab", u32::MAX)]));
}

#[test]
fn iter_lists_entries() {
    let freq = Frequency::builder("ab cd ab xy".to_string()).by_unit(CountUnit::Word);
    let mut it = freq.iter();
    let mut seen = Vec::new();
    while let Some(p) = it.next() {
        seen.push(p);
    }
    assert!(it.next().is_none());
    assert_eq!(sorted(seen), pairs(&[("ab", 2), ("cd", 1), ("xy", 1)]));
}

#[test]
fn from_units_counts_each_occurrence() {
    let units: Vec<String> = ["x", "y", "x", "z", "x", "y"].iter().map(|s| s.to_string()).collect();
    let count = Frequency::from_units(&units).into_inner();
    let total: u32 = count.iter().map(|(_, c)| *c).sum();
    assert_eq!(total, 6);
    assert_eq!(sorted(count), pairs(&[("x", 3), ("y", 2), ("z", 1)]));
}

#[test]
fn merge_is_associative_and_commutative() {
    let a = pairs(&[("ab", 1), ("cd", 2)]);
    let b = pairs(&[("cd", 3), ("ef", 1)]);
    let c = pairs(&[("ab", 4), ("gh", 5)]);

    let mut left = Frequency::new();
    left.merge(&a);
    left.merge(&b);
    let left_inner = left.into_inner();
    let mut left_all = Frequency::new();
    left_all.merge(&left_inner);
    left_all.merge(&c);

    let mut bc = Frequency::new();
    bc.merge(&b);
    bc.merge(&c);
    let mut right_all = Frequency::new();
    right_all.merge(&a);
    right_all.merge(&bc.into_inner());
    assert_eq!(sorted(left_all.into_inner()), sorted(right_all.into_inner()));

    let mut ab = Frequency::new();
    ab.merge(&a);
    ab.merge(&b);
    let mut ba = Frequency::new();
    ba.merge(&b);
    ba.merge(&a);
    assert_eq!(sorted(ab.into_inner()), sorted(ba.into_inner()));
}

#[test]
fn merging_empty_table_changes_nothing() {
    let mut freq = Frequency::builder("ab xy ab".to_string()).by_unit(CountUnit::Word);
    freq.merge(&Frequency::new().into_inner());
    assert_eq!(sorted(freq.into_inner()), pairs(&[("ab", 2), ("xy", 1)]));
}

#[test]
fn empty_table_formats_as_empty_string() {
    assert_eq!(Frequency::new().to_string(), "");
    assert_eq!(Frequency::builder(String::new()).by_unit(CountUnit::Word).to_string(), "");
}

#[test]
fn format_ties_by_unit_and_pads_left() {
    let freq = Frequency::builder("bb a ccc a bb".to_string()).by_unit(CountUnit::Word);
    assert_eq!(freq.to_string(), "  a:**\n bb:**\nccc:*");
}

#[test]
fn format_width_counts_characters() {
    let freq = Frequency::builder("é éé".to_string()).by_unit(CountUnit::Word);
    assert_eq!(freq.to_string(), " é:*\néé:*");
}
