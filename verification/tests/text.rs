use codex_managed_channel::text::{sorted_texts, text_le_exec};

#[test]
fn texts_sort_as_str_does() {
    let names: Vec<String> = ["b", "ab", "a", "é", "z", "", "a"]
        .iter()
        .map(|s| s.to_string())
        .collect();
    let mut expected = names.clone();
    expected.sort();
    assert_eq!(sorted_texts(&names), expected);
}

#[test]
fn a_prefix_comes_first() {
    assert!(text_le_exec("ab", "abc"));
    assert!(!text_le_exec("abc", "ab"));
    assert!(text_le_exec("a", "a"));
    assert!(text_le_exec("Z", "a"));
}
