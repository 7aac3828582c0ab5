use folder_tree::{same_text, split_path};

#[test]
fn split_path_components() {
    assert_eq!(split_path("a/b/c"), vec!["a", "b", "c"]);
    assert_eq!(split_path("a//b/"), vec!["a", "", "b"]);
    assert!(split_path("").is_empty());
    assert_eq!(split_path("/"), vec![""]);
    assert_eq!(split_path(".."), vec![".."]);
}

#[test]
fn same_text_compares_whole_strings() {
    assert!(same_text("abc", "abc"));
    assert!(!same_text("abc", "abd"));
    assert!(!same_text("ab", "abc"));
    assert!(same_text("", ""));
}
