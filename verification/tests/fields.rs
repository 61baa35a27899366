use rust_tydi_packages::fields::{is_sequence_type, split_fields};

fn names(list: &[Option<&str>]) -> Vec<Option<String>> {
    list.iter().map(|n| n.map(|s| s.to_string())).collect()
}

#[test]
fn vectors_and_texts_are_sequences() {
    assert!(is_sequence_type("Vec"));
    assert!(is_sequence_type("String"));
    assert!(is_sequence_type("str"));
    assert!(!is_sequence_type("u32"));
    assert!(!is_sequence_type("vec"));
    assert!(!is_sequence_type("Vecs"));
    assert!(!is_sequence_type(""));
    assert!(!is_sequence_type("Option"));
}

#[test]
fn first() {
    // post_id, title, content, author, created_at, updated_at, tags, likes, shares, comments
    let segments = names(&[
        Some("u32"),
        Some("String"),
        Some("String"),
        Some("TestAuthor"),
        Some("String"),
        Some("String"),
        Some("Vec"),
        Some("u32"),
        Some("u32"),
        Some("Vec"),
    ]);
    let (fixed, variable) = split_fields(&segments);
    assert_eq!(fixed, vec![0, 3, 7, 8]);
    assert_eq!(variable, vec![1, 2, 4, 5, 6, 9]);
}

#[test]
fn comment() {
    // comment_id, author, content, created_at, likes, in_reply_to_comment_id
    let segments = names(&[
        Some("u32"),
        Some("Author"),
        Some("String"),
        Some("String"),
        Some("u32"),
        Some("Option"),
    ]);
    let (fixed, variable) = split_fields(&segments);
    assert_eq!(fixed, vec![0, 1, 4, 5]);
    assert_eq!(variable, vec![2, 3]);
}

#[test]
fn author() {
    // user_id, username
    let (fixed, variable) = split_fields(&names(&[Some("u32"), Some("String")]));
    assert_eq!(fixed, vec![0]);
    assert_eq!(variable, vec![1]);
}

#[test]
fn a_type_that_is_no_path_is_of_fixed_width() {
    let (fixed, variable) = split_fields(&names(&[None, Some("str"), None]));
    assert_eq!(fixed, vec![0, 2]);
    assert_eq!(variable, vec![1]);
    let (fixed, variable) = split_fields(&vec![]);
    assert!(fixed.is_empty());
    assert!(variable.is_empty());
}
