use crawler::canon::{
    canonicalize, comes_before, copy_texts, dir_comes_before, insert_text, parts_come_before,
};

fn texts(list: &[&str]) -> Vec<String> {
    list.iter().map(|s| s.to_string()).collect()
}

#[test]
fn texts_are_ordered_by_their_characters() {
    assert!(comes_before("a", "b"));
    assert!(comes_before("a", "ab"));
    assert!(comes_before("", "a"));
    assert!(comes_before("a-b", "a/b"));
    assert!(!comes_before("b", "a"));
    assert!(!comes_before("a", "a"));
    assert!(!comes_before("", ""));
    assert!(comes_before("z", "é"));
}

#[test]
fn components_are_ordered_one_by_one() {
    assert!(parts_come_before(&texts(&["r", "a", "b"]), &texts(&["r", "a-b"])));
    assert!(!parts_come_before(&texts(&["r", "a-b"]), &texts(&["r", "a", "b"])));
    assert!(parts_come_before(&texts(&["r"]), &texts(&["r", "a"])));
    assert!(parts_come_before(&texts(&[]), &texts(&["r"])));
    assert!(!parts_come_before(&texts(&["r"]), &texts(&["r"])));
    assert!(!parts_come_before(&texts(&["r"]), &texts(&[])));
}

#[test]
fn directories_compare_as_paths_do() {
    assert!(dir_comes_before("/r/a/b", "/r/a-b"));
    assert!(!dir_comes_before("/r/a-b", "/r/a/b"));
    assert!(dir_comes_before("/r/a", "/r/a/b"));
    assert!(dir_comes_before("/r/include", "/r/third_party"));
    assert!(!dir_comes_before("/r/a", "/r/a"));
    // The same components: the characters decide.
    assert!(dir_comes_before("/r//a", "/r/a"));
    assert!(!dir_comes_before("/r/a", "/r//a"));
}

#[test]
fn canonical_form_is_sorted_and_without_repetition() {
    let dirs = texts(&["r/b", "r/a-b", "r/a/b", "r/b", "r", "r/a/b"]);
    assert_eq!(canonicalize(dirs), texts(&["r", "r/a/b", "r/a-b", "r/b"]));
    assert_eq!(canonicalize(vec![]), texts(&[]));
    assert_eq!(canonicalize(texts(&["x", "x", "x"])), texts(&["x"]));
}

#[test]
fn canonical_form_does_not_depend_on_the_order() {
    let one = canonicalize(texts(&["r/c", "r/a", "r/b", "r/a"]));
    let other = canonicalize(texts(&["r/a", "r/b", "r/b", "r/c"]));
    assert_eq!(one, other);
    assert_eq!(one, texts(&["r/a", "r/b", "r/c"]));
}

#[test]
fn insert_text_keeps_the_list_sorted() {
    let mut list = texts(&["r/a", "r/c"]);
    insert_text(&mut list, "r/b".to_string());
    insert_text(&mut list, "r/a".to_string());
    insert_text(&mut list, "r".to_string());
    insert_text(&mut list, "r/d".to_string());
    assert_eq!(list, texts(&["r", "r/a", "r/b", "r/c", "r/d"]));
    assert_eq!(copy_texts(&list), list);
}
