use crawler::path::{dir_under, join_range, parts_start_with, same_parts, split};
use crawler::types::{relative_to, Declare, DeclareType, File, FileType};

fn parts(list: &[&str]) -> Vec<String> {
    list.iter().map(|s| s.to_string()).collect()
}

#[test]
fn split_drops_empty_components() {
    assert_eq!(split("a/b/c.h"), parts(&["a", "b", "c.h"]));
    assert_eq!(split("/a//b/"), parts(&["a", "b"]));
    assert_eq!(split(""), parts(&[]));
    assert_eq!(split("///"), parts(&[]));
    assert_eq!(split("main.c"), parts(&["main.c"]));
}

#[test]
fn join_range_joins_with_single_separators() {
    let all = parts(&["a", "b", "c.h"]);
    assert_eq!(join_range(&all, 0, 3), "a/b/c.h");
    assert_eq!(join_range(&all, 1, 3), "b/c.h");
    assert_eq!(join_range(&all, 2, 3), "c.h");
    assert_eq!(join_range(&all, 1, 1), "");
}

#[test]
fn dir_under_puts_components_below_the_root() {
    let all = parts(&["include", "sub", "util.h"]);
    assert_eq!(dir_under("repo", &all, 2), "repo/include/sub");
    assert_eq!(dir_under("repo", &all, 0), "repo");
    assert_eq!(dir_under("/tmp/", &all, 1), "/tmp/include");
    assert_eq!(dir_under("", &all, 1), "include");
}

#[test]
fn prefix_tests_go_by_components() {
    let whole = parts(&["third_party", "lib", "util.h"]);
    assert!(parts_start_with(&whole, &whole));
    assert!(parts_start_with(&whole, &parts(&[])));
    assert!(!parts_start_with(&whole, &parts(&["third_party", "lib", "util.h", "x"])));
    assert!(parts_start_with(&whole, &parts(&["third_party", "lib"])));
    assert!(!parts_start_with(&whole, &parts(&["third"])));
    assert!(same_parts(&whole, &parts(&["third_party", "lib", "util.h"])));
    assert!(!same_parts(&whole, &parts(&["third_party", "lib"])));
}

#[test]
fn file_kind_goes_by_the_extension() {
    assert_eq!(File::kind_of("src/main.c"), Some(FileType::Source));
    assert_eq!(File::kind_of("include/util.h"), Some(FileType::Header));
    assert_eq!(File::kind_of("a.b.h"), Some(FileType::Header));
    assert_eq!(File::kind_of("..c"), Some(FileType::Source));
    assert_eq!(File::kind_of("src/main.cpp"), None);
    assert_eq!(File::kind_of("Makefile"), None);
    assert_eq!(File::kind_of(".c"), None);
    assert_eq!(File::kind_of("dir/.h"), None);
    assert_eq!(File::kind_of(""), None);
    assert_eq!(File::kind_of("main.c/"), Some(FileType::Source));
}

#[test]
fn new_file_keeps_kind_and_path() {
    let file = File::new("src/main.c");
    assert_eq!(file.kind(), FileType::Source);
    assert_eq!(file.path(), "src/main.c");
    assert_eq!(file.components(), parts(&["src", "main.c"]));
    assert_eq!(file.clone(), file);
    assert!(File::try_new("README.md").is_none());
    assert_eq!(File::try_new("x.h"), Some(File::new("x.h")));
    assert_ne!(File::new("x.h"), File::new("y.h"));
}

#[test]
fn relative_file_strips_the_directory() {
    let file = File::relative("/tmp/42/src/main.c", "/tmp/42");
    assert_eq!(file.path(), "src/main.c");
    assert_eq!(file.kind(), FileType::Source);
    assert_eq!(File::relative("repo//inc/a.h", "repo/").path(), "inc/a.h");
    assert!(File::try_relative("/other/src/main.c", "/tmp/42").is_none());
    assert!(File::try_relative("/tmp/42/notes.txt", "/tmp/42").is_none());
    assert!(File::try_relative("/tmp/42", "/tmp/42").is_none());
    assert_eq!(relative_to("/tmp/42/notes.txt", "/tmp/42"), Some("notes.txt".to_string()));
    assert_eq!(relative_to("/tmp/42", "/tmp/42"), Some(String::new()));
    assert_eq!(relative_to("/tmp/4", "/tmp/42"), None);
}

#[test]
fn user_declare_round_trip_preserves_kind_and_path() {
    let decl = Declare::new("sub/util.h", DeclareType::User);
    let stored = decl.clone();
    assert_eq!(stored.kind(), DeclareType::User);
    assert_eq!(stored.path(), "sub/util.h");
    assert!(stored.is_user());
    assert!(!stored.is_system());
    assert_eq!(stored, decl);
}

#[test]
fn system_declare_is_not_user() {
    let decl = Declare::new("stdio.h", DeclareType::System);
    assert!(decl.is_system());
    assert!(!decl.is_user());
    assert_eq!(decl.kind(), DeclareType::System);
    assert_ne!(decl, Declare::new("stdio.h", DeclareType::User));
}
