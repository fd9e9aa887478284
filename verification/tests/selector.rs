use crawler::config::{Config, Database, Miner, Runner};
use crawler::dep_graph::{DepGraph, Discovered};
use crawler::select::Selector;
use crawler::types::File;

fn config(tries: usize) -> Config {
    Config {
        miner: Miner { threads: 1, tries },
        runner: Runner {
            threads: 1,
            min_stars: 0,
            languages: vec!["c".to_string()],
            github_api_key: String::new(),
            log_dir: "log".to_string(),
            log_level: "info".to_string(),
            tmp_dir: "tmp".to_string(),
        },
        database: Database {
            user: String::new(),
            password: String::new(),
            host: String::new(),
            database: String::new(),
        },
    }
}

fn found(path: &str, text: &str) -> Discovered {
    Discovered { file: File::new(path), contents: Some(text.to_string()) }
}

fn dirs(list: &[&str]) -> Option<Vec<String>> {
    Some(list.iter().map(|s| s.to_string()).collect())
}

#[test]
fn single_file_without_includes_yields_one_empty_set() {
    let files = vec![found("main.c", "int main(){return 0;}")];
    let dg = DepGraph::new("repo", &files);
    let mut selector = Selector::new(File::new("main.c"), &dg, &config(5));
    assert_eq!(selector.step(), dirs(&[]));
    assert_eq!(selector.step(), None);
    assert_eq!(selector.step(), None);
}

#[test]
fn ambiguous_include_yields_both_directories_in_discovery_order() {
    let files = vec![
        found("src/main.c", "#include \"util.h\"\n"),
        found("include/util.h", ""),
        found("third_party/util.h", ""),
    ];
    let dg = DepGraph::new("repo", &files);
    let mut selector = Selector::new(File::new("src/main.c"), &dg, &config(10));
    assert_eq!(selector.step(), dirs(&["repo/include"]));
    assert_eq!(selector.step(), dirs(&["repo/third_party"]));
    assert_eq!(selector.step(), None);
}

#[test]
fn cycle_yields_one_set_and_terminates() {
    let files = vec![
        found("a.c", "#include \"b.h\"\n"),
        found("b.h", "#include \"a.h\"\n"),
        found("a.h", "#include \"b.h\"\n"),
    ];
    let dg = DepGraph::new("repo", &files);
    let mut selector = Selector::new(File::new("a.c"), &dg, &config(10));
    assert_eq!(selector.step(), dirs(&["repo"]));
    let picked = selector.get_headers();
    assert_eq!(picked.len(), 2);
    assert_eq!(picked[0].0, File::new("b.h"));
    assert_eq!(picked[1].0, File::new("a.h"));
    assert_eq!(selector.step(), None);
}

#[test]
fn no_tries_returns_none_immediately() {
    let files = vec![found("main.c", "#include \"x.h\"\n"), found("x.h", "")];
    let dg = DepGraph::new("repo", &files);
    let mut selector = Selector::new(File::new("main.c"), &dg, &config(0));
    assert_eq!(selector.step(), None);
    assert!(selector.get_headers().is_empty());
}

#[test]
fn budget_limits_the_number_of_sets() {
    let files = vec![
        found("main.c", "#include \"x.h\"\n"),
        found("a/x.h", ""),
        found("b/x.h", ""),
        found("c/x.h", ""),
        found("d/x.h", ""),
        found("e/x.h", ""),
    ];
    let dg = DepGraph::new("repo", &files);
    let mut selector = Selector::new(File::new("main.c"), &dg, &config(2));
    assert_eq!(selector.step(), dirs(&["repo/a"]));
    assert_eq!(selector.step(), dirs(&["repo/b"]));
    assert_eq!(selector.step(), None);
}

#[test]
fn repeated_sets_are_skipped_and_cost_no_try() {
    // Both declarations have the same two directories to choose from: of
    // the four walks two end on the set of both directories.
    let files = vec![
        found("main.c", "#include \"a.h\"\n#include \"b.h\"\n"),
        found("inc/a.h", ""),
        found("alt/a.h", ""),
        found("inc/b.h", ""),
        found("alt/b.h", ""),
    ];
    let dg = DepGraph::new("repo", &files);
    let mut selector = Selector::new(File::new("main.c"), &dg, &config(3));
    assert_eq!(selector.step(), dirs(&["repo/inc"]));
    assert_eq!(selector.step(), dirs(&["repo/alt", "repo/inc"]));
    assert_eq!(selector.step(), dirs(&["repo/alt"]));
    assert_eq!(selector.step(), None);
}

#[test]
fn system_declarations_give_no_directory() {
    let files = vec![found("main.c", "#include <sys.h>\n"), found("inc/sys.h", "")];
    let dg = DepGraph::new("/r", &files);
    let mut selector = Selector::new(File::new("main.c"), &dg, &config(3));
    assert_eq!(selector.step(), dirs(&[]));
    let picked = selector.get_headers();
    assert_eq!(picked.len(), 1);
    assert!(picked[0].1.is_system());
    assert_eq!(picked[0].1.path(), "sys.h");
}

#[test]
fn declared_directories_are_stripped_from_the_header_path() {
    let files = vec![
        found("src/main.c", "#include \"lib/util.h\"\n"),
        found("vendor/lib/util.h", ""),
    ];
    let dg = DepGraph::new("/tmp/7", &files);
    let mut selector = Selector::new(File::new("src/main.c"), &dg, &config(3));
    assert_eq!(selector.step(), dirs(&["/tmp/7/vendor"]));
}

#[test]
fn no_header_set_is_emitted_twice() {
    // Three declarations with two directories each, and nested includes.
    let files = vec![
        found("main.c", "#include \"a.h\"\n#include \"b.h\"\n#include \"c.h\"\n"),
        found("x/a.h", "#include \"d.h\"\n"),
        found("y/a.h", ""),
        found("x/b.h", ""),
        found("y/b.h", "#include \"d.h\"\n"),
        found("x/c.h", ""),
        found("z/c.h", ""),
        found("x/d.h", ""),
        found("w/d.h", ""),
    ];
    let dg = DepGraph::new("r", &files);
    let mut selector = Selector::new(File::new("main.c"), &dg, &config(1000));
    let mut emitted: Vec<Vec<String>> = vec![];
    while let Some(set) = selector.step() {
        // Canonical: ascending and without repetition.
        for pair in set.windows(2) {
            assert!(pair[0] < pair[1]);
        }
        assert!(!emitted.contains(&set));
        emitted.push(set);
        assert!(emitted.len() < 100);
    }
    assert_eq!(emitted[0], vec!["r/x".to_string()]);
    assert!(emitted.contains(&vec!["r/w".to_string(), "r/x".to_string(), "r/y".to_string()]));
    assert!(emitted.contains(&vec!["r/x".to_string(), "r/y".to_string(), "r/z".to_string()]));
    assert!(emitted.len() >= 6);
    assert_eq!(selector.step(), None);
}

#[test]
fn file_outside_the_graph_has_one_empty_set() {
    let files = vec![found("main.c", "#include \"x.h\"\n"), found("x.h", "")];
    let dg = DepGraph::new("repo", &files);
    let mut selector = Selector::new(File::new("other.c"), &dg, &config(3));
    assert_eq!(selector.step(), dirs(&[]));
    assert_eq!(selector.step(), None);
}

#[test]
fn headers_of_headers_are_part_of_the_set() {
    let files = vec![
        found("src/main.c", "#include \"a.h\"\n"),
        found("inc/a.h", "#include \"deep/b.h\"\n#include <sys/c.h>\n"),
        found("lib/deep/b.h", ""),
        found("usr/sys/c.h", ""),
    ];
    let dg = DepGraph::new("/r", &files);
    let mut selector = Selector::new(File::new("src/main.c"), &dg, &config(3));
    assert_eq!(selector.step(), dirs(&["/r/inc", "/r/lib"]));
    let picked = selector.get_headers();
    let paths: Vec<&str> = picked.iter().map(|p| p.0.path().as_str()).collect();
    assert_eq!(paths, vec!["inc/a.h", "lib/deep/b.h", "usr/sys/c.h"]);
    assert_eq!(selector.step(), None);
}

#[test]
fn a_header_seen_on_the_walk_is_not_entered_again() {
    // Both headers include the other one; `shared.h` is entered from `a.h`
    // and skipped at `main.c`.
    let files = vec![
        found("main.c", "#include \"a.h\"\n#include \"shared.h\"\n"),
        found("one/a.h", "#include \"shared.h\"\n"),
        found("two/shared.h", "#include \"a.h\"\n"),
    ];
    let dg = DepGraph::new("r", &files);
    let mut selector = Selector::new(File::new("main.c"), &dg, &config(5));
    assert_eq!(selector.step(), dirs(&["r/one", "r/two"]));
    assert_eq!(selector.get_headers().len(), 2);
    assert_eq!(selector.step(), None);
}

#[test]
fn directories_are_ordered_by_their_components() {
    // By characters `r/a-b` would come first; by components `a` comes
    // before `a-b`.
    let files = vec![
        found("main.c", "#include \"x.h\"\n#include \"y.h\"\n"),
        found("a-b/x.h", ""),
        found("a/b/y.h", ""),
    ];
    let dg = DepGraph::new("r", &files);
    let mut selector = Selector::new(File::new("main.c"), &dg, &config(3));
    assert_eq!(selector.step(), dirs(&["r/a/b", "r/a-b"]));
}
