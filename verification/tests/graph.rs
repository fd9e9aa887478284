use crawler::dep_graph::{declares_in, parse_declare, DepGraph, Discovered, Scanned};
use crawler::types::{Declare, DeclareType, File};

fn found(path: &str, text: &str) -> Discovered {
    Discovered { file: File::new(path), contents: Some(text.to_string()) }
}

fn user(path: &str) -> Declare {
    Declare::new(path, DeclareType::User)
}

fn system(path: &str) -> Declare {
    Declare::new(path, DeclareType::System)
}

#[test]
fn parse_declare_finds_user_and_system_includes() {
    let text = "#include <stdio.h>\n#include \"util.h\"\nint x;\n#include \"a/b.h\"\n";
    assert_eq!(parse_declare(text), vec![system("stdio.h"), user("util.h"), user("a/b.h")]);
}

#[test]
fn parse_declare_wants_one_space_and_a_path() {
    assert_eq!(parse_declare("#include\"util.h\"\n#include  <x.h>\n#include \"\"\n"), vec![]);
    assert_eq!(parse_declare("int main(){return 0;}"), vec![]);
    // The kind is that of the opening delimiter.
    assert_eq!(parse_declare("#include <odd.h\""), vec![system("odd.h")]);
}

#[test]
fn declares_in_reads_delimiter_and_path_groups() {
    let groups = |d: &str, p: &str, e: &str| {
        vec![
            Some(format!("#include {}{}{}", d, p, e)),
            Some(d.to_string()),
            Some(p.to_string()),
            Some(e.to_string()),
        ]
    };
    let matches = vec![
        groups("\"", "a.h", "\""),
        groups("<", "b.h", ">"),
        groups("'", "c.h", "'"),
        vec![Some("x".to_string()), None, Some("d.h".to_string())],
        vec![Some("x".to_string())],
    ];
    assert_eq!(declares_in(&matches), vec![user("a.h"), system("b.h")]);
    assert_eq!(declares_in(&vec![]), vec![]);
}

#[test]
fn source_files_come_in_discovery_order() {
    let files = vec![
        found("b.c", ""),
        found("inc/x.h", ""),
        found("a.c", ""),
        found("b.c", "#include \"x.h\"\n"),
    ];
    let dg = DepGraph::new("repo", &files);
    assert_eq!(dg.len(), 3);
    assert_eq!(dg.root(), "repo");
    assert_eq!(dg.source_files(), vec![File::new("b.c"), File::new("a.c")]);
    // Of two entries for one file the first stays: no declarations.
    assert_eq!(dg.deps(&File::new("b.c")), None);
}

#[test]
fn graph_without_source_files_has_none() {
    let dg = DepGraph::new("repo", &vec![found("x.h", "")]);
    assert!(dg.source_files().is_empty());
    let empty = DepGraph::new("repo", &vec![]);
    assert_eq!(empty.len(), 0);
    assert!(empty.source_files().is_empty());
}

#[test]
fn deps_lists_candidates_by_trailing_components() {
    let files = vec![
        found("src/main.c", "#include \"util.h\"\n#include <sub/util.h>\n#include \"none.h\"\n"),
        found("include/util.h", ""),
        found("third_party/sub/util.h", ""),
        found("src/util.c", ""),
        found("src/myutil.h", ""),
    ];
    let dg = DepGraph::new("repo", &files);
    let deps = dg.deps(&File::new("src/main.c")).unwrap();
    assert_eq!(
        deps,
        vec![
            (
                user("util.h"),
                vec![File::new("include/util.h"), File::new("third_party/sub/util.h")]
            ),
            (system("sub/util.h"), vec![File::new("third_party/sub/util.h")]),
        ]
    );
    for (decl, candidates) in &deps {
        for header in candidates {
            assert!(header.path().ends_with(decl.path().as_str()));
        }
    }
    assert_eq!(dg.deps(&File::new("include/util.h")), None);
    assert_eq!(dg.deps(&File::new("missing.c")), None);
}

#[test]
fn repeated_declaration_gives_one_dependency() {
    let files = vec![
        found("main.c", "#include \"x.h\"\n#include <x.h>\n#include \"x.h\"\n"),
        found("x.h", ""),
    ];
    let dg = DepGraph::new("repo", &files);
    assert_eq!(
        dg.deps(&File::new("main.c")).unwrap(),
        vec![(user("x.h"), vec![File::new("x.h")]), (system("x.h"), vec![File::new("x.h")])]
    );
}

#[test]
fn unreadable_file_stays_a_node_without_edges() {
    let files = vec![
        Discovered { file: File::new("main.c"), contents: None },
        found("x.h", ""),
    ];
    let dg = DepGraph::new("repo", &files);
    assert_eq!(dg.source_files(), vec![File::new("main.c")]);
    assert_eq!(dg.deps(&File::new("main.c")), None);
    assert_eq!(dg.index_of(&File::new("main.c")), Some(0));
    assert_eq!(dg.index_of(&File::new("x.h")), Some(1));
    assert_eq!(dg.index_of(&File::new("y.h")), None);
}

#[test]
fn from_scanned_resolves_given_declarations() {
    let scanned = vec![
        Scanned { file: File::new("a.c"), declares: vec![user("b.h"), user("dir/b.h")] },
        Scanned { file: File::new("dir/b.h"), declares: vec![user("a.c")] },
    ];
    let dg = DepGraph::from_scanned("/r", &scanned);
    assert_eq!(
        dg.deps(&File::new("a.c")).unwrap(),
        vec![
            (user("b.h"), vec![File::new("dir/b.h")]),
            (user("dir/b.h"), vec![File::new("dir/b.h")])
        ]
    );
    // Only headers satisfy a declaration.
    assert_eq!(dg.deps(&File::new("dir/b.h")), None);
    assert_eq!(dg.file(1), &File::new("dir/b.h"));
    assert_eq!(dg.dep_count(0), 2);
    assert_eq!(dg.dep_declare(0, 1), &user("dir/b.h"));
    assert_eq!(dg.dep_candidates(0, 0), &vec![1usize]);
    assert_eq!(dg.file_parts(1), &vec!["dir".to_string(), "b.h".to_string()]);
}

#[test]
fn lookup_returns_the_headers_that_end_with_the_key() {
    let files = vec![
        found("src/util.h", ""),
        found("src/main.c", ""),
        found("lib/sub/util.h", ""),
        found("lib/sub/futil.h", ""),
        found("util.h/other.h", ""),
    ];
    let dg = DepGraph::new("repo", &files);
    assert_eq!(dg.lookup("util.h"), vec![File::new("src/util.h"), File::new("lib/sub/util.h")]);
    assert_eq!(dg.lookup("sub/util.h"), vec![File::new("lib/sub/util.h")]);
    assert_eq!(dg.lookup("sub//util.h/"), vec![File::new("lib/sub/util.h")]);
    assert_eq!(dg.lookup("b/util.h"), vec![]);
    assert_eq!(dg.lookup("main.c"), vec![]);
    assert_eq!(dg.lookup(""), vec![]);
    for key in ["util.h", "sub/util.h", "other.h"] {
        for header in dg.lookup(key) {
            let parts = header.components();
            let wanted: Vec<&str> = key.split('/').collect();
            assert!(parts.len() >= wanted.len());
            assert_eq!(&parts[parts.len() - wanted.len()..], &wanted[..]);
        }
    }
}
