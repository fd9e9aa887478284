use std::cell::RefCell;

use crawler::compile::{CompileError, Compiler};
use crawler::config::{Config, Database, Miner, Runner};
use crawler::dep_graph::{DepGraph, Discovered};
use crawler::interface::{
    CompileInput, CompileResult, InitInput, Interface, InternInput, PreInput,
};
use crawler::miner::{mine, mine_file, FileOutcome, MineResult};
use crawler::types::File;

fn config_with(tries: usize) -> Config {
    Config {
        miner: Miner { threads: 2, tries },
        runner: Runner {
            threads: 1,
            min_stars: 0,
            languages: vec!["c".to_string()],
            github_api_key: String::new(),
            log_dir: "log".to_string(),
            log_level: "info".to_string(),
            tmp_dir: "tmp".to_string(),
        },
        database: Database {
            user: String::new(),
            password: String::new(),
            host: String::new(),
            database: String::new(),
        },
    }
}

fn source(path: &str, text: &str) -> Discovered {
    Discovered { file: File::new(path), contents: Some(text.to_string()) }
}

/// An analysis that accepts a file under header sets that hold `wanted`,
/// never accepts a file whose path holds `broken`, and notes every call.
struct Mock {
    wanted: Option<String>,
    broken: Option<String>,
    unreadable: bool,
    calls: RefCell<Vec<(String, Vec<String>)>>,
}

impl Mock {
    fn accepting(wanted: Option<&str>) -> Self {
        Mock {
            wanted: wanted.map(|s| s.to_string()),
            broken: None,
            unreadable: false,
            calls: RefCell::new(vec![]),
        }
    }
}

impl Interface for Mock {
    type Match = String;
    type Store = ();

    fn preprocess(&self, input: PreInput<'_>) -> Result<String, ()> {
        if self.unreadable {
            Err(())
        } else {
            Ok(format!("text of {}", input.file))
        }
    }

    fn compile(&self, input: CompileInput<'_>) -> CompileResult<String> {
        self.calls.borrow_mut().push((input.file.to_string(), input.headers.clone()));
        let broken = match &self.broken {
            Some(part) => input.file.contains(part.as_str()),
            None => false,
        };
        let accepted = match &self.wanted {
            Some(dir) => input.headers.contains(dir),
            None => true,
        };
        CompileResult {
            data: if accepted && !broken {
                Ok(format!("{} <- {}", input.file, input.content))
            } else {
                Err(())
            },
            to_log: format!("[{}]", input.headers.join(",")),
        }
    }

    fn intern(&self, _input: InternInput<'_, String, ()>) -> Result<(), ()> {
        Ok(())
    }
}

fn five_choices() -> Vec<Discovered> {
    vec![
        source("main.c", "#include \"x.h\"\n"),
        source("a/x.h", ""),
        source("b/x.h", ""),
        source("c/x.h", ""),
        source("d/x.h", ""),
        source("e/x.h", ""),
    ]
}

#[test]
fn single_file_compiles_once_with_no_headers() {
    let dg = DepGraph::new("repo", &vec![source("main.c", "int main(){return 0;}")]);
    let config = config_with(5);
    let mock = Mock::accepting(None);
    let mined = mine(&dg, &config, &mock);
    assert_eq!(mined.result.n_files, 1);
    assert_eq!(mined.result.n_success, 1);
    assert_eq!(mined.result.n_error, 0);
    assert_eq!(mined.result.data, vec!["repo/main.c <- text of repo/main.c".to_string()]);
    assert_eq!(*mock.calls.borrow(), vec![("repo/main.c".to_string(), vec![])]);
    assert_eq!(mined.log, "[]");
}

#[test]
fn try_budget_bounds_the_compile_calls() {
    let dg = DepGraph::new("repo", &five_choices());
    let config = config_with(2);
    let mock = Mock::accepting(Some("nowhere"));
    let mut compiler = Compiler::new(File::new("main.c"), &dg, &config, &mock);
    assert_eq!(compiler.run(), Err(CompileError::CompileFailed));
    assert_eq!(mock.calls.borrow().len(), 2);
    assert_eq!(compiler.get_log(), "[repo/a][repo/b]");
    // Nothing is left: a further run makes no call.
    assert_eq!(compiler.run(), Err(CompileError::CompileFailed));
    assert_eq!(mock.calls.borrow().len(), 2);
}

#[test]
fn all_header_sets_are_tried_when_the_budget_allows() {
    let dg = DepGraph::new("repo", &five_choices());
    let config = config_with(50);
    let mock = Mock::accepting(Some("nowhere"));
    let mut compiler = Compiler::new(File::new("main.c"), &dg, &config, &mock);
    assert_eq!(compiler.run(), Err(CompileError::CompileFailed));
    let tried: Vec<Vec<String>> = mock.calls.borrow().iter().map(|c| c.1.clone()).collect();
    assert_eq!(
        tried,
        vec![
            vec!["repo/a".to_string()],
            vec!["repo/b".to_string()],
            vec!["repo/c".to_string()],
            vec!["repo/d".to_string()],
            vec!["repo/e".to_string()],
        ]
    );
}

#[test]
fn run_stops_at_the_first_accepted_header_set() {
    let dg = DepGraph::new("repo", &five_choices());
    let config = config_with(50);
    let mock = Mock::accepting(Some("repo/c"));
    let mut compiler = Compiler::new(File::new("main.c"), &dg, &config, &mock);
    assert_eq!(compiler.run(), Ok("repo/main.c <- text of repo/main.c".to_string()));
    assert_eq!(mock.calls.borrow().len(), 3);
    assert_eq!(compiler.get_log(), "[repo/a][repo/b][repo/c]");
}

#[test]
fn preprocess_failure_ends_the_file_without_a_compile() {
    let dg = DepGraph::new("repo", &five_choices());
    let config = config_with(5);
    let mut mock = Mock::accepting(None);
    mock.unreadable = true;
    let mut compiler = Compiler::new(File::new("main.c"), &dg, &config, &mock);
    let out = compiler.run();
    assert_eq!(out, Err(CompileError::PreprocessFailed));
    assert_eq!(out.unwrap_err().message(), "Failed to preprocess");
    assert_eq!(CompileError::CompileFailed.message(), "Ran out of header possibilities");
    assert!(mock.calls.borrow().is_empty());
    assert_eq!(compiler.get_log(), "");
}

#[test]
fn absorb_logs_every_outcome() {
    let dg = DepGraph::new("repo", &five_choices());
    let config = config_with(5);
    let mock = Mock::accepting(None);
    let mut compiler = Compiler::new(File::new("main.c"), &dg, &config, &mock);
    let failed = CompileResult { data: Err(()), to_log: "one;".to_string() };
    assert_eq!(compiler.absorb(failed), None);
    let passed = CompileResult { data: Ok("data".to_string()), to_log: "two;".to_string() };
    assert_eq!(compiler.absorb(passed), Some("data".to_string()));
    assert_eq!(compiler.get_log(), "one;two;");
}

#[test]
fn zero_tries_compile_nothing() {
    let dg = DepGraph::new("repo", &five_choices());
    let config = config_with(0);
    let mock = Mock::accepting(None);
    let outcome = mine_file(File::new("main.c"), &dg, &config, &mock);
    assert_eq!(outcome.data, None);
    assert_eq!(outcome.log, "");
    assert!(mock.calls.borrow().is_empty());
}

#[test]
fn graph_without_sources_mines_to_nothing() {
    let dg = DepGraph::new("repo", &vec![source("only.h", "")]);
    let config = config_with(5);
    let mock = Mock::accepting(None);
    let mined = mine(&dg, &config, &mock);
    assert_eq!(mined.result.n_files, 0);
    assert_eq!(mined.result.n_success, 0);
    assert_eq!(mined.result.n_error, 0);
    assert!(mined.result.data.is_empty());
    assert!(mock.calls.borrow().is_empty());
}

#[test]
fn a_failing_file_counts_as_error_and_leaves_the_others() {
    let files = vec![
        source("ok1.c", ""),
        source("bad.c", ""),
        source("ok2.c", ""),
        source("x.h", ""),
    ];
    let dg = DepGraph::new("repo", &files);
    let config = config_with(3);
    let mut mock = Mock::accepting(None);
    mock.broken = Some("bad".to_string());
    let mined = mine(&dg, &config, &mock);
    assert_eq!(mined.result.n_files, 3);
    assert_eq!(mined.result.n_files, dg.source_files().len());
    assert_eq!(mined.result.n_success, 2);
    assert_eq!(mined.result.n_error, 1);
    assert_eq!(mined.result.n_files, mined.result.n_success + mined.result.n_error);
    assert_eq!(mined.result.data.len(), mined.result.n_success);
    assert_eq!(
        mined.result.data,
        vec![
            "repo/ok1.c <- text of repo/ok1.c".to_string(),
            "repo/ok2.c <- text of repo/ok2.c".to_string()
        ]
    );
    assert_eq!(mined.log, "[][][]");
}

#[test]
fn gather_keeps_the_successes_in_order() {
    let result = MineResult::gather(vec![Some(1), None, Some(3), None, None]);
    assert_eq!(result.data, vec![1, 3]);
    assert_eq!(result.n_files, 5);
    assert_eq!(result.n_success, 2);
    assert_eq!(result.n_error, 3);
    let none: MineResult<u8> = MineResult::gather(vec![]);
    assert_eq!((none.n_files, none.n_success, none.n_error), (0, 0, 0));
    assert!(none.data.is_empty());
}

#[test]
fn init_does_nothing_unless_an_analysis_says_otherwise() {
    let config = config_with(1);
    let mock = Mock::accepting(None);
    assert_eq!(mock.init(InitInput { config: &config, db: &() }), Ok(()));
    assert_eq!(mock.intern(InternInput { config: &config, repo_id: 1, data: &vec![], db: &() }), Ok(()));
}

#[test]
fn outcome_of_a_file_keeps_data_and_log() {
    let passed: FileOutcome<u8> = FileOutcome::of(Ok::<u8, CompileError>(7), "log a");
    assert_eq!(passed.data, Some(7));
    assert_eq!(passed.log, "log a");
    let failed: FileOutcome<u8> = FileOutcome::of(Err(CompileError::CompileFailed), "log b");
    assert_eq!(failed.data, None);
    assert_eq!(failed.log, "log b");
}

#[test]
fn the_first_accepted_attempt_ends_the_run() {
    let dg = DepGraph::new("repo", &five_choices());
    let config = config_with(50);
    // Every header set from `repo/b` on would be accepted.
    let mock = Mock::accepting(None);
    let mut compiler = Compiler::new(File::new("main.c"), &dg, &config, &mock);
    assert_eq!(compiler.run(), Ok("repo/main.c <- text of repo/main.c".to_string()));
    assert_eq!(
        *mock.calls.borrow(),
        vec![("repo/main.c".to_string(), vec!["repo/a".to_string()])]
    );
    assert_eq!(compiler.get_log(), "[repo/a]");
}
