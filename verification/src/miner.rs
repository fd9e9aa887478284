//! Mining one repository: every source file of its dependency graph is
//! compiled, and the outcomes are gathered into the statistics of the run.

use vstd::prelude::*;
use vstd::string::StringExecFns;
use crate::compile::{ran, CompileError, Compiler};
use crate::config::Config;
use crate::dep_graph::{file_views, sources, DepGraph, DepGraphView};
use crate::interface::{CompileResult, Interface};
use crate::types::FileView;
use crate::walk::{fresh, SelectorView};

verus! {

/// What mining a repository gives.
pub struct MineResult<M> {
    /// The match data of the files that compiled, in the order of the files.
    pub data: Vec<M>,
    pub n_files: usize,
    pub n_success: usize,
    pub n_error: usize,
}

/// What mining one file gives: its match data where it compiled, and the
/// log of its attempts.
pub struct FileOutcome<M> {
    pub data: Option<M>,
    pub log: String,
}

impl<M> FileOutcome<M> {
    /// The outcome of a file from what compiling it gave and the log of
    /// its attempts: the match data where it compiled, nothing where it
    /// failed, whatever the reason.
    pub fn of<E>(compiled: Result<M, E>, log: &str) -> (outcome: Self)
        ensures
            outcome.data == match compiled {
                Ok(found) => Some(found),
                Err(_) => None::<M>,
            },
            outcome.log@ == log@,
    {
        let data = match compiled {
            Ok(found) => Some(found),
            Err(_) => None,
        };
        FileOutcome { data, log: log.to_owned() }
    }
}

/// The match data among `outcomes`, in order.
pub open spec fn successes<M>(outcomes: Seq<Option<M>>) -> Seq<M>
    decreases outcomes.len(),
{
    if outcomes.len() == 0 {
        Seq::empty()
    } else {
        match outcomes.last() {
            Some(found) => successes(outcomes.drop_last()).push(found),
            None => successes(outcomes.drop_last()),
        }
    }
}

/// There are no more successes than outcomes.
pub proof fn lemma_successes_len<M>(outcomes: Seq<Option<M>>)
    ensures
        successes(outcomes).len() <= outcomes.len(),
    decreases outcomes.len(),
{
    if outcomes.len() > 0 {
        lemma_successes_len(outcomes.drop_last());
    }
}

impl<M> MineResult<M> {
    /// Whether the statistics are those of the data: each file either
    /// succeeded or failed, and the match data are those of the successes.
    pub open spec fn consistent(&self) -> bool {
        &&& self.n_files == self.n_success + self.n_error
        &&& self.data@.len() == self.n_success
    }

    /// Gathers the outcomes of the files of a repository, one for each
    /// source file.
    pub fn gather(outcomes: Vec<Option<M>>) -> (result: Self)
        ensures
            result.data@ == successes(outcomes@),
            result.n_files == outcomes@.len(),
            result.n_success == successes(outcomes@).len(),
            result.n_error == outcomes@.len() - successes(outcomes@).len(),
            result.consistent(),
    {
        let n_files = outcomes.len();
        let ghost all = outcomes@;
        let mut data: Vec<M> = Vec::new();
        assert(all.take(0) == Seq::<Option<M>>::empty());
        for item in it: outcomes
            invariant
                it.seq() == all,
                data@ == successes(all.take(it.index() as int)),
        {
            proof {
                let i = it.index() as int;
                assert(all.take(i + 1).drop_last() == all.take(i));
                assert(all.take(i + 1).last() == item);
            }
            match item {
                Some(found) => {
                    data.push(found);
                },
                None => {},
            }
        }
        proof {
            assert(all.take(all.len() as int) == all);
            lemma_successes_len(all);
        }
        let n_success = data.len();
        MineResult { data, n_files, n_success, n_error: n_files - n_success }
    }
}

/// What mining a repository gives, with the log of all attempts.
pub struct Mined<M> {
    pub result: MineResult<M>,
    /// The logs of the files, in the order of the files.
    pub log: String,
}

/// Whether `data` and `log` are what mining `file` gives: a compiler with
/// a new selector and an empty log was run on the file, `log` is the log of
/// that run, and `data` is its match data where it succeeded and nothing
/// where it failed.
pub open spec fn file_mined<I: Interface>(
    analysis: &I,
    config: &Config,
    graph: DepGraphView,
    file: FileView,
    data: Option<I::Match>,
    log: Seq<char>,
) -> bool {
    exists|
        pre: Result<String, ()>,
        answers: Seq<CompileResult<I::Match>>,
        out: Result<I::Match, CompileError>,
        end: SelectorView,
    |
        #![trigger ran(
            analysis,
            config,
            graph,
            file,
            fresh(graph, file, config.miner.tries as nat),
            Seq::empty(),
            pre,
            answers,
            out,
            end,
            log,
        )]
        {
            &&& ran(
                analysis,
                config,
                graph,
                file,
                fresh(graph, file, config.miner.tries as nat),
                Seq::empty(),
                pre,
                answers,
                out,
                end,
                log,
            )
            &&& data == match out {
                Ok(found) => Some(found),
                Err(_) => None::<I::Match>,
            }
        }
}

/// The texts of `logs`, one after the other.
pub open spec fn all_logs(logs: Seq<Seq<char>>) -> Seq<char>
    decreases logs.len(),
{
    if logs.len() == 0 {
        Seq::empty()
    } else {
        all_logs(logs.drop_last()) + logs.last()
    }
}

/// Whether `data` and `logs` are what mining the source files of the graph
/// gives, file by file, in the order of the files.
pub open spec fn files_mined<I: Interface>(
    analysis: &I,
    config: &Config,
    graph: DepGraphView,
    data: Seq<Option<I::Match>>,
    logs: Seq<Seq<char>>,
) -> bool {
    let files = sources(graph.files);
    &&& data.len() == files.len()
    &&& logs.len() == files.len()
    &&& forall|i: int|
        0 <= i < files.len() ==> file_mined(
            analysis,
            config,
            graph,
            files[i],
            #[trigger] data[i],
            logs[i],
        )
}

/// Mines one source file: a compiler is made for the file and run, which
/// tries the header sets of the file until the analysis accepts one. The
/// outcome holds the match data of the run, where it succeeded, and its
/// log. Whether a file compiles is for the analysis to say; without a try
/// to spend none does.
pub fn mine_file<I: Interface>(
    file: crate::types::File,
    dg: &DepGraph,
    config: &Config,
    interface: &I,
) -> (outcome: FileOutcome<I::Match>)
    requires
        dg.wf(),
    ensures
        file_mined(interface, config, dg@, file@, outcome.data, outcome.log@),
        config.miner.tries == 0 ==> outcome.data is None,
{
    let mut compiler = Compiler::new(file, dg, config, interface);
    let ghost start = compiler.log_text();
    let compiled = compiler.run();
    proof {
        assert(start + compiler.log_text() == compiler.log_text());
    }
    FileOutcome::of(compiled, compiler.get_log())
}

/// Mines the repository of `dg`: every source file in turn.
///
/// Each source file of the graph is mined once. The match data are those
/// of the files that succeeded, in the order of the files, and the log
/// holds the logs of the files in that order. The statistics count every
/// source file once, as a success or as an error.
pub fn mine<I: Interface>(dg: &DepGraph, config: &Config, interface: &I) -> (out: Mined<I::Match>)
    requires
        dg.wf(),
    ensures
        exists|data: Seq<Option<I::Match>>, logs: Seq<Seq<char>>|
            #![trigger files_mined(interface, config, dg@, data, logs)]
            {
                &&& files_mined(interface, config, dg@, data, logs)
                &&& out.result.data@ == successes(data)
                &&& out.log@ == all_logs(logs)
            },
        out.result.n_files == sources(dg@.files).len(),
        out.result.consistent(),
        config.miner.tries == 0 ==> out.result.n_success == 0,
{
    let files = dg.source_files();
    let n = files.len();
    let ghost fv = file_views(files@);
    assert(fv.len() == n);
    let mut outcomes: Vec<Option<I::Match>> = Vec::new();
    let mut log = String::new();
    let ghost mut logs: Seq<Seq<char>> = Seq::empty();
    let mut i: usize = 0;
    while i < n
        invariant
            dg.wf(),
            n == files.len(),
            fv == file_views(files@),
            fv == sources(dg@.files),
            i <= n,
            outcomes.len() == i,
            logs.len() == i,
            forall|j: int|
                0 <= j < i ==> file_mined(
                    interface,
                    config,
                    dg@,
                    fv[j],
                    #[trigger] outcomes@[j],
                    logs[j],
                ),
            log@ == all_logs(logs),
            config.miner.tries == 0 ==> successes(outcomes@).len() == 0,
        decreases n - i,
    {
        let outcome = mine_file(files[i].clone(), dg, config, interface);
        log.append(outcome.log.as_str());
        proof {
            assert(outcomes@.push(outcome.data).drop_last() == outcomes@);
            assert(logs.push(outcome.log@).drop_last() == logs);
            logs = logs.push(outcome.log@);
        }
        outcomes.push(outcome.data);
        i += 1;
    }
    proof {
        assert(files_mined(interface, config, dg@, outcomes@, logs));
    }
    Mined { result: MineResult::gather(outcomes), log }
}

} // verus!
