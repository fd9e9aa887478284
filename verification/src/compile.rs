//! Compiling one source file: header sets are tried in the order in which
//! the selector yields them until the analysis accepts one.

use vstd::prelude::*;
use vstd::string::StringExecFns;
use crate::config::Config;
use crate::dep_graph::{DepGraph, DepGraphView};
use crate::interface::{CompileInput, CompileResult, Interface, PreInput};
use crate::path::{components, dir_under, starts_with, texts, under};
use crate::select::Selector;
use crate::types::{File, FileView};
use crate::walk::{all_emit, fresh, spent, step_of, stepped, SelectorView};

verus! {

/// Why a file yields no match data.
#[derive(Clone, Copy, Debug, PartialEq, Eq, Structural)]
pub enum CompileError {
    /// The analysis could not preprocess the file.
    PreprocessFailed,
    /// The analysis accepted none of the header sets tried.
    CompileFailed,
}

impl CompileError {
    /// A human-readable reason.
    pub fn message(&self) -> (text: String)
        ensures
            text@ == match self {
                CompileError::PreprocessFailed => "Failed to preprocess"@,
                CompileError::CompileFailed => "Ran out of header possibilities"@,
            },
    {
        match self {
            CompileError::PreprocessFailed => "Failed to preprocess".to_owned(),
            CompileError::CompileFailed => "Ran out of header possibilities".to_owned(),
        }
    }
}

/// The full path of a file of a repository.
pub open spec fn full_path(root: Seq<char>, file: Seq<char>) -> Seq<char> {
    under(root, components(file))
}

/// Whether `asked` is what preprocessing `file` hands to the analysis: the
/// configuration, the root of the repository and the full path of the
/// file.
pub open spec fn pre_handed(asked: PreInput, config: &Config, root: Seq<char>, file: Seq<char>) -> bool {
    &&& asked.config == config
    &&& asked.root@ == root
    &&& asked.file@ == file
}

/// Whether `input` is what an attempt on `file` under `headers` hands to
/// the analysis: the configuration, the root of the repository, the full
/// path of the file, the preprocessed source and the header set.
pub open spec fn handed(
    input: CompileInput,
    config: &Config,
    root: Seq<char>,
    file: Seq<char>,
    content: Seq<char>,
    headers: Seq<Seq<char>>,
) -> bool {
    &&& input.config == config
    &&& input.root@ == root
    &&& input.file@ == file
    &&& input.content@ == content
    &&& texts(input.headers@) == headers
}

/// Whether `answer` is what the analysis answered when it was asked to
/// preprocess `file`.
pub open spec fn preprocessed<I: Interface>(
    analysis: &I,
    config: &Config,
    root: Seq<char>,
    file: Seq<char>,
    answer: Result<String, ()>,
) -> bool {
    exists|asked: PreInput|
        #![trigger call_ensures(I::preprocess, (analysis, asked), answer)]
        {
            &&& pre_handed(asked, config, root, file)
            &&& call_ensures(I::preprocess, (analysis, asked), answer)
        }
}

/// Whether `answer` is what the analysis answered when it was asked to
/// compile `file`, with the source `content`, under `headers`.
pub open spec fn compiled<I: Interface>(
    analysis: &I,
    config: &Config,
    root: Seq<char>,
    file: Seq<char>,
    content: Seq<char>,
    headers: Seq<Seq<char>>,
    answer: CompileResult<I::Match>,
) -> bool {
    exists|input: CompileInput|
        #![trigger call_ensures(I::compile, (analysis, input), answer)]
        {
            &&& handed(input, config, root, file, content, headers)
            &&& call_ensures(I::compile, (analysis, input), answer)
        }
}

/// The log texts of `answers`, one after the other.
pub open spec fn logs<M>(answers: Seq<CompileResult<M>>) -> Seq<char>
    decreases answers.len(),
{
    if answers.len() == 0 {
        Seq::empty()
    } else {
        logs(answers.drop_last()) + answers.last().to_log@
    }
}

/// Whether attempt `j` of a run was made under the header set that step `j`
/// of the selector emitted, and `answer` is the answer to it.
pub open spec fn attempt<I: Interface>(
    analysis: &I,
    config: &Config,
    graph: DepGraphView,
    file: FileView,
    v0: SelectorView,
    content: Seq<char>,
    j: nat,
    answer: CompileResult<I::Match>,
) -> bool {
    compiled(
        analysis,
        config,
        graph.root,
        full_path(graph.root, file.path),
        content,
        step_of(graph, stepped(graph, v0, j)).1.unwrap(),
        answer,
    )
}

/// Whether `answers` are the answers to the attempts of a run from the
/// selector state `v0`: attempt `j` was made under the header set that step
/// `j` of the selector emitted, and every attempt but the last failed.
pub open spec fn attempted<I: Interface>(
    analysis: &I,
    config: &Config,
    graph: DepGraphView,
    file: FileView,
    v0: SelectorView,
    content: Seq<char>,
    answers: Seq<CompileResult<I::Match>>,
) -> bool {
    &&& all_emit(graph, v0, answers.len())
    &&& forall|j: int|
        0 <= j < answers.len() ==> attempt(
            analysis,
            config,
            graph,
            file,
            v0,
            content,
            j as nat,
            #[trigger] answers[j],
        )
    &&& forall|j: int| 0 <= j < answers.len() - 1 ==> (#[trigger] answers[j]).data is Err
}

/// One more attempt: where all attempts so far failed, the answers with
/// the answer to the next attempt are the answers to the attempts of a
/// run, and the log grows by the log text of that answer.
pub proof fn lemma_one_more<I: Interface>(
    analysis: &I,
    config: &Config,
    graph: DepGraphView,
    file: FileView,
    v0: SelectorView,
    content: Seq<char>,
    answers: Seq<CompileResult<I::Match>>,
    answer: CompileResult<I::Match>,
)
    requires
        attempted(analysis, config, graph, file, v0, content, answers),
        forall|j: int| 0 <= j < answers.len() ==> (#[trigger] answers[j]).data is Err,
        step_of(graph, stepped(graph, v0, answers.len())).1 is Some,
        attempt(analysis, config, graph, file, v0, content, answers.len(), answer),
    ensures
        attempted(analysis, config, graph, file, v0, content, answers.push(answer)),
        logs(answers.push(answer)) == logs(answers) + answer.to_log@,
        answers.push(answer).last() == answer,
        answer.data is Err ==> forall|j: int|
            0 <= j < answers.len() + 1 ==> (#[trigger] answers.push(answer)[j]).data is Err,
{
    let more = answers.push(answer);
    let k = answers.len();
    assert(more.drop_last() == answers);
    assert forall|j: nat| j < more.len() implies (#[trigger] step_of(
        graph,
        stepped(graph, v0, j),
    )).1 is Some by {
        if j == k {
        }
    }
    assert forall|j: int| 0 <= j < more.len() implies attempt(
        analysis,
        config,
        graph,
        file,
        v0,
        content,
        j as nat,
        #[trigger] more[j],
    ) by {
        if j < k {
            assert(more[j] == answers[j]);
        }
    }
    assert forall|j: int| 0 <= j < more.len() - 1 implies (#[trigger] more[j]).data is Err by {
        assert(more[j] == answers[j]);
    }
    if answer.data is Err {
        assert forall|j: int| 0 <= j < k + 1 implies (#[trigger] more[j]).data is Err by {
            if j < k {
                assert(more[j] == answers[j]);
            }
        }
    }
}

/// Whether a run on `file` from the selector state `v0` and the log `log0`
/// went as `pre` and `answers` say, and ended with `out`, the selector
/// state `v1` and the log `log1`.
///
/// The analysis is asked once to preprocess the file, and `pre` is its
/// answer. Where that is an error, no attempt is made, the run fails for
/// preprocessing, and nothing changes. Else the attempts are made on the
/// preprocessed source, one for each header set that the selector emits,
/// up to the first that the analysis accepts: the run ends with the match
/// data of that attempt. Where the analysis accepted none and the selector
/// has nothing left, the run fails for its headers. The log grows by the
/// log texts of the answers, in order.
pub open spec fn ran<I: Interface>(
    analysis: &I,
    config: &Config,
    graph: DepGraphView,
    file: FileView,
    v0: SelectorView,
    log0: Seq<char>,
    pre: Result<String, ()>,
    answers: Seq<CompileResult<I::Match>>,
    out: Result<I::Match, CompileError>,
    v1: SelectorView,
    log1: Seq<char>,
) -> bool {
    &&& preprocessed(analysis, config, graph.root, full_path(graph.root, file.path), pre)
    &&& match pre {
        Err(_) => {
            &&& answers.len() == 0
            &&& out == Err::<I::Match, CompileError>(CompileError::PreprocessFailed)
            &&& v1 == v0
            &&& log1 == log0
        },
        Ok(source) => {
            &&& attempted(analysis, config, graph, file, v0, source@, answers)
            &&& log1 == log0 + logs(answers)
            &&& match out {
                Ok(found) => {
                    &&& answers.len() >= 1
                    &&& answers.last().data == Ok::<I::Match, ()>(found)
                    &&& v1 == stepped(graph, v0, answers.len())
                },
                Err(CompileError::CompileFailed) => {
                    &&& answers.len() >= 1 ==> answers.last().data is Err
                    &&& step_of(graph, stepped(graph, v0, answers.len())).1 is None
                    &&& v1 == stepped(graph, v0, answers.len() + 1)
                },
                Err(CompileError::PreprocessFailed) => false,
            }
        },
    }
}

/// At most one attempt of a run succeeds, and it is the last: the run ends
/// with the match data of the first attempt that the analysis accepts, and
/// it fails for its headers only where the analysis accepted none.
pub proof fn lemma_one_success<I: Interface>(
    analysis: &I,
    config: &Config,
    graph: DepGraphView,
    file: FileView,
    v0: SelectorView,
    log0: Seq<char>,
    pre: Result<String, ()>,
    answers: Seq<CompileResult<I::Match>>,
    out: Result<I::Match, CompileError>,
    v1: SelectorView,
    log1: Seq<char>,
)
    requires
        ran(analysis, config, graph, file, v0, log0, pre, answers, out, v1, log1),
    ensures
        forall|j: int|
            0 <= j < answers.len() && (#[trigger] answers[j]).data is Ok ==> j == answers.len() - 1
                && out == Ok::<I::Match, CompileError>(answers[j].data->Ok_0),
        out is Ok ==> pre is Ok && answers.len() >= 1 && answers.last().data is Ok,
        out == Err::<I::Match, CompileError>(CompileError::PreprocessFailed) <==> pre is Err,
        out == Err::<I::Match, CompileError>(CompileError::CompileFailed) ==> forall|j: int|
            0 <= j < answers.len() ==> (#[trigger] answers[j]).data is Err,
{
    if pre is Ok {
        assert forall|j: int| 0 <= j < answers.len() && (#[trigger] answers[j]).data
            is Ok implies j == answers.len() - 1 && out == Ok::<I::Match, CompileError>(
            answers[j].data->Ok_0,
        ) by {
            if j < answers.len() - 1 {
                assert(answers[j].data is Err);
            }
        }
        if out == Err::<I::Match, CompileError>(CompileError::CompileFailed) {
            assert forall|j: int| 0 <= j < answers.len() implies (#[trigger] answers[j]).data
                is Err by {
                if j < answers.len() - 1 {
                    assert(answers[j].data is Err);
                }
            }
        }
    }
}

/// This struct contains the functionality to compile a single source file.
pub struct Compiler<'a, I: Interface> {
    // Configuration
    config: &'a Config,
    interface: &'a I,
    // File we are compiling
    dg: &'a DepGraph,
    file: File,
    // Header selection
    selector: Selector<'a>,
    // Log data
    log_data: String,
}

impl<'a, I: Interface> Compiler<'a, I> {
    /// The state of header selection.
    pub closed spec fn selector(&self) -> SelectorView {
        self.selector@
    }

    /// The log gathered so far.
    pub closed spec fn log_text(&self) -> Seq<char> {
        self.log_data@
    }

    /// The graph of the repository.
    pub closed spec fn graph(&self) -> DepGraphView {
        self.dg@
    }

    /// The file to compile.
    pub closed spec fn file(&self) -> FileView {
        self.file@
    }

    /// The configuration.
    pub closed spec fn config(&self) -> &Config {
        self.config
    }

    /// The analysis that is asked.
    pub closed spec fn analysis(&self) -> &I {
        self.interface
    }

    /// What holds of every compiler: its selector is well formed and
    /// selects headers for its file in its graph.
    pub closed spec fn wf(&self) -> bool {
        &&& self.dg.wf()
        &&& self.selector.wf()
        &&& self.selector.graph() == self.dg@
        &&& self.selector.file() == self.file@
    }

    /// Create a compiler for `file`.
    pub fn new(file: File, dg: &'a DepGraph, config: &'a Config, interface: &'a I) -> (compiler:
        Self)
        requires
            dg.wf(),
        ensures
            compiler.wf(),
            compiler.graph() == dg@,
            compiler.file() == file@,
            compiler.log_text() == Seq::<char>::empty(),
            compiler.selector() == fresh(dg@, file@, config.miner.tries as nat),
            compiler.config() == config,
            compiler.analysis() == interface,
    {
        let selector = Selector::new(file.clone(), dg, config);
        Compiler { config, interface, dg, file, selector, log_data: String::new() }
    }

    /// Return the full path of the current file.
    fn file_full(&self) -> (path: String)
        ensures
            path@ == full_path(self.graph().root, self.file().path),
    {
        let parts = self.file.components();
        assert(texts(parts@).subrange(0, parts.len() as int) == texts(parts@));
        dir_under(self.dg.root().as_str(), &parts, parts.len())
    }

    /// Add the input string to the log.
    fn log(&mut self, input: &str)
        ensures
            final(self).log_text() == old(self).log_text() + input@,
            final(self).selector() == old(self).selector(),
            final(self).graph() == old(self).graph(),
            final(self).file() == old(self).file(),
            final(self).config() == old(self).config(),
            final(self).analysis() == old(self).analysis(),
            old(self).wf() ==> final(self).wf(),
    {
        self.log_data.append(input);
    }

    /// Takes in what one attempt gave: its log text is added to the log
    /// whatever the outcome, and the match data is handed on where the
    /// attempt succeeded.
    pub fn absorb(&mut self, result: CompileResult<I::Match>) -> (data: Option<I::Match>)
        ensures
            final(self).log_text() == old(self).log_text() + result.to_log@,
            data == match result.data {
                Ok(found) => Some(found),
                Err(_) => None::<I::Match>,
            },
            final(self).selector() == old(self).selector(),
            final(self).graph() == old(self).graph(),
            final(self).file() == old(self).file(),
            final(self).config() == old(self).config(),
            final(self).analysis() == old(self).analysis(),
            old(self).wf() ==> final(self).wf(),
    {
        self.log(result.to_log.as_str());
        match result.data {
            Ok(found) => Some(found),
            Err(_) => None,
        }
    }

    /// Attempt to compile the file under one header set: the analysis is
    /// asked once, and what it is handed is the configuration, the root of
    /// the repository, the full path of the file, the preprocessed source
    /// and the header set. The result is the answer of the analysis to
    /// that question, whatever it is.
    fn try_compile(&self, source: &str, full: &str, headers: &Vec<String>) -> (result: CompileResult<
        I::Match,
    >)
        ensures
            compiled(
                self.analysis(),
                self.config(),
                self.graph().root,
                full@,
                source@,
                texts(headers@),
                result,
            ),
    {
        let input = CompileInput {
            config: self.config,
            root: self.dg.root().as_str(),
            file: full,
            content: source,
            headers,
        };
        let ghost asked = input;
        let result = self.interface.compile(input);
        assert(handed(asked, self.config, self.graph().root, full@, source@, texts(headers@)));
        assert(call_ensures(I::compile, (self.interface, asked), result));
        result
    }

    /// Preprocess the file: the analysis is asked once, and what it is
    /// handed is the configuration, the root of the repository and the
    /// full path of the file. The result is the answer of the analysis to
    /// that question, whatever it is.
    fn preprocess(&self, full: &str) -> (answer: Result<String, ()>)
        ensures
            preprocessed(self.analysis(), self.config(), self.graph().root, full@, answer),
    {
        let input = PreInput { config: self.config, root: self.dg.root().as_str(), file: full };
        let ghost asked = input;
        let answer = self.interface.preprocess(input);
        assert(pre_handed(asked, self.config, self.graph().root, full@));
        assert(call_ensures(I::preprocess, (self.interface, asked), answer));
        answer
    }

    /// Try possible header combinations.
    ///
    /// The file is preprocessed once; where that fails, the run fails and
    /// nothing changes. Then each header set that the selector yields is
    /// handed to the analysis with the preprocessed source, until the
    /// analysis accepts one or the selector has nothing left. The first
    /// attempt that the analysis accepts ends the run with its match data;
    /// the run fails for its headers where the analysis accepted none. The
    /// log grows by the log text of each attempt, in order. What the
    /// analysis answers is not known beforehand: the contract says what the
    /// run makes of its answers, whatever they are.
    pub fn run(&mut self) -> (out: Result<I::Match, CompileError>)
        requires
            old(self).wf(),
        ensures
            final(self).wf(),
            final(self).graph() == old(self).graph(),
            final(self).file() == old(self).file(),
            final(self).config() == old(self).config(),
            final(self).analysis() == old(self).analysis(),
            exists|pre: Result<String, ()>, answers: Seq<CompileResult<I::Match>>| #[trigger]
                ran(
                    old(self).analysis(),
                    old(self).config(),
                    old(self).graph(),
                    old(self).file(),
                    old(self).selector(),
                    old(self).log_text(),
                    pre,
                    answers,
                    out,
                    final(self).selector(),
                    final(self).log_text(),
                ),
            starts_with(final(self).log_text(), old(self).log_text()),
            starts_with(final(self).selector().tried, old(self).selector().tried),
            final(self).selector().tried.len() + final(self).selector().tries == old(
                self,
            ).selector().tried.len() + old(self).selector().tries,
            out is Ok ==> final(self).selector().tried.len() > old(self).selector().tried.len(),
            out == Err::<I::Match, CompileError>(CompileError::CompileFailed) ==> spent(
                final(self).selector(),
            ),
    {
        let full = self.file_full();
        let ghost graph = self.graph();
        let ghost v0 = self.selector();
        let ghost log0 = self.log_text();
        let ghost file = self.file();
        let ghost path = full_path(graph.root, file.path);
        proof {
            assert(log0.subrange(0, log0.len() as int) == log0);
            assert(v0.tried.subrange(0, v0.tried.len() as int) == v0.tried);
        }
        let pre = self.preprocess(full.as_str());
        let source = match pre {
            Ok(source) => source,
            Err(_) => {
                proof {
                    let none = Seq::<CompileResult<I::Match>>::empty();
                    assert(ran(
                        self.analysis(),
                        self.config(),
                        graph,
                        file,
                        v0,
                        log0,
                        pre,
                        none,
                        Err::<I::Match, CompileError>(CompileError::PreprocessFailed),
                        v0,
                        log0,
                    ));
                }
                return Err(CompileError::PreprocessFailed);
            },
        };
        let ghost mut answers: Seq<CompileResult<I::Match>> = Seq::empty();
        proof {
            assert(log0 + logs(answers) == log0);
        }
        loop
            invariant
                self.wf(),
                graph == old(self).graph(),
                v0 == old(self).selector(),
                log0 == old(self).log_text(),
                file == old(self).file(),
                path == full_path(graph.root, file.path),
                full@ == path,
                pre == Ok::<String, ()>(source),
                preprocessed(self.analysis(), self.config(), graph.root, path, pre),
                self.graph() == graph,
                self.file() == file,
                self.config() == old(self).config(),
                self.analysis() == old(self).analysis(),
                self.selector() == stepped(graph, v0, answers.len()),
                attempted(self.analysis(), self.config(), graph, file, v0, source@, answers),
                forall|j: int| 0 <= j < answers.len() ==> (#[trigger] answers[j]).data is Err,
                self.log_text() == log0 + logs(answers),
                starts_with(self.log_text(), log0),
                starts_with(self.selector().tried, v0.tried),
                self.selector().tried.len() == v0.tried.len() + answers.len(),
                self.selector().tries + answers.len() == v0.tries,
            decreases self.selector().tries,
        {
            let ghost before_tried = self.selector().tried;
            let ghost before_log = self.log_text();
            let ghost stood = self.selector();
            let ghost k = answers.len();
            let headers = match self.selector.step() {
                Some(headers) => headers,
                None => {
                    proof {
                        assert(step_of(graph, stood).1 is None);
                        assert(stepped(graph, v0, k + 1) == self.selector());
                        assert(ran(
                            self.analysis(),
                            self.config(),
                            graph,
                            file,
                            v0,
                            log0,
                            pre,
                            answers,
                            Err::<I::Match, CompileError>(CompileError::CompileFailed),
                            self.selector(),
                            self.log_text(),
                        ));
                    }
                    return Err(CompileError::CompileFailed);
                },
            };
            proof {
                assert(step_of(graph, stood).1 == Some(texts(headers@)));
                assert(stepped(graph, v0, k + 1) == step_of(graph, stood).0);
            }
            let result = self.try_compile(source.as_str(), full.as_str(), &headers);
            let ghost answer = result;
            let data = self.absorb(result);
            proof {
                lemma_one_more(
                    self.analysis(),
                    self.config(),
                    graph,
                    file,
                    v0,
                    source@,
                    answers,
                    answer,
                );
                assert(log0 + logs(answers) + answer.to_log@ == log0 + (logs(answers)
                    + answer.to_log@));
                assert(self.selector().tried.subrange(0, v0.tried.len() as int)
                    == before_tried.subrange(0, v0.tried.len() as int));
                assert((before_log + answer.to_log@).subrange(0, log0.len() as int)
                    == before_log.subrange(0, log0.len() as int));
                answers = answers.push(answer);
            }
            match data {
                Some(found) => {
                    proof {
                        assert(ran(
                            self.analysis(),
                            self.config(),
                            graph,
                            file,
                            v0,
                            log0,
                            pre,
                            answers,
                            Ok::<I::Match, CompileError>(found),
                            self.selector(),
                            self.log_text(),
                        ));
                    }
                    return Ok(found);
                },
                None => {},
            }
        }
    }

    pub fn get_log(&self) -> (log: &str)
        ensures
            log@ == self.log_text(),
    {
        self.log_data.as_str()
    }
}

} // verus!
