//! The contract by which an analysis is plugged in.
//!
//! An analysis owns the shape of what it finds (`Match`) and of the store
//! that it writes to (`Store`); the engine only carries both through.

use vstd::prelude::*;
use crate::config::Config;

verus! {

/// What `init` is given.
pub struct InitInput<'a, S> {
    pub config: &'a Config,
    pub db: &'a S,
}

/// What `preprocess` is given.
pub struct PreInput<'a> {
    pub config: &'a Config,
    /// Directory of the repository.
    pub root: &'a str,
    /// Full path of the source file.
    pub file: &'a str,
}

/// What `compile` is given.
pub struct CompileInput<'a> {
    pub config: &'a Config,
    /// Directory of the repository.
    pub root: &'a str,
    /// Full path of the source file.
    pub file: &'a str,
    /// File after preprocessing.
    pub content: &'a str,
    /// Header choices: the include directories to compile under.
    pub headers: &'a Vec<String>,
}

/// What `compile` hands back.
pub struct CompileResult<M> {
    /// Instance specific match data.
    pub data: Result<M, ()>,
    /// Data to output to the log of the current repository.
    pub to_log: String,
}

/// What `intern` is given.
pub struct InternInput<'a, M, S> {
    pub config: &'a Config,
    pub repo_id: i64,
    pub data: &'a Vec<M>,
    pub db: &'a S,
}

/// An analysis. Nothing is promised of what its operations return: the
/// engine is verified for every outcome.
pub trait Interface {
    /// What a successful compile finds in one file.
    type Match;

    /// The store that findings are written to.
    type Store;

    /// Called once after the search has finished but before any
    /// preprocessing or compilation happens. Does nothing by default.
    fn init(&self, input: InitInput<'_, Self::Store>) -> Result<(), String> {
        Ok(())
    }

    /// Called once on the source file; the result is sent to the compile
    /// phase.
    fn preprocess(&self, input: PreInput<'_>) -> Result<String, ()>;

    /// Called for each header set of a source file. If this returns `Ok`,
    /// the result is passed to the intern phase. Otherwise, alternative
    /// headers are tried.
    fn compile(&self, input: CompileInput<'_>) -> CompileResult<Self::Match>;

    /// Called after all mining of a repository has finished with the
    /// compilation results.
    fn intern(&self, input: InternInput<'_, Self::Match, Self::Store>) -> Result<(), ()>;
}

} // verus!
