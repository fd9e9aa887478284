//! Running one repository through the pipeline.
//!
//! Cloning, mining, interning and recording are done by the caller; what is
//! to be done next is decided here. A [`Runner`] is a state machine: it is
//! told what happened and answers with the next order. Whatever happens, the
//! clone directory is removed before the run is finished.

use vstd::prelude::*;
use vstd::string::StringExecFns;
use crate::miner::MineResult;
use crate::path::under;
use crate::text::{decimal, decimal_text, replace_char, replaced};

verus! {

/// A repository of the candidate pool.
#[derive(Debug, PartialEq, Eq)]
pub struct RepoData {
    // Repository info
    pub id: i64,
    pub name: String,
    pub url: String,
    pub stars: i64,
    // Physical repo
    pub dir: Option<String>,
}

pub struct RepoView {
    pub id: i64,
    pub name: Seq<char>,
    pub url: Seq<char>,
    pub stars: i64,
    pub dir: Option<Seq<char>>,
}

pub open spec fn option_text(text: Option<String>) -> Option<Seq<char>> {
    match text {
        Some(t) => Some(t@),
        None => None,
    }
}

impl View for RepoData {
    type V = RepoView;

    open spec fn view(&self) -> RepoView {
        RepoView {
            id: self.id,
            name: self.name@,
            url: self.url@,
            stars: self.stars,
            dir: option_text(self.dir),
        }
    }
}

impl Clone for RepoData {
    fn clone(&self) -> (out: Self)
        ensures
            out@ == self@,
    {
        RepoData {
            id: self.id,
            name: self.name.clone(),
            url: self.url.clone(),
            stars: self.stars,
            dir: match &self.dir {
                Some(dir) => Some(dir.clone()),
                None => None,
            },
        }
    }
}

/// The directory that repository `id` is cloned to.
pub open spec fn clone_dir_of(tmp_dir: Seq<char>, id: i64) -> Seq<char> {
    under(tmp_dir, seq![decimal(id as int)])
}

/// The name of the log file of a repository: its id, a hyphen, its name
/// with every slash turned into a hyphen, and `.log`.
pub open spec fn log_name_of(id: i64, name: Seq<char>) -> Seq<char> {
    decimal(id as int) + "-"@ + replaced(name, '/', "-"@) + ".log"@
}

/// The path of the log file of a repository.
pub open spec fn log_file_of(log_dir: Seq<char>, id: i64, name: Seq<char>) -> Seq<char> {
    under(log_dir, seq![log_name_of(id, name)])
}

/// The repository that the fields of a search result stand for: all four
/// must be there.
pub open spec fn repo_of(
    id: Option<i64>,
    name: Option<Seq<char>>,
    url: Option<Seq<char>>,
    stars: Option<i64>,
) -> Option<RepoView> {
    if id is Some && name is Some && url is Some && stars is Some {
        Some(
            RepoView {
                id: id.unwrap(),
                name: name.unwrap(),
                url: url.unwrap(),
                stars: stars.unwrap(),
                dir: None,
            },
        )
    } else {
        None
    }
}

pub open spec fn option_str(text: Option<&str>) -> Option<Seq<char>> {
    match text {
        Some(t) => Some(t@),
        None => None,
    }
}

fn one_part_under(dir: &str, name: String) -> (out: String)
    ensures
        out@ == under(dir@, seq![name@]),
{
    let mut parts: Vec<String> = Vec::new();
    parts.push(name);
    assert(crate::path::texts(parts@).subrange(0, 1) == seq![name@]);
    crate::path::dir_under(dir, &parts, 1)
}

impl RepoData {
    /// A repository that has not been cloned.
    pub fn new(id: i64, name: &str, url: &str, stars: i64) -> (repo: Self)
        ensures
            repo@ == (RepoView { id, name: name@, url: url@, stars, dir: None }),
    {
        RepoData { id, name: name.to_owned(), url: url.to_owned(), stars, dir: None }
    }

    /// A repository from the fields of a search result: the id, the full
    /// name, the clone URL and the star count. Fails where one is missing.
    pub fn from_fields(
        id: Option<i64>,
        name: Option<&str>,
        url: Option<&str>,
        stars: Option<i64>,
    ) -> (repo: Result<Self, ()>)
        ensures
            match repo {
                Ok(r) => Some(r@) == repo_of(id, option_str(name), option_str(url), stars),
                Err(_) => repo_of(id, option_str(name), option_str(url), stars) is None,
            },
    {
        match (id, name, url, stars) {
            (Some(id), Some(name), Some(url), Some(stars)) => Ok(Self::new(id, name, url, stars)),
            _ => Err(()),
        }
    }

    /// The directory below `tmp_dir` that the repository is cloned to.
    pub fn clone_dir(&self, tmp_dir: &str) -> (dir: String)
        ensures
            dir@ == clone_dir_of(tmp_dir@, self.id),
    {
        one_part_under(tmp_dir, decimal_text(self.id))
    }

    /// The name of the log file of the repository.
    pub fn log_name(&self) -> (name: String)
        ensures
            name@ == log_name_of(self.id, self.name@),
    {
        let mut name = decimal_text(self.id);
        name.append("-");
        name.append(replace_char(self.name.as_str(), '/', "-").as_str());
        name.append(".log");
        name
    }

    /// The path below `log_dir` of the log file of the repository.
    pub fn log_file(&self, log_dir: &str) -> (file: String)
        ensures
            file@ == log_file_of(log_dir@, self.id, self.name@),
    {
        one_part_under(log_dir, self.log_name())
    }
}

/// The name of the archive that the log file `log_file` is compressed to.
pub fn archive_name(log_file: &str) -> (name: String)
    ensures
        name@ == log_file@ + ".tar.gz"@,
{
    let mut name = log_file.to_owned();
    name.append(".tar.gz");
    name
}

pub open spec fn repo_views(v: Seq<RepoData>) -> Seq<RepoView> {
    Seq::new(v.len(), |i: int| v[i]@)
}

/// The repositories of `repos` whose id is not among `mined`, in order.
pub open spec fn unmined(repos: Seq<RepoView>, mined: Seq<i64>) -> Seq<RepoView>
    decreases repos.len(),
{
    if repos.len() == 0 {
        Seq::empty()
    } else if mined.contains(repos.last().id) {
        unmined(repos.drop_last(), mined)
    } else {
        unmined(repos.drop_last(), mined).push(repos.last())
    }
}

/// The ids of `repos`, in order.
pub open spec fn repo_ids(repos: Seq<RepoView>) -> Seq<i64> {
    Seq::new(repos.len(), |i: int| repos[i].id)
}

/// Whether `id` is among `mined`.
pub fn is_mined(mined: &Vec<i64>, id: i64) -> (found: bool)
    ensures
        found == mined@.contains(id),
{
    let mut i: usize = 0;
    while i < mined.len()
        invariant
            i <= mined.len(),
            forall|j: int| 0 <= j < i ==> mined[j] != id,
        decreases mined.len() - i,
    {
        if mined[i] == id {
            return true;
        }
        i += 1;
    }
    false
}

/// The repositories that are still to be mined: those of the pool that are
/// not marked as mined.
pub fn un_mined_repos(repos: &Vec<RepoData>, mined: &Vec<i64>) -> (out: Vec<RepoData>)
    ensures
        repo_views(out@) == unmined(repo_views(repos@), mined@),
{
    let mut out: Vec<RepoData> = Vec::new();
    let n = repos.len();
    let mut i: usize = 0;
    let ghost all = repo_views(repos@);
    assert(all.take(0) == Seq::<RepoView>::empty());
    assert(repo_views(out@) == Seq::<RepoView>::empty());
    while i < n
        invariant
            n == repos.len(),
            i <= n,
            all == repo_views(repos@),
            repo_views(out@) == unmined(all.take(i as int), mined@),
        decreases n - i,
    {
        proof {
            assert(all.take(i + 1).drop_last() == all.take(i as int));
            assert(all.take(i + 1).last() == repos[i as int]@);
        }
        if !is_mined(mined, repos[i].id) {
            let repo = repos[i].clone();
            assert(repo_views(out@.push(repo)) == repo_views(out@).push(repo@));
            out.push(repo);
        }
        i += 1;
    }
    assert(all.take(n as int) == all);
    out
}

/// No repository that is marked as mined is selected, every other one is,
/// and what is selected comes from the pool.
pub proof fn lemma_unmined(repos: Seq<RepoView>, mined: Seq<i64>)
    ensures
        forall|j: int|
            0 <= j < unmined(repos, mined).len() ==> !mined.contains(
                (#[trigger] unmined(repos, mined)[j]).id,
            ) && repos.contains(unmined(repos, mined)[j]),
        forall|i: int|
            0 <= i < repos.len() && !mined.contains((#[trigger] repos[i]).id) ==> unmined(
                repos,
                mined,
            ).contains(repos[i]),
    decreases repos.len(),
{
    if repos.len() > 0 {
        let rest = repos.drop_last();
        lemma_unmined(rest, mined);
        let now = unmined(repos, mined);
        let before = unmined(rest, mined);
        assert forall|j: int| 0 <= j < now.len() implies !mined.contains((#[trigger] now[j]).id)
            && repos.contains(now[j]) by {
            if j < before.len() {
                assert(now[j] == before[j]);
                let at = choose|at: int| 0 <= at < rest.len() && rest[at] == before[j];
                assert(repos[at] == now[j]);
            } else {
                assert(now[j] == repos[repos.len() - 1]);
            }
        }
        assert forall|i: int|
            0 <= i < repos.len() && !mined.contains((#[trigger] repos[i]).id) implies now.contains(
            repos[i],
        ) by {
            if i < rest.len() {
                assert(rest[i] == repos[i]);
                let at = choose|at: int| 0 <= at < before.len() && before[at] == rest[i];
                assert(now[at] == repos[i]);
            } else {
                assert(now[now.len() - 1] == repos[i]);
            }
        }
    }
}

/// Once every selected repository is marked as mined, nothing is selected:
/// a second run over the same pool is a no-op.
pub proof fn lemma_second_run_is_empty(repos: Seq<RepoView>, mined: Seq<i64>)
    ensures
        unmined(repos, mined + repo_ids(unmined(repos, mined))).len() == 0,
{
    let first = unmined(repos, mined);
    let marked = mined + repo_ids(first);
    lemma_unmined(repos, mined);
    lemma_unmined(repos, marked);
    let second = unmined(repos, marked);
    if second.len() > 0 {
        let r = second[0];
        assert(!marked.contains(r.id));
        assert(repos.contains(r));
        let i = choose|i: int| 0 <= i < repos.len() && repos[i] == r;
        if mined.contains(r.id) {
            let j = choose|j: int| 0 <= j < mined.len() && mined[j] == r.id;
            assert(marked[j] == r.id);
        } else {
            assert(first.contains(repos[i]));
            let j = choose|j: int| 0 <= j < first.len() && first[j] == r;
            assert(marked[mined.len() + j] == r.id);
        }
    }
}

/// The statistics of a mined repository as they are recorded.
#[derive(Clone, Copy, Debug, PartialEq, Eq, Structural)]
pub struct Counts {
    pub n_files: i64,
    pub n_success: i64,
    pub n_error: i64,
}

impl Counts {
    /// Whether the counts add up: none is negative, and every file either
    /// succeeded or failed.
    pub open spec fn consistent(self) -> bool {
        &&& 0 <= self.n_success
        &&& 0 <= self.n_error
        &&& self.n_files == self.n_success + self.n_error
    }

    pub fn is_consistent(&self) -> (ok: bool)
        ensures
            ok == self.consistent(),
    {
        0 <= self.n_success && 0 <= self.n_error && self.n_files >= self.n_error && self.n_files
            - self.n_error == self.n_success
    }
}

impl<M> MineResult<M> {
    /// The statistics of the result as they are recorded; `None` where a
    /// count is beyond what a record can hold.
    pub fn counts(&self) -> (counts: Option<Counts>)
        ensures
            match counts {
                Some(c) => c.n_files == self.n_files && c.n_success == self.n_success && c.n_error
                    == self.n_error,
                None => self.n_files > i64::MAX || self.n_success > i64::MAX || self.n_error
                    > i64::MAX,
            },
            self.consistent() && counts is Some ==> counts.unwrap().consistent(),
    {
        match (to_count(self.n_files), to_count(self.n_success), to_count(self.n_error)) {
            (Some(n_files), Some(n_success), Some(n_error)) => Some(
                Counts { n_files, n_success, n_error },
            ),
            _ => None,
        }
    }
}

fn to_count(n: usize) -> (count: Option<i64>)
    ensures
        match count {
            Some(c) => c == n,
            None => n > i64::MAX,
        },
{
    if n as u64 > 0x7fff_ffff_ffff_ffff {
        None
    } else {
        Some(n as i64)
    }
}

/// Where a run stands.
#[derive(Clone, Copy, Debug, PartialEq, Eq, Structural)]
pub enum Phase {
    /// Nothing has been done.
    Created,
    /// The repository is being cloned.
    Cloning,
    /// The files of the clone are being compiled.
    Mining,
    /// The match data are being interned.
    Interning,
    /// The repository is being marked as mined and its statistics stored.
    Recording,
    /// The clone directory is being removed.
    Removing,
    /// The run is over.
    Done,
}

/// What a runner is told.
#[derive(Clone, Copy, Debug, PartialEq, Eq, Structural)]
pub enum Event {
    /// The run is to begin.
    Begin,
    /// Cloning ended, with or without success.
    Cloned { ok: bool },
    /// Mining ended: with the statistics of its result, or without a result.
    Mined { counts: Option<Counts> },
    /// Interning ended, with or without success, so many milliseconds after
    /// the run began.
    Interned { ok: bool, elapsed_ms: i64 },
    /// The repository was marked as mined and its statistics were stored.
    Recorded,
    /// The clone directory is gone.
    Removed,
    /// The work ordered last panicked or could not be done.
    Failed,
}

/// A row of the statistics table.
#[derive(Clone, Copy, Debug, PartialEq, Eq, Structural)]
pub struct StatsRow {
    pub repo_id: i64,
    pub n_files: i64,
    pub n_success: i64,
    pub n_error: i64,
    pub elapsed_ms: i64,
}

/// What a runner orders.
#[derive(Debug, PartialEq, Eq)]
pub enum Order {
    /// Remove what is at `dir`, then clone `url` into it.
    Clone { url: String, dir: String },
    /// Mine the clone at `dir`, logging to `log_file`.
    Mine { dir: String, log_file: String },
    /// Intern the match data of the repository in one transaction.
    Intern { repo_id: i64 },
    /// Mark repository `mined` as mined and store `stats`.
    Record { mined: i64, stats: StatsRow },
    /// Remove the clone directory `dir`.
    Remove { dir: String },
    /// Nothing is left to do.
    Finish,
}

pub enum OrderView {
    Clone { url: Seq<char>, dir: Seq<char> },
    Mine { dir: Seq<char>, log_file: Seq<char> },
    Intern { repo_id: i64 },
    Record { mined: i64, stats: StatsRow },
    Remove { dir: Seq<char> },
    Finish,
}

impl View for Order {
    type V = OrderView;

    open spec fn view(&self) -> OrderView {
        match self {
            Order::Clone { url, dir } => OrderView::Clone { url: url@, dir: dir@ },
            Order::Mine { dir, log_file } => OrderView::Mine { dir: dir@, log_file: log_file@ },
            Order::Intern { repo_id } => OrderView::Intern { repo_id: *repo_id },
            Order::Record { mined, stats } => OrderView::Record { mined: *mined, stats: *stats },
            Order::Remove { dir } => OrderView::Remove { dir: dir@ },
            Order::Finish => OrderView::Finish,
        }
    }
}

/// The state of a run.
pub struct RunnerView {
    pub repo: RepoView,
    pub tmp_dir: Seq<char>,
    pub log_dir: Seq<char>,
    /// Whether a repository whose interning failed is still marked as mined.
    pub mark_failed: bool,
    pub phase: Phase,
    /// The statistics of the mining result, once there is one.
    pub counts: Option<Counts>,
}

impl RunnerView {
    /// The directory of the clone.
    pub open spec fn dir(self) -> Seq<char> {
        clone_dir_of(self.tmp_dir, self.repo.id)
    }

    /// What every run satisfies: the repository holds its clone directory
    /// exactly while there is a clone, statistics are held from interning
    /// to recording, and they add up.
    pub open spec fn wf(self) -> bool {
        &&& self.repo.dir == match self.phase {
            Phase::Mining | Phase::Interning | Phase::Recording => Some(self.dir()),
            _ => None::<Seq<char>>,
        }
        &&& self.phase == Phase::Interning || self.phase == Phase::Recording ==> self.counts
            is Some
        &&& self.counts matches Some(c) ==> c.consistent()
    }

    /// The order to remove the clone.
    pub open spec fn remove(self) -> (RunnerView, OrderView) {
        (
            RunnerView {
                phase: Phase::Removing,
                repo: RepoView { dir: None, ..self.repo },
                ..self
            },
            OrderView::Remove { dir: self.dir() },
        )
    }

    /// The state after `event` and the order that answers it.
    ///
    /// A run goes from cloning over mining and interning to recording. A
    /// clone that failed and a mining without a consistent result end the
    /// run without a record; a failed interning does so unless `mark_failed`
    /// is set. Every way out leads through the removal of the clone, and
    /// the removal is ordered again until it is confirmed.
    pub open spec fn after(self, event: Event) -> (RunnerView, OrderView) {
        match self.phase {
            Phase::Created => match event {
                Event::Begin => (
                    RunnerView { phase: Phase::Cloning, ..self },
                    OrderView::Clone { url: self.repo.url, dir: self.dir() },
                ),
                _ => self.remove(),
            },
            Phase::Cloning => match event {
                Event::Cloned { ok: true } => (
                    RunnerView {
                        phase: Phase::Mining,
                        repo: RepoView { dir: Some(self.dir()), ..self.repo },
                        ..self
                    },
                    OrderView::Mine {
                        dir: self.dir(),
                        log_file: log_file_of(self.log_dir, self.repo.id, self.repo.name),
                    },
                ),
                _ => self.remove(),
            },
            Phase::Mining => match event {
                Event::Mined { counts: Some(c) } => if c.consistent() {
                    (
                        RunnerView { phase: Phase::Interning, counts: Some(c), ..self },
                        OrderView::Intern { repo_id: self.repo.id },
                    )
                } else {
                    self.remove()
                },
                _ => self.remove(),
            },
            Phase::Interning => match event {
                Event::Interned { ok, elapsed_ms } => if (ok || self.mark_failed) && self.counts
                    is Some {
                    (
                        RunnerView { phase: Phase::Recording, ..self },
                        OrderView::Record {
                            mined: self.repo.id,
                            stats: StatsRow {
                                repo_id: self.repo.id,
                                n_files: self.counts.unwrap().n_files,
                                n_success: self.counts.unwrap().n_success,
                                n_error: self.counts.unwrap().n_error,
                                elapsed_ms,
                            },
                        },
                    )
                } else {
                    self.remove()
                },
                _ => self.remove(),
            },
            Phase::Recording => self.remove(),
            Phase::Removing => match event {
                Event::Removed => (RunnerView { phase: Phase::Done, ..self }, OrderView::Finish),
                _ => self.remove(),
            },
            Phase::Done => (self, OrderView::Finish),
        }
    }
}

/// How far a run has come.
pub open spec fn rank(phase: Phase) -> int {
    match phase {
        Phase::Created => 0,
        Phase::Cloning => 1,
        Phase::Mining => 2,
        Phase::Interning => 3,
        Phase::Recording => 4,
        Phase::Removing => 5,
        Phase::Done => 6,
    }
}

/// A run is only over once the removal of the clone directory has been
/// confirmed, and then the repository holds no clone directory.
pub proof fn lemma_done_after_removal(v: RunnerView, event: Event)
    requires
        v.wf(),
    ensures
        v.after(event).0.wf(),
        v.after(event).0.phase == Phase::Done ==> v.phase == Phase::Done || (v.phase
            == Phase::Removing && event == Event::Removed),
        v.after(event).0.phase == Phase::Done ==> v.after(event).0.repo.dir is None,
        v.phase != Phase::Done && v.after(event).1 is Finish ==> v.phase == Phase::Removing,
{
}

/// Whatever fails, the clone is removed: a run that is not over answers a
/// failure, a clone that failed and a mining without result with the
/// order to remove the clone directory of its repository.
pub proof fn lemma_failure_is_cleaned_up(v: RunnerView, event: Event)
    requires
        v.phase != Phase::Done,
        event == Event::Failed || (v.phase == Phase::Cloning && event == (Event::Cloned {
            ok: false,
        })) || (v.phase == Phase::Mining && event == (Event::Mined { counts: None })),
    ensures
        v.after(event).1 == (OrderView::Remove { dir: v.dir() }),
        v.after(event).0.phase == Phase::Removing,
        v.after(event).0.repo.dir is None,
{
}

/// A run never goes back, and it moves on with every event but a removal
/// that is not confirmed: after at most six events that count the removal
/// is under way.
pub proof fn lemma_run_moves_on(v: RunnerView, event: Event)
    ensures
        rank(v.after(event).0.phase) >= rank(v.phase),
        v.phase != Phase::Removing && v.phase != Phase::Done ==> rank(v.after(event).0.phase)
            > rank(v.phase),
{
}

/// Whoever is marked as mined has statistics: a record names one repository
/// for both, it is that of the run, and its counts add up.
pub proof fn lemma_record_is_whole(v: RunnerView, event: Event)
    requires
        v.wf(),
    ensures
        v.after(event).1 matches OrderView::Record { mined, stats } ==> {
            &&& mined == v.repo.id
            &&& stats.repo_id == mined
            &&& stats.n_files == stats.n_success + stats.n_error
            &&& v.phase == Phase::Interning
        },
{
}

/// One repository on its way through the pipeline.
pub struct Runner {
    repo: RepoData,
    tmp_dir: String,
    log_dir: String,
    mark_failed: bool,
    phase: Phase,
    counts: Option<Counts>,
}

impl View for Runner {
    type V = RunnerView;

    closed spec fn view(&self) -> RunnerView {
        RunnerView {
            repo: self.repo@,
            tmp_dir: self.tmp_dir@,
            log_dir: self.log_dir@,
            mark_failed: self.mark_failed,
            phase: self.phase,
            counts: self.counts,
        }
    }
}

impl Runner {
    /// Create a new runner. `mark_failed` says whether a repository whose
    /// interning failed is still marked as mined.
    pub fn new(repo: RepoData, tmp_dir: &str, log_dir: &str, mark_failed: bool) -> (runner: Self)
        ensures
            runner@ == (RunnerView {
                repo: RepoView { dir: None, ..repo@ },
                tmp_dir: tmp_dir@,
                log_dir: log_dir@,
                mark_failed,
                phase: Phase::Created,
                counts: None,
            }),
            runner@.wf(),
    {
        let repo = RepoData { dir: None, ..repo };
        Runner {
            repo,
            tmp_dir: tmp_dir.to_owned(),
            log_dir: log_dir.to_owned(),
            mark_failed,
            phase: Phase::Created,
            counts: None,
        }
    }

    pub fn phase(&self) -> (phase: Phase)
        ensures
            phase == self@.phase,
    {
        self.phase
    }

    pub fn repo(&self) -> (repo: &RepoData)
        ensures
            repo@ == self@.repo,
    {
        &self.repo
    }

    fn remove(&mut self) -> (order: Order)
        ensures
            (final(self)@, order@) == old(self)@.remove(),
    {
        self.phase = Phase::Removing;
        self.repo.dir = None;
        Order::Remove { dir: self.repo.clone_dir(self.tmp_dir.as_str()) }
    }

    /// Takes in what happened and says what is to be done next.
    pub fn next(&mut self, event: Event) -> (order: Order)
        requires
            old(self)@.wf(),
        ensures
            (final(self)@, order@) == old(self)@.after(event),
            final(self)@.wf(),
    {
        proof {
            lemma_done_after_removal(self@, event);
        }
        match self.phase {
            Phase::Created => match event {
                Event::Begin => {
                    self.phase = Phase::Cloning;
                    Order::Clone {
                        url: self.repo.url.clone(),
                        dir: self.repo.clone_dir(self.tmp_dir.as_str()),
                    }
                },
                _ => self.remove(),
            },
            Phase::Cloning => match event {
                Event::Cloned { ok: true } => {
                    let dir = self.repo.clone_dir(self.tmp_dir.as_str());
                    self.phase = Phase::Mining;
                    self.repo.dir = Some(dir.clone());
                    Order::Mine { dir, log_file: self.repo.log_file(self.log_dir.as_str()) }
                },
                _ => self.remove(),
            },
            Phase::Mining => match event {
                Event::Mined { counts: Some(c) } => {
                    if c.is_consistent() {
                        self.phase = Phase::Interning;
                        self.counts = Some(c);
                        Order::Intern { repo_id: self.repo.id }
                    } else {
                        self.remove()
                    }
                },
                _ => self.remove(),
            },
            Phase::Interning => match event {
                Event::Interned { ok, elapsed_ms } => {
                    match self.counts {
                        Some(c) => {
                            if ok || self.mark_failed {
                                self.phase = Phase::Recording;
                                Order::Record {
                                    mined: self.repo.id,
                                    stats: StatsRow {
                                        repo_id: self.repo.id,
                                        n_files: c.n_files,
                                        n_success: c.n_success,
                                        n_error: c.n_error,
                                        elapsed_ms,
                                    },
                                }
                            } else {
                                self.remove()
                            }
                        },
                        None => self.remove(),
                    }
                },
                _ => self.remove(),
            },
            Phase::Recording => self.remove(),
            Phase::Removing => match event {
                Event::Removed => {
                    self.phase = Phase::Done;
                    Order::Finish
                },
                _ => self.remove(),
            },
            Phase::Done => Order::Finish,
        }
    }
}

} // verus!
