use crawler::miner::MineResult;
use crawler::runner::{
    archive_name, is_mined, un_mined_repos, Counts, Event, Order, Phase, RepoData, Runner,
    StatsRow,
};

fn repo(id: i64) -> RepoData {
    RepoData::new(id, "owner/name", "https://example.org/owner/name.git", 7)
}

fn counts(n_files: i64, n_success: i64, n_error: i64) -> Counts {
    Counts { n_files, n_success, n_error }
}

#[test]
fn repo_from_fields_needs_all_four() {
    let made = RepoData::from_fields(Some(5), Some("a/b"), Some("url"), Some(9)).unwrap();
    assert_eq!(made, RepoData::new(5, "a/b", "url", 9));
    assert_eq!(made.dir, None);
    assert_eq!(made.clone(), made);
    assert!(RepoData::from_fields(None, Some("a/b"), Some("url"), Some(9)).is_err());
    assert!(RepoData::from_fields(Some(5), None, Some("url"), Some(9)).is_err());
    assert!(RepoData::from_fields(Some(5), Some("a/b"), None, Some(9)).is_err());
    assert!(RepoData::from_fields(Some(5), Some("a/b"), Some("url"), None).is_err());
}

#[test]
fn clone_directory_is_named_by_the_id() {
    assert_eq!(repo(42).clone_dir("/tmp/crawl"), "/tmp/crawl/42");
    assert_eq!(repo(-3).clone_dir("tmp/"), "tmp/-3");
    assert_eq!(repo(0).clone_dir(""), "0");
}

#[test]
fn log_file_name_has_id_and_safe_name() {
    assert_eq!(repo(42).log_name(), "42-owner-name.log");
    assert_eq!(repo(42).log_file("log/2024"), "log/2024/42-owner-name.log");
    assert_eq!(RepoData::new(1, "a/b/c", "", 0).log_name(), "1-a-b-c.log");
    assert_eq!(archive_name("log/42-owner-name.log"), "log/42-owner-name.log.tar.gz");
}

#[test]
fn mined_repository_is_not_selected_again() {
    let pool = vec![repo(1), repo(42), repo(7)];
    let mined = vec![42];
    assert!(is_mined(&mined, 42));
    assert!(!is_mined(&mined, 4));
    assert_eq!(un_mined_repos(&pool, &mined), vec![repo(1), repo(7)]);
    assert_eq!(un_mined_repos(&pool, &vec![]), pool);
}

#[test]
fn second_run_selects_nothing() {
    let pool = vec![repo(1), repo(42), repo(7)];
    let mut mined = vec![42];
    let first = un_mined_repos(&pool, &mined);
    for r in &first {
        mined.push(r.id);
    }
    assert_eq!(un_mined_repos(&pool, &mined), vec![]);
}

#[test]
fn counts_of_a_result_add_up() {
    let result = MineResult::gather(vec![Some(1), None, Some(2)]);
    let c = result.counts().unwrap();
    assert_eq!(c, counts(3, 2, 1));
    assert!(c.is_consistent());
    assert!(!counts(3, 2, 2).is_consistent());
    assert!(!counts(1, -1, 2).is_consistent());
    assert!(!counts(i64::MIN, 1, 1).is_consistent());
}

#[test]
fn run_goes_from_clone_to_record_and_removes_the_clone() {
    let mut runner = Runner::new(repo(42), "tmp", "log", true);
    assert_eq!(runner.phase(), Phase::Created);
    assert_eq!(
        runner.next(Event::Begin),
        Order::Clone {
            url: "https://example.org/owner/name.git".to_string(),
            dir: "tmp/42".to_string()
        }
    );
    assert_eq!(runner.phase(), Phase::Cloning);
    assert_eq!(
        runner.next(Event::Cloned { ok: true }),
        Order::Mine { dir: "tmp/42".to_string(), log_file: "log/42-owner-name.log".to_string() }
    );
    assert_eq!(runner.repo().dir, Some("tmp/42".to_string()));
    assert_eq!(
        runner.next(Event::Mined { counts: Some(counts(3, 2, 1)) }),
        Order::Intern { repo_id: 42 }
    );
    assert_eq!(
        runner.next(Event::Interned { ok: true, elapsed_ms: 1500 }),
        Order::Record {
            mined: 42,
            stats: StatsRow { repo_id: 42, n_files: 3, n_success: 2, n_error: 1, elapsed_ms: 1500 }
        }
    );
    assert_eq!(runner.phase(), Phase::Recording);
    assert_eq!(runner.next(Event::Recorded), Order::Remove { dir: "tmp/42".to_string() });
    assert_eq!(runner.phase(), Phase::Removing);
    assert_eq!(runner.next(Event::Removed), Order::Finish);
    assert_eq!(runner.phase(), Phase::Done);
    assert_eq!(runner.repo().dir, None);
    assert_eq!(runner.next(Event::Begin), Order::Finish);
    assert_eq!(runner.phase(), Phase::Done);
}

#[test]
fn failed_clone_is_cleaned_up_without_a_record() {
    let mut runner = Runner::new(repo(9), "tmp", "log", true);
    runner.next(Event::Begin);
    assert_eq!(runner.next(Event::Cloned { ok: false }), Order::Remove { dir: "tmp/9".to_string() });
    assert_eq!(runner.repo().dir, None);
    assert_eq!(runner.next(Event::Removed), Order::Finish);
    assert_eq!(runner.phase(), Phase::Done);
}

#[test]
fn mining_without_result_skips_intern_and_record() {
    let mut runner = Runner::new(repo(9), "tmp", "log", true);
    runner.next(Event::Begin);
    runner.next(Event::Cloned { ok: true });
    assert_eq!(
        runner.next(Event::Mined { counts: None }),
        Order::Remove { dir: "tmp/9".to_string() }
    );
    assert_eq!(runner.next(Event::Removed), Order::Finish);
}

#[test]
fn counts_that_do_not_add_up_are_not_recorded() {
    let mut runner = Runner::new(repo(9), "tmp", "log", true);
    runner.next(Event::Begin);
    runner.next(Event::Cloned { ok: true });
    assert_eq!(
        runner.next(Event::Mined { counts: Some(counts(3, 3, 3)) }),
        Order::Remove { dir: "tmp/9".to_string() }
    );
}

#[test]
fn failed_intern_is_recorded_only_if_asked_for() {
    let mut marking = Runner::new(repo(9), "tmp", "log", true);
    marking.next(Event::Begin);
    marking.next(Event::Cloned { ok: true });
    marking.next(Event::Mined { counts: Some(counts(1, 0, 1)) });
    assert_eq!(
        marking.next(Event::Interned { ok: false, elapsed_ms: 3 }),
        Order::Record {
            mined: 9,
            stats: StatsRow { repo_id: 9, n_files: 1, n_success: 0, n_error: 1, elapsed_ms: 3 }
        }
    );
    let mut strict = Runner::new(repo(9), "tmp", "log", false);
    strict.next(Event::Begin);
    strict.next(Event::Cloned { ok: true });
    strict.next(Event::Mined { counts: Some(counts(1, 0, 1)) });
    assert_eq!(
        strict.next(Event::Interned { ok: false, elapsed_ms: 3 }),
        Order::Remove { dir: "tmp/9".to_string() }
    );
}

#[test]
fn failure_in_any_phase_leads_to_removal() {
    let steps = [
        Event::Begin,
        Event::Cloned { ok: true },
        Event::Mined { counts: Some(counts(1, 1, 0)) },
        Event::Interned { ok: true, elapsed_ms: 1 },
    ];
    for reached in 0..=steps.len() {
        let mut runner = Runner::new(repo(3), "tmp", "log", true);
        for event in &steps[..reached] {
            runner.next(*event);
        }
        assert_eq!(runner.next(Event::Failed), Order::Remove { dir: "tmp/3".to_string() });
        assert_eq!(runner.phase(), Phase::Removing);
        // The removal is ordered again until it is confirmed.
        assert_eq!(runner.next(Event::Failed), Order::Remove { dir: "tmp/3".to_string() });
        assert_eq!(runner.next(Event::Recorded), Order::Remove { dir: "tmp/3".to_string() });
        assert_eq!(runner.next(Event::Removed), Order::Finish);
        assert_eq!(runner.phase(), Phase::Done);
    }
}

#[test]
fn new_runner_forgets_a_stale_clone_directory() {
    let mut stale = repo(5);
    stale.dir = Some("elsewhere".to_string());
    let runner = Runner::new(stale, "tmp", "log", true);
    assert_eq!(runner.repo().dir, None);
    assert_eq!(runner.repo().id, 5);
}
