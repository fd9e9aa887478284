use crawler::config::{Config, ConfigError, Database, Miner, Runner};

fn config(languages: &[&str]) -> Config {
    Config {
        miner: Miner { threads: 4, tries: 10 },
        runner: Runner {
            threads: 2,
            min_stars: 100,
            languages: languages.iter().map(|s| s.to_string()).collect(),
            github_api_key: "key".to_string(),
            log_dir: "log".to_string(),
            log_level: "debug".to_string(),
            tmp_dir: "/tmp/crawl".to_string(),
        },
        database: Database {
            user: "u".to_string(),
            password: "p".to_string(),
            host: "h".to_string(),
            database: "d".to_string(),
        },
    }
}

#[test]
fn c_is_the_only_known_language() {
    assert_eq!(config(&["c"]).validate(), Ok(()));
    assert_eq!(config(&[]).validate(), Ok(()));
    assert_eq!(config(&["c", "c"]).validate(), Ok(()));
}

#[test]
fn unknown_languages_are_reported() {
    assert_eq!(
        config(&["c", "cpp", "rust"]).validate(),
        Err(ConfigError::InvalidLanguages(vec!["cpp".to_string(), "rust".to_string()]))
    );
    assert_eq!(
        config(&["C"]).validate(),
        Err(ConfigError::InvalidLanguages(vec!["C".to_string()]))
    );
    assert_eq!(config(&["", "c"]).unknown_languages(), vec!["".to_string()]);
    assert!(config(&["c"]).unknown_languages().is_empty());
}

#[test]
fn log_directory_of_a_run_is_below_the_configured_one() {
    let mut c = config(&["c"]);
    c.enter_log_dir("2024-05-01T10:00:00");
    assert_eq!(c.runner.log_dir, "log/2024-05-01T10:00:00");
    assert_eq!(c.runner.tmp_dir, "/tmp/crawl");
    assert_eq!(c.miner.tries, 10);
}
