//! Configuration of a run.

use vstd::prelude::*;
use crate::path::{dir_under, texts, under};

verus! {

/// Configuration for the miner.
#[derive(Clone, Debug)]
pub struct Miner {
    /// Worker threads per repository.
    pub threads: usize,
    /// Header sets to try per source file.
    pub tries: usize,
}

/// Configuration for the runner.
#[derive(Clone, Debug)]
pub struct Runner {
    pub threads: usize,
    pub min_stars: usize,
    pub languages: Vec<String>,
    pub github_api_key: String,
    pub log_dir: String,
    pub log_level: String,
    pub tmp_dir: String,
}

/// Configuration for the database.
#[derive(Clone, Debug)]
pub struct Database {
    pub user: String,
    pub password: String,
    pub host: String,
    pub database: String,
}

/// Top level configuration.
#[derive(Clone, Debug)]
pub struct Config {
    pub miner: Miner,
    pub runner: Runner,
    pub database: Database,
}

/// Whether `language` is one that can be mined: only C is.
pub open spec fn known_language(language: Seq<char>) -> bool {
    language == "c"@
}

/// The languages among `languages` that cannot be mined, in order.
pub open spec fn unknown_among(languages: Seq<Seq<char>>) -> Seq<Seq<char>>
    decreases languages.len(),
{
    if languages.len() == 0 {
        Seq::empty()
    } else if known_language(languages.last()) {
        unknown_among(languages.drop_last())
    } else {
        unknown_among(languages.drop_last()).push(languages.last())
    }
}

/// Nothing is unknown exactly where every language is known.
pub proof fn lemma_unknown_among(languages: Seq<Seq<char>>)
    ensures
        unknown_among(languages).len() == 0 <==> forall|i: int|
            0 <= i < languages.len() ==> known_language(#[trigger] languages[i]),
    decreases languages.len(),
{
    if languages.len() > 0 {
        let rest = languages.drop_last();
        lemma_unknown_among(rest);
        if unknown_among(languages).len() == 0 {
            assert forall|i: int| 0 <= i < languages.len() implies known_language(
                #[trigger] languages[i],
            ) by {
                if i < rest.len() {
                    assert(rest[i] == languages[i]);
                }
            }
        } else if known_language(languages.last()) {
            let i = choose|i: int| 0 <= i < rest.len() && !known_language(#[trigger] rest[i]);
            assert(rest[i] == languages[i]);
        }
    }
}

/// What is wrong with a configuration.
#[derive(Debug, PartialEq, Eq)]
pub enum ConfigError {
    /// Languages were asked for that cannot be mined.
    InvalidLanguages(Vec<String>),
}

fn is_known(language: &str) -> (known: bool)
    ensures
        known == known_language(language@),
{
    proof {
        reveal_strlit("c");
        assert("c"@ =~= seq!['c']);
    }
    if language.unicode_len() == 1 {
        let c = language.get_char(0);
        assert(language@ == seq![c]);
        c == 'c'
    } else {
        false
    }
}

impl Config {
    /// The languages of the configuration that cannot be mined.
    pub fn unknown_languages(&self) -> (unknown: Vec<String>)
        ensures
            texts(unknown@) == unknown_among(texts(self.runner.languages@)),
    {
        let mut unknown: Vec<String> = Vec::new();
        let n = self.runner.languages.len();
        let ghost all = texts(self.runner.languages@);
        let mut i: usize = 0;
        assert(all.take(0) == Seq::<Seq<char>>::empty());
        assert(texts(unknown@) == Seq::<Seq<char>>::empty());
        while i < n
            invariant
                n == self.runner.languages.len(),
                i <= n,
                all == texts(self.runner.languages@),
                texts(unknown@) == unknown_among(all.take(i as int)),
            decreases n - i,
        {
            proof {
                assert(all.take(i + 1).drop_last() == all.take(i as int));
                assert(all.take(i + 1).last() == self.runner.languages[i as int]@);
            }
            if !is_known(self.runner.languages[i].as_str()) {
                let language = self.runner.languages[i].clone();
                assert(texts(unknown@.push(language)) == texts(unknown@).push(language@));
                unknown.push(language);
            }
            i += 1;
        }
        assert(all.take(n as int) == all);
        unknown
    }

    /// Ensures that the list of languages is valid: every language asked
    /// for can be mined.
    pub fn validate(&self) -> (checked: Result<(), ConfigError>)
        ensures
            checked is Ok <==> forall|i: int|
                0 <= i < self.runner.languages.len() ==> known_language(
                    #[trigger] texts(self.runner.languages@)[i],
                ),
            checked matches Err(ConfigError::InvalidLanguages(unknown)) ==> texts(unknown@)
                == unknown_among(texts(self.runner.languages@)),
    {
        let unknown = self.unknown_languages();
        proof {
            lemma_unknown_among(texts(self.runner.languages@));
        }
        if unknown.len() == 0 {
            Ok(())
        } else {
            Err(ConfigError::InvalidLanguages(unknown))
        }
    }

    /// Sets the log directory to its subdirectory `stamp`, the one of this
    /// run.
    pub fn enter_log_dir(&mut self, stamp: &str)
        ensures
            final(self).runner.log_dir@ == under(old(self).runner.log_dir@, seq![stamp@]),
            final(self).miner == old(self).miner,
            final(self).database == old(self).database,
            final(self).runner.threads == old(self).runner.threads,
            final(self).runner.min_stars == old(self).runner.min_stars,
            final(self).runner.languages == old(self).runner.languages,
            final(self).runner.github_api_key == old(self).runner.github_api_key,
            final(self).runner.log_level == old(self).runner.log_level,
            final(self).runner.tmp_dir == old(self).runner.tmp_dir,
    {
        let mut parts: Vec<String> = Vec::new();
        parts.push(stamp.to_owned());
        assert(texts(parts@).subrange(0, 1) == seq![stamp@]);
        self.runner.log_dir = dir_under(self.runner.log_dir.as_str(), &parts, 1);
    }
}

} // verus!
