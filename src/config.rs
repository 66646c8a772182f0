//! The settings of the service.

use vstd::prelude::*;
use crate::trigrams::Score;

verus! {

/// The settings of the service.
#[derive(Clone, Debug)]
pub struct PluginConfig {
    /// Description of the keyword tool.
    pub function_description: String,
    /// Path of the documents file.
    pub database_path: String,
    /// Path of the audit record, if it is kept on file.
    pub failed_keywords_path: Option<String>,
    /// How many hits a query returns.
    pub morsel_n_best: Option<usize>,
    /// The least score of a hit.
    pub morsel_min_score: Option<Score>,
    /// Seconds between reloads; zero for none.
    pub update_interval_secs: Option<u32>,
}

/// By default a query returns one hit.
pub fn directory_n_best() -> (r: Option<usize>)
    ensures
        r == Some(1usize),
{
    Some(1)
}

/// By default a hit scores at least one fifth.
pub fn directory_min_score() -> (r: Option<Score>)
    ensures
        r == Some(Score { num: 1, den: 5 }),
{
    Some(Score { num: 1, den: 5 })
}

/// By default the documents are reloaded every hour.
pub fn default_update_interval_secs() -> (r: Option<u32>)
    ensures
        r == Some(3600u32),
{
    Some(3600)
}

impl PluginConfig {
    /// How many hits a query returns.
    pub open spec fn hits_wanted(&self) -> nat {
        match self.morsel_n_best {
            Some(n) => n as nat,
            None => 1,
        }
    }

    /// The least score of a hit.
    pub open spec fn threshold(&self) -> Score {
        match self.morsel_min_score {
            Some(s) => s,
            None => Score { num: 1, den: 5 },
        }
    }

    /// How many hits a query returns, the default when unset.
    pub fn n_best(&self) -> (r: usize)
        ensures
            r == match self.morsel_n_best {
                Some(n) => n,
                None => 1,
            },
    {
        match self.morsel_n_best {
            Some(n) => n,
            None => 1,
        }
    }

    /// The least score of a hit, the default when unset.
    pub fn min_score(&self) -> (r: Score)
        ensures
            r == match self.morsel_min_score {
                Some(s) => s,
                None => Score { num: 1, den: 5 },
            },
    {
        match self.morsel_min_score {
            Some(s) => s,
            None => Score { num: 1, den: 5 },
        }
    }

    /// Seconds between reloads, the default when unset.
    pub fn interval_secs(&self) -> (r: u32)
        ensures
            r == match self.update_interval_secs {
                Some(n) => n,
                None => 3600,
            },
    {
        match self.update_interval_secs {
            Some(n) => n,
            None => 3600,
        }
    }
}

} // verus!
