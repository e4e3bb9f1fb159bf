//! The configuration of the tool.

use vstd::prelude::*;

verus! {

/// What the configuration file holds.
#[derive(Debug, PartialEq, Eq)]
pub struct Config {
    pub api_keys: ApiKeys,
}

/// Keys for the services that the tool asks.
#[derive(Debug, PartialEq, Eq)]
pub struct ApiKeys {
    /// The key for the title database, where one is configured.
    pub omdb: Option<String>,
}

impl Config {
    /// The key for the title database.
    pub fn omdb_key(&self) -> (r: Option<&String>)
        ensures
            match r {
                Some(key) => self.api_keys.omdb == Some(*key),
                None => self.api_keys.omdb is None,
            },
    {
        match &self.api_keys.omdb {
            Some(key) => Some(key),
            None => None,
        }
    }
}

} // verus!
