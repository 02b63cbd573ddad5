//! The bot's configuration, fixed when it starts.
use vstd::prelude::*;

use crate::text::{contains_str, strs};

verus! {

/// The administrators' identities and where the bot keeps its data.
#[derive(Debug, Clone)]
pub struct Config {
    pub admin_ids: Vec<String>,
    pub data_dir: Option<String>,
}

impl Default for Config {
    fn default() -> (r: Self)
        ensures
            r.admin_ids@.len() == 0,
            r.data_dir is None,
    {
        Config { admin_ids: Vec::new(), data_dir: None }
    }
}

impl Config {
    /// Whether `user_id` is one of the administrators.
    pub fn is_admin(&self, user_id: &str) -> (r: bool)
        ensures
            r == strs(self.admin_ids@).contains(user_id@),
    {
        contains_str(self.admin_ids.as_slice(), user_id)
    }
}

/// What the `version` and `changelog` commands report.
#[derive(Debug, Clone)]
pub struct BuildInfo {
    /// The version of the bot.
    pub version: String,
    /// The name of the storage backend in use.
    pub backend: String,
    /// The changelog as plain text.
    pub changelog: String,
    /// The changelog rendered as markup.
    pub changelog_markup: String,
}

} // verus!
