//! The program's command line, as plain data.
use vstd::prelude::*;

verus! {

/// The parsed command line: what to do, and where the configuration file is.
#[derive(Debug, Clone)]
pub struct Cli {
    pub subcommands: Subcommands,
    /// A configuration file other than the default one.
    pub config: Option<String>,
}

/// What the program was asked to do.
#[derive(Debug, Clone)]
pub enum Subcommands {
    /// Set the bot up in `data_dir`, as the device `device_name`.
    Setup { data_dir: String, device_name: String },
    /// Run the bot, with its data in `data_dir` if given.
    Run { data_dir: Option<String> },
    /// Log the bot out of the account whose data is in `data_dir`.
    Logout { data_dir: String },
    /// Copy the subscriptions in `data_dir` into the backend named `target`.
    Migrate { data_dir: String, target: String },
}

} // verus!
