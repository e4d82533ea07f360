//! What the command line can ask for.

use vstd::prelude::*;

use crate::app::RunOptions;
use crate::path::PathBuf;

verus! {

/// The command line.
#[derive(Debug)]
pub struct Cli {
    /// The subcommand; without one the home screen opens.
    pub command: Option<Command>,
    /// Preview the sync without writing anything to the destinations.
    pub dry_run: bool,
    /// Apply without the interactive review.
    pub yes: bool,
    /// Delete files in destinations that no longer exist in the source.
    pub delete: bool,
    /// Ignore the saved store and set up from scratch.
    pub reset: bool,
}

/// A subcommand.
#[derive(Debug)]
pub enum Command {
    /// Manage the API credentials.
    Auth { action: AuthAction },
    /// Back up the source folder, encrypted.
    Backup {
        /// Guard, fetch the key and report, but write no archive.
        dry_run: bool,
        /// Encrypt to this recipient instead of asking the API for one.
        recipient: Option<String>,
    },
    /// Restore a backup with the private identity.
    Restore {
        /// The identity, `@path` of a key file, or `-` for standard input.
        identity: Option<String>,
        /// The archive; by default the newest.
        archive: Option<PathBuf>,
        /// The folder to restore into.
        into: Option<PathBuf>,
        /// Restore into a folder that has something in it.
        force: bool,
    },
}

/// What to do with the API credentials.
#[derive(Debug)]
pub enum AuthAction {
    /// Save the token and the URL.
    Login {
        /// The base URL; asked for where it is missing.
        url: Option<String>,
        /// Read the token from standard input.
        token_stdin: bool,
    },
    /// Show whether there are credentials.
    Status,
}

impl Cli {
    /// The options of a sync.
    pub fn options(&self) -> (res: RunOptions)
        ensures
            res == (RunOptions { dry_run: self.dry_run, yes: self.yes, delete: self.delete }),
    {
        RunOptions { dry_run: self.dry_run, yes: self.yes, delete: self.delete }
    }
}

} // verus!
