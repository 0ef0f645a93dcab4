//! The command line of the server.

use vstd::prelude::*;

verus! {

/// The command line.
#[derive(Debug)]
pub struct Cli {
    /// Path to the configuration file.
    pub config: String,
    /// What to do instead of serving.
    pub command: Option<Commands>,
}

/// What can be done instead of serving.
#[derive(Debug)]
pub enum Commands {
    /// Manage the accounts.
    Users {
        /// What to do with them.
        action: UserAction,
    },
}

/// What can be done with accounts.
#[derive(Debug)]
pub enum UserAction {
    /// List all accounts.
    List,
    /// Delete an account.
    Delete {
        /// The account's user name.
        username: String,
    },
    /// Show the challenge tokens of an account.
    Txt {
        /// The account's user name or its subdomain.
        target: String,
    },
    /// Change the administrator's password.
    Passwd,
}

} // verus!
