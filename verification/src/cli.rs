//! The commands a user can ask for, as plain data. The argument parser that
//! fills these in lives outside the library; handlers dispatch on them.
use vstd::prelude::*;

verus! {

/// A group-management action.
pub enum GroupAction {
    /// List all groups.
    List,
    /// Add a new group.
    Add { name: String, path: Option<String>, yes: bool },
    /// Rename a group.
    Move {
        old_name: String,
        old_path: Option<String>,
        new_name: String,
        new_path: Option<String>,
        yes: bool,
    },
    /// Remove a group and all its commands.
    Remove { name: String, path: Option<String>, yes: bool },
}

/// A top-level command.
pub enum Commands {
    /// Add a command to bookmarks.
    Add { command: Option<String>, group: Option<String>, comment: Option<String>, yes: bool },
    /// List saved commands.
    List { group: Option<String>, verbose: bool, plain: bool },
    /// Edit a saved command.
    Edit {
        identifier: String,
        new_command: Option<String>,
        new_group: Option<String>,
        new_comment: Option<String>,
        yes: bool,
    },
    /// Remove a saved command.
    Remove { identifier: String, yes: bool },
    /// Search commands.
    History { query: Option<String> },
    /// Obtain a command by identifier.
    Obtain { identifier: Option<String> },
    /// Group management.
    Group { action: GroupAction },
    /// Initialize a store-root folder.
    Init { path: Option<String> },
    /// Report the discovered store-root folders.
    Sync,
}

} // verus!
