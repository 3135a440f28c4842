//! The commands and their options.

use vstd::prelude::*;

use crate::rank::Rank;

verus! {

/// A command.
#[derive(Debug)]
pub enum Cmd {
    Add(Add),
    Dedupe(Dedupe),
    Edit(Edit),
    Import(Import),
    Init(Init),
    Query(Query),
    Remove(Remove),
    Tidy(Tidy),
}

/// Adds a new directory or increments its rank.
#[derive(Debug)]
pub struct Add {
    pub paths: Vec<String>,
    /// The rank to increment the entry by if it exists, or to initialize it
    /// with if it does not.
    pub score: Option<Rank>,
}

/// Merges entries that refer to the same directory.
#[derive(Debug)]
pub struct Dedupe {
    /// Globs that select which entries to process, matched against the full
    /// stored path.
    pub pathglobs: Vec<String>,
    /// Whether to merge all entries that are textually equivalent, without
    /// looking at the file system.
    pub assume_insensitive: bool,
    /// Whether to show what would be merged without modifying the database.
    pub dry_run: bool,
}

/// Edits the database.
#[derive(Debug)]
pub struct Edit {
    pub cmd: Option<EditCommand>,
}

#[derive(Clone, Debug)]
pub enum EditCommand {
    Decrement { path: String },
    Delete { path: String },
    Increment { path: String },
    Reload,
}

/// Imports entries from another application.
#[derive(Debug)]
pub struct Import {
    pub from: ImportFrom,
    /// Whether to merge into the existing database.
    pub merge: bool,
}

#[derive(Clone, Copy, Debug, PartialEq, Eq, Structural)]
pub enum ImportFrom {
    Atuin,
    Autojump,
    Fasd,
    Z,
    ZLua,
    ZshZ,
}

/// Generates shell configuration.
#[derive(Debug)]
pub struct Init {
    pub shell: InitShell,
    /// The control key that inserts an interactively selected directory.
    pub bind_fzf_insert: Option<String>,
    /// Whether to leave out the `z` and `zi` commands.
    pub no_cmd: bool,
    /// The prefix of the `z` and `zi` commands.
    pub cmd: String,
    /// How often a directory's score is incremented.
    pub hook: InitHook,
}

#[derive(Clone, Copy, Debug, PartialEq, Eq, Structural)]
pub enum InitHook {
    Never,
    Prompt,
    Pwd,
}

#[derive(Clone, Copy, Debug, PartialEq, Eq, Structural)]
pub enum InitShell {
    Bash,
    Elvish,
    Fish,
    Nushell,
    Posix,
    Powershell,
    Tcsh,
    Xonsh,
    Zsh,
}

/// Searches for a directory in the database.
#[derive(Debug)]
pub struct Query {
    pub keywords: Vec<String>,
    /// Whether to show unavailable directories.
    pub all: bool,
    /// Whether to use interactive selection.
    pub interactive: bool,
    /// Whether to list all matching directories.
    pub list: bool,
    /// Whether to print scores with the results.
    pub score: bool,
    /// The directory to leave out.
    pub exclude: Option<String>,
    /// The directory to search within.
    pub base_dir: Option<String>,
}

/// Removes a directory from the database.
#[derive(Debug)]
pub struct Remove {
    pub paths: Vec<String>,
}

/// Repairs and cleans up the paths of the database.
#[derive(Debug)]
pub struct Tidy {
    /// Globs that select which entries to process, matched against the full
    /// stored path.
    pub pathglobs: Vec<String>,
    /// Whether to merge different spellings of the same directory.
    pub dedupe: bool,
    /// Whether to rewrite paths using their spelling on disk.
    pub normalize: bool,
    /// Whether to remove paths that no longer lead to directories.
    pub prune: bool,
    /// Whether to do all three.
    pub all: bool,
    /// Whether to merge every textually equivalent group, without looking at
    /// the file system.
    pub assume_insensitive: bool,
    /// Whether to show what would change without modifying the database.
    pub dry_run: bool,
}

} // verus!
