//! A personal command-bookmarking engine: shell commands are stored in named
//! groups under per-directory store roots, merged into one stably indexed
//! list, addressed by position or by hash prefix, and picked interactively
//! through a terminal state machine.
pub mod cli;
pub mod clock;
pub mod discovery;
pub mod edits;
pub mod fzf;
pub mod groups;
pub mod hashing;
pub mod laws;
pub mod model;
pub mod picker;
pub mod resolver;
pub mod store;
pub mod text;
