//! Discovery, ordering and presentation of git worktrees.
//!
//! The verified core parses `git worktree list --porcelain` output, merges the
//! partial results of a scan over root directories, reads the tmux session
//! list, orders worktrees by session recency and renders the lines handed to
//! an interactive picker.
pub mod text;
pub mod git;
pub mod sessions;
pub mod display;
pub mod collect;
pub mod config;
