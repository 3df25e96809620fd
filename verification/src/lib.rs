//! vrit: the verified core of a small content-addressed version control system.

pub mod text;
pub mod codec;
pub mod object;
pub mod object_laws;
pub mod index;
pub mod edit_graph;
pub mod diff;
pub mod ignore;
pub mod config;
pub mod repo;
pub mod merge;
pub mod history;
pub mod commit_graph;
pub mod tree;
pub mod worktree;
