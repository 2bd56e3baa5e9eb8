//! A small git: loose objects (`hash-object`, `cat-file`), trees
//! (`write-tree`, `ls-tree`), commits (`commit-tree`) and cloning over the
//! smart HTTP protocol, with pack decoding and delta resolution. The
//! command-line option types of the front end are in `cli`.

pub mod cli;
pub mod clone;
pub mod codec;
pub mod commit;
pub mod delta;
pub mod error;
pub mod object;
pub mod scan;
pub mod tree;
pub mod worktree;
