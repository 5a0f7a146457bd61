//! The core of a desktop explorer for a folder of coding projects.
//!
//! A slow, outside source of data is shown to a render loop as a snapshot
//! that is replaced whole when a new one is there: the tree of project
//! directories (`walk`, `dir_tree`, `explorer`), the commit log of the
//! selected project (`sphinx_git`) and the list of shared ideas (`ideas`),
//! the two lists kept by a cache that says when to fetch them again
//! (`refresh`). Nothing here reads a disk, a repository or a database: the
//! caller does, and hands in what it read.

pub mod dir_tree;
pub mod explorer;
pub mod ideas;
pub mod order;
pub mod project;
pub mod refresh;
pub mod scan;
pub mod sphinx_git;
pub mod walk;
