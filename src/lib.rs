//! A git remote helper core: a decoder for git's loose-object format, the
//! layout of a repository's files, the graph walk that decides which objects
//! a fetch or push has to copy, and the line protocol spoken with git.

mod bytes;
pub mod file;
pub mod objects;
pub mod protocol;
pub mod repo;
pub mod sync;
