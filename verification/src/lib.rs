//! A cache for compile steps, and what a compiler wrapper needs to use it:
//! command lines are classified and made into tasks, the output of the
//! preprocessor is parted into the streams of its sources, includes are
//! scanned and resolved, and the results of compile steps are kept under a
//! key that is made of what they depend on.
//!
//! Nothing here reads a file or runs a process: the caller does, and hands
//! over what it read.

pub mod backend;
pub mod cache;
pub mod clang;
pub mod compiler;
pub mod includes;
pub mod laws;
pub mod paths;
pub mod pattern;
pub mod postprocess;
pub mod prepare;
pub mod response;
pub mod scanner;
pub mod storage;
pub mod text;
pub mod vs;
