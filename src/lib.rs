//! A build driver for C and C++ projects: an include/module scanner, a
//! memoizing dependency resolver and a bounded parallel build scheduler.
//!
//! Everything that touches the file system or child processes is left to the
//! caller: the library asks for file contents and modification times, and
//! tells the caller which command to spawn, poll or reap.

mod chars;
mod text;

pub mod file_type;
pub mod include_deps;
pub mod path;
pub mod err;
pub mod dependency;
pub mod compiler;
pub mod builder;
pub mod config;
pub mod dir_structure;
pub mod arg_parser;
pub mod serde_config;
