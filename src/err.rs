use vstd::prelude::*;
use crate::arg_parser::ArgError;
use crate::dependency::DepFile;

verus! {

/// What can go wrong in the library.
#[derive(Debug)]
pub enum Error {
    /// Commands wait on each other in a cycle.
    DependencyCycle,
    /// A file was given its dependencies twice.
    DuplicateDependency,
    /// The file has nothing to be built from.
    NothingToBuild(String),
    /// The file's type does not fit where it stands.
    InvalidFileType(DepFile),
    /// A compiler option holds a value that is not allowed.
    InvalidCompilerValue { option: String, value: String },
    /// The text of this file is needed and was not handed in yet.
    Unread(String),
    /// The file does not exist.
    NotFound(String),
    /// This file's modification time was not handed in.
    NoTimestamp(String),
    /// This input of a node does not exist or keeps no modification time.
    NoInput(String),
    /// A path does not lie under the directory it should.
    StripPrefix { path: String, prefix: String },
    /// A child process exited with a failure; its exit code if it had one.
    ProcessFailed(Option<i32>),
    /// The operating system refused an operation; its message.
    Io(String),
    /// The command line is refused.
    Arg(ArgError),
    /// The scheduler was driven out of order; what was expected.
    DoesNotHappen(String),
}

} // verus!
