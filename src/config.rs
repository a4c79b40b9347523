use vstd::prelude::*;
use crate::compiler;

verus! {

/// The settings of the compiler flags.
pub type CompilerConfig = compiler::config::Config;

/// The resolved configuration of a project.
pub struct Config {
    pub project: Project,
    pub debug_build: Build,
    pub release_build: Build,
}

pub struct Project {
    pub name: String,
}

/// One build profile: the target, the compilers asked for, the flags.
pub struct Build {
    pub target: String,
    pub cc: Option<String>,
    pub cpp: Option<String>,
    pub compiler_conf: CompilerConfig,
}

} // verus!
