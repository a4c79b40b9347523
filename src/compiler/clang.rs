use vstd::prelude::*;
use crate::compiler::config::Config;
use crate::compiler::gcc::{
    asan_flags, build, build_result, c_config_error, c_std_flag, head_flags, is_config_error,
    tail_flags, try_new, CommandLine, Tools,
};
use crate::dependency::{texts, Dependency};
use crate::err::Error;

verus! {

/// The Clang C compiler; it takes the flags that GCC takes.
pub struct Clang {
    pub tools: Tools,
}

impl Clang {
    /// The Clang C driver at `bin` with the flags for the settings.
    pub fn new(bin: String, conf: &Config) -> (r: Result<Clang, Error>)
        ensures
            match c_config_error(conf) {
                Some(fault) => r is Err && is_config_error(r->Err_0, fault),
                None => r is Ok && r->Ok_0.tools.bin == bin && texts(r->Ok_0.tools.compile_args@)
                    == head_flags(conf) + seq![c_std_flag(conf.c_std)] + tail_flags(conf) && texts(
                    r->Ok_0.tools.link_args@,
                ) == asan_flags(conf) + texts(conf.args@),
            },
    {
        match try_new(bin, conf) {
            Ok(tools) => Ok(Clang { tools }),
            Err(e) => Err(e),
        }
    }

    /// The command that produces a node's file.
    pub fn build(&self, file: Dependency) -> (r: Result<(CommandLine, Vec<Dependency>), Error>)
        ensures
            build_result(&self.tools, file, r),
    {
        build(&self.tools, file)
    }
}

} // verus!
