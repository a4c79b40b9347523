use vstd::prelude::*;
use crate::compiler::config::Config;
use crate::compiler::gcc::{
    build, build_result, head_flags, is_config_error, tail_flags, CommandLine, Tools,
};
use crate::compiler::gpp::{cpp_config_error, cpp_link_flags, cpp_std_flag, try_new};
use crate::dependency::{texts, Dependency};
use crate::err::Error;

verus! {

/// The Clang C++ compiler; it takes the flags that g++ takes.
pub struct Clangpp {
    pub tools: Tools,
}

impl Clangpp {
    /// The Clang C++ driver at `bin`; `is_c` where `bin` is a C driver.
    pub fn new(bin: String, conf: &Config, is_c: bool) -> (r: Result<Clangpp, Error>)
        ensures
            match cpp_config_error(conf) {
                Some(fault) => r is Err && is_config_error(r->Err_0, fault),
                None => r is Ok && r->Ok_0.tools.bin == bin && texts(r->Ok_0.tools.compile_args@)
                    == head_flags(conf) + seq![cpp_std_flag(conf.cpp_std)] + tail_flags(conf)
                    && texts(r->Ok_0.tools.link_args@) == cpp_link_flags(conf, is_c),
            },
    {
        match try_new(bin, conf, is_c) {
            Ok(tools) => Ok(Clangpp { tools }),
            Err(e) => Err(e),
        }
    }

    /// The command that produces a node's file.
    pub fn build(&self, file: Dependency) -> (r: Result<(CommandLine, Vec<Dependency>), Error>)
        ensures
            build_result(&self.tools, file, r),
    {
        build(&self.tools, file)
    }
}

} // verus!
