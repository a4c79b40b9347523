use vstd::prelude::*;
use crate::compiler::config::{opt_in_range, opt_text, Config, Std};
use crate::compiler::gcc::{
    asan_flags, build, build_result, head_flags, head_flags_exec, is_config_error, push_all,
    tail_flags, tail_flags_exec, CommandLine, Tools,
};
use crate::dependency::{texts, Dependency};
use crate::err::Error;
use crate::text::{concat, decimal, int_text};

verus! {

/// The GNU C++ compiler.
pub struct Gpp {
    pub tools: Tools,
}

/// The standard flag for C++.
pub open spec fn cpp_std_flag(s: Std) -> Seq<char> {
    match s {
        Std::Number(n) => "-std=c++"@ + decimal(n as int),
        Std::Name(x) => "-std="@ + x@,
    }
}

/// Where the settings are refused for C++, the option and the value at
/// fault.
pub open spec fn cpp_config_error(c: &Config) -> Option<(Seq<char>, Seq<char>)> {
    if !opt_in_range(c.optimization, 0, 3) {
        Some(("optimization"@, opt_text(c.optimization)))
    } else {
        match c.cpp_std {
            Std::Number(n) => if !(n == 98 || n == 3 || n == 11 || n == 14 || n == 17 || n == 20) {
                Some(("cpp_std"@, decimal(n as int)))
            } else {
                None
            },
            Std::Name(_) => None,
        }
    }
}

/// The link flags for C++; a C driver also needs the C++ library.
pub open spec fn cpp_link_flags(c: &Config, is_c: bool) -> Seq<Seq<char>> {
    (if is_c {
        seq!["-lstdc++"@]
    } else {
        seq![]
    }) + asan_flags(c) + texts(c.args@)
}

/// The driver for C++: the flags for the settings, or the setting that is
/// refused.
pub fn try_new(bin: String, conf: &Config, is_c: bool) -> (r: Result<Tools, Error>)
    ensures
        match cpp_config_error(conf) {
            Some(fault) => r is Err && is_config_error(r->Err_0, fault),
            None => r is Ok && r->Ok_0.bin == bin && r->Ok_0.src_root == conf.src_root
                && r->Ok_0.bin_root == conf.bin_root && texts(r->Ok_0.compile_args@) == head_flags(
                conf,
            ) + seq![cpp_std_flag(conf.cpp_std)] + tail_flags(conf) && texts(r->Ok_0.link_args@)
                == cpp_link_flags(conf, is_c),
        },
{
    let mut link_args: Vec<String> = Vec::new();
    if is_c {
        link_args.push(String::from_str("-lstdc++"));
    }
    if !conf.optimization.in_range(0, 3) {
        return Err(
            Error::InvalidCompilerValue {
                option: String::from_str("optimization"),
                value: conf.optimization.to_text(),
            },
        );
    }
    let mut compile_args = head_flags_exec(conf);
    if conf.asan {
        link_args.push(String::from_str("-fsanitize=address"));
    }
    let ghost h = texts(compile_args@);
    let std = match &conf.cpp_std {
        Std::Number(n) => {
            if !conf.cpp_std.is_cpp_num() {
                return Err(
                    Error::InvalidCompilerValue {
                        option: String::from_str("cpp_std"),
                        value: int_text(*n),
                    },
                );
            }
            concat("-std=c++", int_text(*n).as_str())
        },
        Std::Name(s) => concat("-std=", s.as_str()),
    };
    compile_args.push(std);
    assert(texts(compile_args@) =~= h + seq![cpp_std_flag(conf.cpp_std)]);
    tail_flags_exec(conf, &mut compile_args);
    assert(texts(link_args@) =~= (if is_c {
        seq!["-lstdc++"@]
    } else {
        seq![]
    }) + asan_flags(conf));
    push_all(&mut link_args, &conf.args);
    assert(texts(compile_args@) =~= head_flags(conf) + seq![cpp_std_flag(conf.cpp_std)]
        + tail_flags(conf));
    Ok(
        Tools {
            bin,
            src_root: conf.src_root.clone(),
            bin_root: conf.bin_root.clone(),
            compile_args,
            link_args,
        },
    )
}

impl Gpp {
    /// The GNU C++ driver at `bin`; `is_c` where `bin` is a C driver that
    /// has to be told to link the C++ library.
    pub fn new(bin: String, conf: &Config, is_c: bool) -> (r: Result<Gpp, Error>)
        ensures
            match cpp_config_error(conf) {
                Some(fault) => r is Err && is_config_error(r->Err_0, fault),
                None => r is Ok && r->Ok_0.tools.bin == bin && texts(r->Ok_0.tools.compile_args@)
                    == head_flags(conf) + seq![cpp_std_flag(conf.cpp_std)] + tail_flags(conf)
                    && texts(r->Ok_0.tools.link_args@) == cpp_link_flags(conf, is_c),
            },
    {
        match try_new(bin, conf, is_c) {
            Ok(tools) => Ok(Gpp { tools }),
            Err(e) => Err(e),
        }
    }

    /// The command that produces a node's file.
    pub fn build(&self, file: Dependency) -> (r: Result<(CommandLine, Vec<Dependency>), Error>)
        ensures
            build_result(&self.tools, file, r),
    {
        build(&self.tools, file)
    }
}

} // verus!
