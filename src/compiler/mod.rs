//! The compiler capability: turns a node of the dependency graph into the
//! command that produces its file, with the flags of the chosen compiler.
pub mod clang;
pub mod clangpp;
pub mod config;
pub mod gcc;
pub mod gpp;

use vstd::prelude::*;
use crate::compiler::clang::Clang;
use crate::compiler::clangpp::Clangpp;
use crate::compiler::config::Config;
use crate::compiler::gcc::{
    asan_flags, build_result, c_config_error, c_std_flag, head_flags, is_config_error, tail_flags,
    CommandLine, Gcc, Tools,
};
use crate::compiler::gpp::{cpp_config_error, cpp_link_flags, cpp_std_flag, Gpp};
use crate::dependency::{texts, Dependency};
use crate::err::Error;
use crate::file_type::Language;

verus! {

/// The best score a compiler can have for a language.
pub const MAX_SCORE: i32 = 3;

/// The kind of a compiler driver, as its `--version` output names it.
#[derive(Debug, Clone, Copy, PartialEq, Eq, Structural)]
pub enum CompilerType {
    Gcc,
    Gpp,
    Clang,
    Clangpp,
    Other,
}

/// How well a compiler fits a language: unusable (-1), unknown (1), a
/// compiler of the other language (2), or the compiler of the language (3).
pub open spec fn score_of(comp: Option<CompilerType>, lng: Language) -> i32 {
    match comp {
        None => -1i32,
        Some(CompilerType::Other) => 1i32,
        Some(CompilerType::Clang) | Some(CompilerType::Gcc) => if lng == Language::C {
            MAX_SCORE
        } else {
            2i32
        },
        Some(CompilerType::Clangpp) | Some(CompilerType::Gpp) => if lng == Language::Cpp {
            MAX_SCORE
        } else {
            2
        },
    }
}

/// How well a compiler (`None`: one that could not be run) fits a language.
pub fn score_compiler(comp: Option<CompilerType>, lng: Language) -> (r: i32)
    ensures
        r == score_of(comp, lng),
{
    let comp = match comp {
        Some(c) => c,
        None => {
            return -1;
        },
    };
    match comp {
        CompilerType::Other => 1,
        CompilerType::Clang | CompilerType::Gcc => {
            if lng == Language::C {
                MAX_SCORE
            } else {
                2
            }
        },
        CompilerType::Clangpp | CompilerType::Gpp => {
            if lng == Language::Cpp {
                MAX_SCORE
            } else {
                2
            }
        },
    }
}

/// The first word of a compiler's `--version` output: all before the first
/// space.
pub open spec fn first_word(out: Seq<u8>) -> Seq<u8>
    decreases out.len(),
{
    if out.len() == 0 {
        seq![]
    } else if out.last() == 32u8 && !out.drop_last().contains(32u8) {
        out.drop_last()
    } else if out.drop_last().contains(32u8) {
        first_word(out.drop_last())
    } else {
        out
    }
}

pub open spec fn ends_with(s: Seq<char>, end: Seq<char>) -> bool {
    end.len() <= s.len() && s.subrange(s.len() - end.len(), s.len() as int) == end
}

/// The kind of the compiler at `path`, from the exit status and the output
/// of `path --version`.
pub open spec fn type_from_version(success: bool, out: Seq<u8>, path: Seq<char>) -> CompilerType {
    let name = first_word(out);
    if !success {
        CompilerType::Other
    } else if name == seq![103u8, 99u8, 99u8] {
        CompilerType::Gcc
    } else if name == seq![103u8, 43u8, 43u8] {
        CompilerType::Gpp
    } else if name == seq![99u8, 108u8, 97u8, 110u8, 103u8] {
        if ends_with(path, "++"@) || ends_with(path, "pp"@) {
            CompilerType::Clangpp
        } else {
            CompilerType::Clang
        }
    } else {
        CompilerType::Other
    }
}

fn bytes_eq(a: &Vec<u8>, n: usize, w: &Vec<u8>) -> (r: bool)
    requires
        n <= a.len(),
    ensures
        r == (a@.subrange(0, n as int) == w@),
{
    if n != w.len() {
        return false;
    }
    let mut i: usize = 0;
    while i < n
        invariant
            n == w.len(),
            n <= a.len(),
            i <= n,
            forall|j: int| 0 <= j < i ==> a@[j] == w@[j],
        decreases n - i,
    {
        if a[i] != w[i] {
            assert(a@.subrange(0, n as int)[i as int] != w@[i as int]);
            return false;
        }
        i += 1;
    }
    assert(a@.subrange(0, n as int) =~= w@);
    true
}

proof fn lemma_first_word(out: Seq<u8>, n: int)
    requires
        0 <= n <= out.len(),
        forall|j: int| 0 <= j < n ==> out[j] != 32u8,
        n == out.len() || out[n] == 32u8,
    ensures
        first_word(out) == out.subrange(0, n),
    decreases out.len(),
{
    if out.len() > 0 {
        let d = out.drop_last();
        if n == out.len() {
            assert(!d.contains(32u8));
            assert(out.subrange(0, n) =~= out);
        } else {
            if n == out.len() - 1 {
                assert(!d.contains(32u8));
                assert(d =~= out.subrange(0, n));
            } else {
                assert(d[n] == 32u8);
                lemma_first_word(d, n);
                assert(d.subrange(0, n) =~= out.subrange(0, n));
            }
        }
    }
}

fn ends_with_exec(s: &Vec<char>, end: &Vec<char>) -> (r: bool)
    ensures
        r == ends_with(s@, end@),
{
    if end.len() > s.len() {
        return false;
    }
    let off = s.len() - end.len();
    let mut i: usize = 0;
    while i < end.len()
        invariant
            off + end.len() == s.len(),
            i <= end.len(),
            forall|j: int| 0 <= j < i ==> s@[off + j] == end@[j],
        decreases end.len() - i,
    {
        if s[off + i] != end[i] {
            assert(s@.subrange(off as int, s@.len() as int)[i as int] != end@[i as int]);
            return false;
        }
        i += 1;
    }
    assert(s@.subrange(off as int, s@.len() as int) =~= end@);
    true
}

/// The kind of the compiler at `path`, from the exit status and the output
/// of `path --version`.
pub fn compiler_type_of(success: bool, out: &Vec<u8>, path: &str) -> (r: CompilerType)
    ensures
        r == type_from_version(success, out@, path@),
{
    let mut n: usize = 0;
    while n < out.len() && out[n] != 32u8
        invariant
            n <= out.len(),
            forall|j: int| 0 <= j < n ==> out@[j] != 32u8,
        decreases out.len() - n,
    {
        n += 1;
    }
    proof {
        lemma_first_word(out@, n as int);
    }
    if !success {
        CompilerType::Other
    } else if bytes_eq(out, n, &vec![103u8, 99u8, 99u8]) {
        CompilerType::Gcc
    } else if bytes_eq(out, n, &vec![103u8, 43u8, 43u8]) {
        CompilerType::Gpp
    } else if bytes_eq(out, n, &vec![99u8, 108u8, 97u8, 110u8, 103u8]) {
        let p = crate::text::str_chars(path);
        if ends_with_exec(&p, &crate::text::str_chars("++")) || ends_with_exec(
            &p,
            &crate::text::str_chars("pp"),
        ) {
            CompilerType::Clangpp
        } else {
            CompilerType::Clang
        }
    } else {
        CompilerType::Other
    }
}

/// The compilers to try for a language, in order: those of the language
/// (the one that `CC` or `CXX` names first), then `cl`, then those of the
/// other language.
pub open spec fn candidates(lng: Language, cc: Option<Seq<char>>, cxx: Option<Seq<char>>) -> Seq<
    Seq<char>,
> {
    let c = (match cc {
        Some(p) => seq![p],
        None => seq![],
    }) + seq!["cc"@, "gcc"@, "clang"@];
    let cpp = (match cxx {
        Some(p) => seq![p],
        None => seq![],
    }) + seq!["c++"@, "g++"@, "clang++"@];
    match lng {
        Language::C => c + seq!["cl"@] + cpp,
        Language::Cpp => cpp + seq!["cl"@] + c,
    }
}

fn opt_view(s: &Option<String>) -> (r: Ghost<Option<Seq<char>>>)
    ensures
        r@ == match s {
            Some(p) => Some(p@),
            None => None::<Seq<char>>,
        },
{
    Ghost(
        match s {
            Some(p) => Some(p@),
            None => None,
        },
    )
}

/// The compilers to try for a language, given the `CC` and `CXX` settings.
pub fn compiler_candidates(lng: Language, cc: &Option<String>, cxx: &Option<String>) -> (r: Vec<
    String,
>)
    ensures
        texts(r@) == candidates(
            lng,
            match cc {
                Some(p) => Some(p@),
                None => None,
            },
            match cxx {
                Some(p) => Some(p@),
                None => None,
            },
        ),
{
    let mut c: Vec<String> = Vec::new();
    if let Some(p) = cc {
        c.push(p.clone());
    }
    c.push(String::from_str("cc"));
    c.push(String::from_str("gcc"));
    c.push(String::from_str("clang"));
    let mut cpp: Vec<String> = Vec::new();
    if let Some(p) = cxx {
        cpp.push(p.clone());
    }
    cpp.push(String::from_str("c++"));
    cpp.push(String::from_str("g++"));
    cpp.push(String::from_str("clang++"));
    let Ghost(ccv) = opt_view(cc);
    let Ghost(cxxv) = opt_view(cxx);
    assert(texts(c@) =~= (match ccv {
        Some(p) => seq![p],
        None => seq![],
    }) + seq!["cc"@, "gcc"@, "clang"@]);
    assert(texts(cpp@) =~= (match cxxv {
        Some(p) => seq![p],
        None => seq![],
    }) + seq!["c++"@, "g++"@, "clang++"@]);
    let mut r: Vec<String> = Vec::new();
    match lng {
        Language::C => {
            crate::compiler::gcc::push_all(&mut r, &c);
            r.push(String::from_str("cl"));
            let ghost mid = r@;
            crate::compiler::gcc::push_all(&mut r, &cpp);
            assert(texts(mid) =~= texts(c@).push("cl"@));
            assert(texts(r@) =~= texts(c@) + seq!["cl"@] + texts(cpp@));
        },
        Language::Cpp => {
            crate::compiler::gcc::push_all(&mut r, &cpp);
            r.push(String::from_str("cl"));
            let ghost mid = r@;
            crate::compiler::gcc::push_all(&mut r, &c);
            assert(texts(mid) =~= texts(cpp@).push("cl"@));
            assert(texts(r@) =~= texts(cpp@) + seq!["cl"@] + texts(c@));
        },
    }
    r
}

/// The search for a compiler: the best one offered so far.
pub struct CompilerSearch {
    pub path: String,
    pub typ: CompilerType,
    pub score: i32,
    pub lng: Language,
}

impl CompilerSearch {
    /// Starts the search. A configured compiler that runs is taken as it is
    /// (`Ok`); one that does not run is kept unless a better one is found;
    /// with none configured `gcc` is the fallback.
    pub fn start(lng: Language, given: Option<(String, Option<CompilerType>)>) -> (r: Result<
        (String, CompilerType),
        CompilerSearch,
    >)
        ensures
            match given {
                Some((p, Some(c))) => r is Ok && r->Ok_0.0 == p && r->Ok_0.1 == c,
                Some((p, None)) => r is Err && r->Err_0.path == p && r->Err_0.typ
                    == CompilerType::Other && r->Err_0.score == 0 && r->Err_0.lng == lng,
                None => r is Err && r->Err_0.path@ == "gcc"@ && r->Err_0.typ == CompilerType::Gcc
                    && r->Err_0.score == -2 && r->Err_0.lng == lng,
            },
    {
        match given {
            Some((p, Some(c))) => Ok((p, c)),
            Some((p, None)) => Err(CompilerSearch { path: p, typ: CompilerType::Other, score: 0, lng }),
            None => Err(
                CompilerSearch {
                    path: String::from_str("gcc"),
                    typ: CompilerType::Gcc,
                    score: -2,
                    lng,
                },
            ),
        }
    }

    /// Offers the compiler at `path` (`None`: it could not be run). It is
    /// kept if it scores better than the best so far. Gives whether the
    /// search is over: the best possible score was reached.
    pub fn offer(&mut self, path: String, probed: Option<CompilerType>) -> (done: bool)
        ensures
            final(self).lng == old(self).lng,
            score_of(probed, old(self).lng) > old(self).score ==> final(self).path == path
                && final(self).typ == (match probed {
                Some(c) => c,
                None => CompilerType::Other,
            }) && final(self).score == score_of(probed, old(self).lng),
            score_of(probed, old(self).lng) <= old(self).score ==> *final(self) == *old(self),
            done == (score_of(probed, old(self).lng) > old(self).score && score_of(
                probed,
                old(self).lng,
            ) == MAX_SCORE),
    {
        let s = score_compiler(probed, self.lng);
        if s > self.score {
            self.path = path;
            self.typ = match probed {
                Some(c) => c,
                None => CompilerType::Other,
            };
            self.score = s;
            s == MAX_SCORE
        } else {
            false
        }
    }
}

/// The C compiler in use.
pub enum CCompiler {
    Gcc(Gcc),
    Clang(Clang),
}

impl CCompiler {
    pub open spec fn tools(&self) -> Tools {
        match self {
            CCompiler::Gcc(g) => g.tools,
            CCompiler::Clang(c) => c.tools,
        }
    }

    /// The C driver for a found compiler: Clang's for a Clang, GCC's for any
    /// other.
    pub fn new(found: (String, CompilerType), conf: &Config) -> (r: Result<CCompiler, Error>)
        ensures
            match c_config_error(conf) {
                Some(fault) => r is Err && is_config_error(r->Err_0, fault),
                None => {
                    &&& r is Ok
                    &&& (found.1 == CompilerType::Clang || found.1 == CompilerType::Clangpp) <==> (
                    r->Ok_0 is Clang)
                    &&& r->Ok_0.tools().bin == found.0
                    &&& texts(r->Ok_0.tools().compile_args@) == head_flags(conf) + seq![
                        c_std_flag(conf.c_std),
                    ] + tail_flags(conf)
                    &&& texts(r->Ok_0.tools().link_args@) == asan_flags(conf) + texts(conf.args@)
                },
            },
    {
        let (path, typ) = found;
        match typ {
            CompilerType::Gcc | CompilerType::Gpp | CompilerType::Other => match Gcc::new(path, conf) {
                Ok(g) => Ok(CCompiler::Gcc(g)),
                Err(e) => Err(e),
            },
            CompilerType::Clang | CompilerType::Clangpp => match Clang::new(path, conf) {
                Ok(c) => Ok(CCompiler::Clang(c)),
                Err(e) => Err(e),
            },
        }
    }
}

/// The C++ compiler in use.
pub enum CppCompiler {
    Gcc(Gpp),
    Clang(Clangpp),
}

impl CppCompiler {
    pub open spec fn tools(&self) -> Tools {
        match self {
            CppCompiler::Gcc(g) => g.tools,
            CppCompiler::Clang(c) => c.tools,
        }
    }

    /// The C++ driver for a found compiler: Clang's for a Clang, g++'s for
    /// any other; a C driver is told to link the C++ library.
    pub fn new(found: (String, CompilerType), conf: &Config) -> (r: Result<CppCompiler, Error>)
        ensures
            match cpp_config_error(conf) {
                Some(fault) => r is Err && is_config_error(r->Err_0, fault),
                None => {
                    &&& r is Ok
                    &&& (found.1 == CompilerType::Clang || found.1 == CompilerType::Clangpp) <==> (
                    r->Ok_0 is Clang)
                    &&& r->Ok_0.tools().bin == found.0
                    &&& texts(r->Ok_0.tools().compile_args@) == head_flags(conf) + seq![
                        cpp_std_flag(conf.cpp_std),
                    ] + tail_flags(conf)
                    &&& texts(r->Ok_0.tools().link_args@) == cpp_link_flags(
                        conf,
                        !(found.1 == CompilerType::Gpp || found.1 == CompilerType::Clangpp),
                    )
                },
            },
    {
        let (path, typ) = found;
        match typ {
            CompilerType::Gcc | CompilerType::Other => match Gpp::new(path, conf, true) {
                Ok(g) => Ok(CppCompiler::Gcc(g)),
                Err(e) => Err(e),
            },
            CompilerType::Gpp => match Gpp::new(path, conf, false) {
                Ok(g) => Ok(CppCompiler::Gcc(g)),
                Err(e) => Err(e),
            },
            CompilerType::Clang => match Clangpp::new(path, conf, true) {
                Ok(c) => Ok(CppCompiler::Clang(c)),
                Err(e) => Err(e),
            },
            CompilerType::Clangpp => match Clangpp::new(path, conf, false) {
                Ok(c) => Ok(CppCompiler::Clang(c)),
                Err(e) => Err(e),
            },
        }
    }
}

/// The compilers of a build: one for C, one for C++.
pub struct Compiler {
    pub c: CCompiler,
    pub cpp: CppCompiler,
}

impl Compiler {
    /// The compilers for the found C and C++ drivers.
    pub fn new(c: (String, CompilerType), cpp: (String, CompilerType), conf: &Config) -> (r: Result<
        Compiler,
        Error,
    >)
        ensures
            match (c_config_error(conf), cpp_config_error(conf)) {
                (Some(fault), _) => r is Err && is_config_error(r->Err_0, fault),
                (None, Some(fault)) => r is Err && is_config_error(r->Err_0, fault),
                (None, None) => r is Ok && r->Ok_0.c.tools().bin == c.0 && r->Ok_0.cpp.tools().bin
                    == cpp.0,
            },
    {
        let cc = match CCompiler::new(c, conf) {
            Ok(cc) => cc,
            Err(e) => {
                return Err(e);
            },
        };
        let cpp = match CppCompiler::new(cpp, conf) {
            Ok(cpp) => cpp,
            Err(e) => {
                return Err(e);
            },
        };
        Ok(Compiler { c: cc, cpp })
    }

    /// The command that produces a node's file, by the compiler of its
    /// language.
    pub fn build(&self, file: Dependency) -> (r: Result<(CommandLine, Vec<Dependency>), Error>)
        ensures
            match file.file.typ {
                Some(t) => build_result(
                    &(if t.lang == Language::C {
                        self.c.tools()
                    } else {
                        self.cpp.tools()
                    }),
                    file,
                    r,
                ),
                None => r matches Err(Error::InvalidFileType(x)) && x == file.file,
            },
    {
        match file.file.typ {
            Some(t) => match t.lang {
                Language::C => match &self.c {
                    CCompiler::Gcc(cc) => cc.build(file),
                    CCompiler::Clang(cc) => cc.build(file),
                },
                Language::Cpp => match &self.cpp {
                    CppCompiler::Gcc(cc) => cc.build(file),
                    CppCompiler::Clang(cc) => cc.build(file),
                },
            },
            None => Err(Error::InvalidFileType(file.file)),
        }
    }
}

} // verus!
