//! The configuration file's shape, and how it resolves into the settings
//! of the two build profiles.
use vstd::prelude::*;
use crate::compiler::config::{Optimization, Std};
use crate::config::{Build, CompilerConfig, Config, Project};
use crate::dependency::texts;
use crate::path::{join, join_path};
use crate::text::{str_chars, string_of};

verus! {

/// The configuration file.
pub struct SerdeConfig {
    pub project: SerdeProject,
    pub build: Option<SerdeBuild>,
    pub debug_build: Option<SerdeBuild>,
    pub release_build: Option<SerdeBuild>,
}

/// The project section: its name and the source and binary directories.
pub struct SerdeProject {
    pub name: String,
    pub src: Option<String>,
    pub bin: Option<String>,
}

/// A build section: shared by both profiles, or for one of them.
pub struct SerdeBuild {
    pub cc: Option<String>,
    pub cpp: Option<String>,
    pub compiler_configuration: Option<SerdeCompilerConfig>,
}

/// The compiler settings of a build section; what is absent falls back.
pub struct SerdeCompilerConfig {
    pub optimization: Option<Optimization>,
    pub asan: Option<bool>,
    pub dbg_symbols: Option<bool>,
    pub c_std: Option<Std>,
    pub cpp_std: Option<Std>,
    pub defines: Option<Vec<(String, Option<String>)>>,
    pub warn: Option<Vec<String>>,
    pub no_warn: Option<Vec<String>>,
    pub args: Option<Vec<String>>,
}

/// The compiler settings of a section, as values.
pub struct SettingsView {
    pub optimization: Option<Optimization>,
    pub asan: Option<bool>,
    pub dbg_symbols: Option<bool>,
    pub c_std: Option<Std>,
    pub cpp_std: Option<Std>,
    pub defines: Option<Seq<(String, Option<String>)>>,
    pub warn: Option<Seq<String>>,
    pub no_warn: Option<Seq<String>>,
    pub args: Option<Seq<String>>,
}

pub open spec fn opt_seq<T>(v: Option<Vec<T>>) -> Option<Seq<T>> {
    match v {
        Some(x) => Some(x@),
        None => None,
    }
}

impl View for SerdeCompilerConfig {
    type V = SettingsView;

    open spec fn view(&self) -> SettingsView {
        SettingsView {
            optimization: self.optimization,
            asan: self.asan,
            dbg_symbols: self.dbg_symbols,
            c_std: self.c_std,
            cpp_std: self.cpp_std,
            defines: opt_seq(self.defines),
            warn: opt_seq(self.warn),
            no_warn: opt_seq(self.no_warn),
            args: opt_seq(self.args),
        }
    }
}

/// A build section, as values.
pub struct SectionView {
    pub cc: Option<String>,
    pub cpp: Option<String>,
    pub compiler_configuration: Option<SettingsView>,
}

impl View for SerdeBuild {
    type V = SectionView;

    open spec fn view(&self) -> SectionView {
        SectionView {
            cc: self.cc,
            cpp: self.cpp,
            compiler_configuration: match self.compiler_configuration {
                Some(c) => Some(c@),
                None => None,
            },
        }
    }
}

/// The first of two settings that is given.
pub open spec fn first_of<T>(a: Option<T>, b: Option<T>) -> Option<T> {
    match a {
        Some(x) => Some(x),
        None => b,
    }
}

pub open spec fn or_default<T>(a: Option<T>, d: T) -> T {
    match a {
        Some(x) => x,
        None => d,
    }
}

/// Two lists joined, the shared one first; one alone as it is; `d` where
/// there is none.
pub open spec fn joined<T>(d: Seq<T>, common: Option<Seq<T>>, own: Option<Seq<T>>) -> Seq<T> {
    match (common, own) {
        (Some(a), Some(b)) => a + b,
        (Some(a), None) => a,
        (None, Some(b)) => b,
        (None, None) => d,
    }
}

pub open spec fn define_view(d: (String, Option<String>)) -> (Seq<char>, Option<Seq<char>>) {
    (
        d.0@,
        match d.1 {
            Some(v) => Some(v@),
            None => None,
        },
    )
}

pub open spec fn defines_view(v: Seq<(String, Option<String>)>) -> Seq<(Seq<char>, Option<Seq<char>>)> {
    v.map_values(|d: (String, Option<String>)| define_view(d))
}

/// The settings of a profile from its own section `s` and the shared one
/// `c`: a setting of `s` wins; lists are joined; the defaults differ by
/// profile.
pub open spec fn resolved_conf(
    r: &CompilerConfig,
    s: SettingsView,
    c: SettingsView,
    src_root: Seq<char>,
    bin_root: Seq<char>,
    release: bool,
) -> bool {
    &&& r.src_root@ == src_root
    &&& r.bin_root@ == bin_root
    &&& r.optimization == or_default(
        first_of(s.optimization, c.optimization),
        if release {
            Optimization::All
        } else {
            Optimization::Disabled
        },
    )
    &&& r.asan == or_default(first_of(s.asan, c.asan), !release)
    &&& r.dbg_symbols == or_default(first_of(s.dbg_symbols, c.dbg_symbols), !release)
    &&& r.c_std == or_default(first_of(s.c_std, c.c_std), Std::Number(17))
    &&& r.cpp_std == or_default(first_of(s.cpp_std, c.cpp_std), Std::Number(20))
    &&& defines_view(r.defines@) == if c.defines is None && s.defines is None {
        if release {
            seq![("NDEBUG"@, None)]
        } else {
            seq![]
        }
    } else {
        defines_view(joined(seq![], c.defines, s.defines))
    }
    &&& texts(r.warn@) == if c.warn is None && s.warn is None {
        seq!["all"@]
    } else {
        texts(joined(seq![], c.warn, s.warn))
    }
    &&& r.no_warn@ == joined(seq![], c.no_warn, s.no_warn)
    &&& r.args@ == joined(seq![], c.args, s.args)
}

/// A compiler section with nothing set.
pub open spec fn no_settings() -> SettingsView {
    SettingsView {
        optimization: None,
        asan: None,
        dbg_symbols: None,
        c_std: None,
        cpp_std: None,
        defines: None,
        warn: None,
        no_warn: None,
        args: None,
    }
}

/// Which sections settle a profile's compiler settings: the profile's own
/// and the shared one where both exist, else whichever exists.
pub open spec fn sections(
    own: Option<SettingsView>,
    common: Option<SettingsView>,
) -> (SettingsView, SettingsView) {
    match (own, common) {
        (Some(s), Some(c)) => (s, c),
        (Some(s), None) => (s, no_settings()),
        (None, Some(c)) => (c, no_settings()),
        (None, None) => (no_settings(), no_settings()),
    }
}

/// A profile resolved from its section `own` and the shared one `common`.
pub open spec fn resolved_build(
    r: &Build,
    own: SectionView,
    common: SectionView,
    target: Seq<char>,
    src_root: Seq<char>,
    bin_root: Seq<char>,
    release: bool,
) -> bool {
    let (s, c) = sections(own.compiler_configuration, common.compiler_configuration);
    &&& r.target@ == target
    &&& r.cc == first_of(own.cc, common.cc)
    &&& r.cpp == first_of(own.cpp, common.cpp)
    &&& resolved_conf(&r.compiler_conf, s, c, src_root, bin_root, release)
}

fn first<T>(a: Option<T>, b: Option<T>) -> (r: Option<T>)
    ensures
        r == first_of(a, b),
{
    match a {
        Some(x) => Some(x),
        None => b,
    }
}

fn join_lists<T>(common: Option<Vec<T>>, own: Option<Vec<T>>, d: Vec<T>) -> (r: Vec<T>)
    ensures
        r@ == joined(d@, opt_seq(common), opt_seq(own)),
{
    match (common, own) {
        (Some(mut a), Some(mut b)) => {
            a.append(&mut b);
            a
        },
        (Some(a), None) => a,
        (None, Some(b)) => b,
        (None, None) => d,
    }
}

fn copy_defines(v: &Vec<(String, Option<String>)>) -> (r: Vec<(String, Option<String>)>)
    ensures
        r@ == v@,
{
    let mut r: Vec<(String, Option<String>)> = Vec::new();
    let mut i: usize = 0;
    while i < v.len()
        invariant
            i <= v@.len(),
            r@ == v@.subrange(0, i as int),
        decreases v@.len() - i,
    {
        let d = &v[i];
        let val = match &d.1 {
            Some(x) => Some(x.clone()),
            None => None,
        };
        r.push((d.0.clone(), val));
        i += 1;
        assert(r@ =~= v@.subrange(0, i as int));
    }
    assert(v@.subrange(0, v@.len() as int) =~= v@);
    r
}

fn copy_opt_strings(v: &Option<Vec<String>>) -> (r: Option<Vec<String>>)
    ensures
        opt_seq(r) == opt_seq(*v),
{
    match v {
        Some(x) => Some(crate::dependency::copy_strings(x)),
        None => None,
    }
}

impl SerdeCompilerConfig {
    /// A copy of these settings.
    pub fn duplicate(&self) -> (r: SerdeCompilerConfig)
        ensures
            r@ == self@,
    {
        SerdeCompilerConfig {
            optimization: self.optimization,
            asan: self.asan,
            dbg_symbols: self.dbg_symbols,
            c_std: match &self.c_std {
                Some(x) => Some(x.duplicate()),
                None => None,
            },
            cpp_std: match &self.cpp_std {
                Some(x) => Some(x.duplicate()),
                None => None,
            },
            defines: match &self.defines {
                Some(x) => Some(copy_defines(x)),
                None => None,
            },
            warn: copy_opt_strings(&self.warn),
            no_warn: copy_opt_strings(&self.no_warn),
            args: copy_opt_strings(&self.args),
        }
    }

    /// Nothing set.
    pub fn none() -> (r: SerdeCompilerConfig)
        ensures
            r@ == no_settings(),
    {
        SerdeCompilerConfig {
            optimization: None,
            asan: None,
            dbg_symbols: None,
            c_std: None,
            cpp_std: None,
            defines: None,
            warn: None,
            no_warn: None,
            args: None,
        }
    }

    fn resolve(
        self,
        common: SerdeCompilerConfig,
        src_root: String,
        bin_root: String,
        release: bool,
    ) -> (r: CompilerConfig)
        ensures
            resolved_conf(&r, self@, common@, src_root@, bin_root@, release),
    {
        let ghost s = self@;
        let ghost c = common@;
        let optimization = match first(self.optimization, common.optimization) {
            Some(o) => o,
            None => if release {
                Optimization::All
            } else {
                Optimization::Disabled
            },
        };
        let asan = match first(self.asan, common.asan) {
            Some(b) => b,
            None => !release,
        };
        let dbg_symbols = match first(self.dbg_symbols, common.dbg_symbols) {
            Some(b) => b,
            None => !release,
        };
        let c_std = match first(self.c_std, common.c_std) {
            Some(x) => x,
            None => Std::Number(17),
        };
        let cpp_std = match first(self.cpp_std, common.cpp_std) {
            Some(x) => x,
            None => Std::Number(20),
        };
        let default_defines = if release {
            vec![(String::from_str("NDEBUG"), None)]
        } else {
            Vec::new()
        };
        let ghost dd = default_defines@;
        let defines = join_lists(common.defines, self.defines, default_defines);
        proof {
            if c.defines is None && s.defines is None {
                if release {
                    assert(defines_view(dd) =~= seq![("NDEBUG"@, None)]);
                } else {
                    assert(defines_view(dd) =~= Seq::empty());
                }
            } else {
                assert(defines@ == joined(seq![], c.defines, s.defines));
            }
        }
        let default_warn = vec![String::from_str("all")];
        let ghost dw = default_warn@;
        let warn = join_lists(common.warn, self.warn, default_warn);
        proof {
            if c.warn is None && s.warn is None {
                assert(texts(dw) =~= seq!["all"@]);
            } else {
                assert(warn@ == joined(seq![], c.warn, s.warn));
            }
        }
        let no_warn = join_lists(common.no_warn, self.no_warn, Vec::new());
        let args = join_lists(common.args, self.args, Vec::new());
        proof {
            assert(no_warn@ =~= joined(seq![], c.no_warn, s.no_warn));
            assert(args@ =~= joined(seq![], c.args, s.args));
        }
        CompilerConfig {
            bin_root,
            src_root,
            optimization,
            asan,
            dbg_symbols,
            c_std,
            cpp_std,
            defines,
            warn,
            no_warn,
            args,
        }
    }

    /// The debug settings: no optimization, sanitizer and debug symbols on.
    pub fn resolve_debug(self, common: SerdeCompilerConfig, src_root: String, bin_root: String) -> (r:
        CompilerConfig)
        ensures
            resolved_conf(&r, self@, common@, src_root@, bin_root@, false),
    {
        self.resolve(common, src_root, bin_root, false)
    }

    /// The release settings: full optimization, `NDEBUG` defined.
    pub fn resolve_release(self, common: SerdeCompilerConfig, src_root: String, bin_root: String) -> (r:
        CompilerConfig)
        ensures
            resolved_conf(&r, self@, common@, src_root@, bin_root@, true),
    {
        self.resolve(common, src_root, bin_root, true)
    }
}

impl SerdeBuild {
    /// A section with nothing set.
    pub fn none() -> (r: SerdeBuild)
        ensures
            r.cc is None && r.cpp is None && r.compiler_configuration is None,
    {
        SerdeBuild { cc: None, cpp: None, compiler_configuration: None }
    }

    fn resolve(
        self,
        common: SerdeBuild,
        target: String,
        src_root: String,
        bin_root: String,
        release: bool,
    ) -> (r: Build)
        ensures
            resolved_build(&r, self@, common@, target@, src_root@, bin_root@, release),
    {
        let ghost own = self;
        let ghost com = common;
        let compiler_conf = match (self.compiler_configuration, common.compiler_configuration) {
            (Some(s), Some(c)) => s.resolve(c, src_root, bin_root, release),
            (Some(s), None) => s.resolve(SerdeCompilerConfig::none(), src_root, bin_root, release),
            (None, Some(s)) => s.resolve(SerdeCompilerConfig::none(), src_root, bin_root, release),
            (None, None) => SerdeCompilerConfig::none().resolve(
                SerdeCompilerConfig::none(),
                src_root,
                bin_root,
                release,
            ),
        };
        Build {
            target,
            cc: first(self.cc, common.cc),
            cpp: first(self.cpp, common.cpp),
            compiler_conf,
        }
    }

    /// The debug profile from this section and the shared one.
    pub fn resolve_debug(
        self,
        common: SerdeBuild,
        target: String,
        src_root: String,
        bin_root: String,
    ) -> (r: Build)
        ensures
            resolved_build(&r, self@, common@, target@, src_root@, bin_root@, false),
    {
        self.resolve(common, target, src_root, bin_root, false)
    }

    /// The release profile from this section and the shared one.
    pub fn resolve_release(
        self,
        common: SerdeBuild,
        target: String,
        src_root: String,
        bin_root: String,
    ) -> (r: Build)
        ensures
            resolved_build(&r, self@, common@, target@, src_root@, bin_root@, true),
    {
        self.resolve(common, target, src_root, bin_root, true)
    }
}

impl SerdeProject {
    /// The project's name.
    pub fn resolve(self) -> (r: Project)
        ensures
            r.name == self.name,
    {
        Project { name: self.name }
    }
}

impl Default for SerdeProject {
    fn default() -> (r: SerdeProject)
        ensures
            r.name@ == "main"@,
            r.src is None,
            r.bin is None,
    {
        SerdeProject { name: String::from_str("main"), src: None, bin: None }
    }
}

fn text_join(base: &String, rel: &str) -> (r: String)
    ensures
        r@ == join(base@, rel@),
{
    string_of(&join_path(&str_chars(base.as_str()), &str_chars(rel)))
}

fn or_text(s: &Option<String>, d: &str) -> (r: String)
    ensures
        r@ == match s {
            Some(x) => x@,
            None => d@,
        },
{
    match s {
        Some(x) => x.clone(),
        None => String::from_str(d),
    }
}

impl SerdeConfig {
    /// The resolved configuration: binaries under `<bin>/debug` and
    /// `<bin>/release` (`bin` by default), sources under `src` by default,
    /// each profile from its own section over the shared `build` one.
    pub fn resolve(self) -> (r: Config)
        ensures
            r.project.name == self.project.name,
            ({
                let bin = match self.project.bin {
                    Some(b) => b@,
                    None => "bin"@,
                };
                let src = match self.project.src {
                    Some(x) => x@,
                    None => "src"@,
                };
                let none = SectionView { cc: None, cpp: None, compiler_configuration: None };
                let common = match self.build {
                    Some(b) => b@,
                    None => none,
                };
                &&& resolved_build(
                    &r.debug_build,
                    match self.debug_build {
                        Some(b) => b@,
                        None => none,
                    },
                    common,
                    join(join(bin, "debug"@), self.project.name@),
                    src,
                    join(bin, "debug"@),
                    false,
                )
                &&& resolved_build(
                    &r.release_build,
                    match self.release_build {
                        Some(b) => b@,
                        None => none,
                    },
                    common,
                    join(join(bin, "release"@), self.project.name@),
                    src,
                    join(bin, "release"@),
                    true,
                )
            }),
    {
        let bin = or_text(&self.project.bin, "bin");
        let src_root = or_text(&self.project.src, "src");
        let bin_debug_root = text_join(&bin, "debug");
        let bin_release_root = text_join(&bin, "release");
        let debug_target = text_join(&bin_debug_root, self.project.name.as_str());
        let release_target = text_join(&bin_release_root, self.project.name.as_str());
        let common = match self.build {
            Some(b) => b,
            None => SerdeBuild::none(),
        };
        let common2 = SerdeBuild {
            cc: match &common.cc {
                Some(x) => Some(x.clone()),
                None => None,
            },
            cpp: match &common.cpp {
                Some(x) => Some(x.clone()),
                None => None,
            },
            compiler_configuration: match &common.compiler_configuration {
                Some(c) => Some(c.duplicate()),
                None => None,
            },
        };
        let debug_build = match self.debug_build {
            Some(b) => b,
            None => SerdeBuild::none(),
        };
        let release_build = match self.release_build {
            Some(b) => b,
            None => SerdeBuild::none(),
        };
        let src2 = src_root.clone();
        Config {
            project: self.project.resolve(),
            debug_build: debug_build.resolve_debug(common2, debug_target, src_root, bin_debug_root),
            release_build: release_build.resolve_release(
                common,
                release_target,
                src2,
                bin_release_root,
            ),
        }
    }
}

} // verus!
