use vstd::prelude::*;
use crate::compiler::config::{opt_in_range, opt_text, Config, Optimization, Std};
use crate::dependency::{copy_strings, paths, texts, DepFile, Dependency, DependencyView};
use crate::err::Error;
use crate::file_type::{FileState, FileType};
use crate::path::{join, join_path, strip_under, strip_under_path};
use crate::text::{concat, decimal, int_text, str_chars, string_of};

verus! {

/// A command to run: the program and its arguments.
#[derive(Debug)]
pub struct CommandLine {
    pub program: String,
    pub args: Vec<String>,
}

/// What a GCC-like compiler driver needs: its executable, the source and
/// binary roots, and the flags for compiling and for linking.
#[derive(Debug)]
pub struct Tools {
    pub bin: String,
    pub src_root: String,
    pub bin_root: String,
    pub compile_args: Vec<String>,
    pub link_args: Vec<String>,
}

/// The GCC C compiler.
pub struct Gcc {
    pub tools: Tools,
}

pub open spec fn opt_flag(o: Optimization) -> Seq<char> {
    match o {
        Optimization::Disabled => "-O0"@,
        Optimization::All => "-O3"@,
        Optimization::Level(n) => "-O"@ + decimal(n as int),
    }
}

pub open spec fn define_flag(d: (String, Option<String>)) -> Seq<char> {
    match d.1 {
        Some(v) => "-D"@ + d.0@ + "="@ + v@,
        None => "-D"@ + d.0@,
    }
}

pub open spec fn asan_flags(c: &Config) -> Seq<Seq<char>> {
    if c.asan {
        seq!["-fsanitize=address"@]
    } else {
        seq![]
    }
}

/// The flags that start every compile: optimization, sanitizer, debug
/// symbols.
pub open spec fn head_flags(c: &Config) -> Seq<Seq<char>> {
    seq![opt_flag(c.optimization)] + asan_flags(c) + if c.dbg_symbols {
        seq!["-g"@]
    } else {
        seq![]
    }
}

/// The flags that end every compile: defines, warnings, extra arguments.
pub open spec fn tail_flags(c: &Config) -> Seq<Seq<char>> {
    c.defines@.map_values(|d: (String, Option<String>)| define_flag(d)) + c.warn@.map_values(
        |w: String| "-W"@ + w@,
    ) + c.no_warn@.map_values(|w: String| "-Wno-"@ + w@) + texts(c.args@)
}

/// The standard flag for C.
pub open spec fn c_std_flag(s: Std) -> Seq<char> {
    match s {
        Std::Number(n) => "-std=c"@ + decimal(n as int),
        Std::Name(x) => "-std="@ + x@,
    }
}

/// Where the settings are refused, the option and the value at fault.
pub open spec fn c_config_error(c: &Config) -> Option<(Seq<char>, Seq<char>)> {
    if !opt_in_range(c.optimization, 0, 3) {
        Some(("optimization"@, opt_text(c.optimization)))
    } else {
        match c.c_std {
            Std::Number(n) => if !(n == 99 || n == 11 || n == 17) {
                Some(("c_std"@, decimal(n as int)))
            } else {
                None
            },
            Std::Name(_) => None,
        }
    }
}

/// The error that a refused setting gives.
pub open spec fn is_config_error(e: Error, fault: (Seq<char>, Seq<char>)) -> bool {
    match e {
        Error::InvalidCompilerValue { option, value } => option@ == fault.0 && value@ == fault.1,
        _ => false,
    }
}

/// Appends `prefix + w` for each `w`.
pub fn push_prefixed(out: &mut Vec<String>, items: &Vec<String>, prefix: &str)
    ensures
        texts(final(out)@) == texts(old(out)@) + items@.map_values(|w: String| prefix@ + w@),
{
    let ghost base = texts(out@);
    let mut i: usize = 0;
    while i < items.len()
        invariant
            i <= items@.len(),
            texts(out@) == base + items@.subrange(0, i as int).map_values(|w: String| prefix@ + w@),
        decreases items@.len() - i,
    {
        let ghost before = out@;
        let s = concat(prefix, items[i].as_str());
        out.push(s);
        assert(texts(out@) =~= texts(before).push(s@));
        assert(items@.subrange(0, i + 1).map_values(|w: String| prefix@ + w@) =~= items@.subrange(
            0,
            i as int,
        ).map_values(|w: String| prefix@ + w@).push(prefix@ + items@[i as int]@));
        i += 1;
    }
    assert(items@.subrange(0, items@.len() as int) =~= items@);
}

/// Appends each string.
pub fn push_all(out: &mut Vec<String>, items: &Vec<String>)
    ensures
        texts(final(out)@) == texts(old(out)@) + texts(items@),
{
    let ghost base = texts(out@);
    let mut i: usize = 0;
    while i < items.len()
        invariant
            i <= items@.len(),
            texts(out@) == base + texts(items@.subrange(0, i as int)),
        decreases items@.len() - i,
    {
        let ghost before = out@;
        out.push(items[i].clone());
        assert(texts(out@) =~= texts(before).push(items@[i as int]@));
        assert(texts(items@.subrange(0, i + 1)) =~= texts(items@.subrange(0, i as int)).push(
            items@[i as int]@,
        ));
        i += 1;
    }
    assert(items@.subrange(0, items@.len() as int) =~= items@);
}

/// The flags that start every compile.
pub fn head_flags_exec(c: &Config) -> (r: Vec<String>)
    ensures
        texts(r@) == head_flags(c),
{
    let mut r: Vec<String> = Vec::new();
    let o = match c.optimization {
        Optimization::Disabled => String::from_str("-O0"),
        Optimization::All => String::from_str("-O3"),
        Optimization::Level(n) => concat("-O", int_text(n).as_str()),
    };
    r.push(o);
    if c.asan {
        r.push(String::from_str("-fsanitize=address"));
    }
    if c.dbg_symbols {
        r.push(String::from_str("-g"));
    }
    assert(texts(r@) =~= head_flags(c));
    r
}

/// The flags that end every compile.
pub fn tail_flags_exec(c: &Config, out: &mut Vec<String>)
    ensures
        texts(final(out)@) == texts(old(out)@) + tail_flags(c),
{
    let ghost base = texts(out@);
    let mut i: usize = 0;
    while i < c.defines.len()
        invariant
            i <= c.defines@.len(),
            texts(out@) == base + c.defines@.subrange(0, i as int).map_values(
                |d: (String, Option<String>)| define_flag(d),
            ),
        decreases c.defines@.len() - i,
    {
        let ghost before = out@;
        let d = &c.defines[i];
        let name = concat("-D", d.0.as_str());
        let s = match &d.1 {
            Some(v) => concat(concat(name.as_str(), "=").as_str(), v.as_str()),
            None => name,
        };
        out.push(s);
        assert(texts(out@) =~= texts(before).push(s@));
        assert(c.defines@.subrange(0, i + 1).map_values(
            |d: (String, Option<String>)| define_flag(d),
        ) =~= c.defines@.subrange(0, i as int).map_values(
            |d: (String, Option<String>)| define_flag(d),
        ).push(define_flag(c.defines@[i as int])));
        i += 1;
    }
    assert(c.defines@.subrange(0, c.defines@.len() as int) =~= c.defines@);
    push_prefixed(out, &c.warn, "-W");
    push_prefixed(out, &c.no_warn, "-Wno-");
    push_all(out, &c.args);
    assert(texts(out@) =~= base + tail_flags(c));
}

/// The driver for C: the compile flags for the settings, or the setting
/// that is refused (an optimization level past 3, an unknown C standard
/// number).
pub fn try_new(bin: String, conf: &Config) -> (r: Result<Tools, Error>)
    ensures
        match c_config_error(conf) {
            Some(fault) => r is Err && is_config_error(r->Err_0, fault),
            None => r is Ok && r->Ok_0.bin == bin && r->Ok_0.src_root == conf.src_root
                && r->Ok_0.bin_root == conf.bin_root && texts(r->Ok_0.compile_args@) == head_flags(
                conf,
            ) + seq![c_std_flag(conf.c_std)] + tail_flags(conf) && texts(r->Ok_0.link_args@)
                == asan_flags(conf) + texts(conf.args@),
        },
{
    if !conf.optimization.in_range(0, 3) {
        return Err(
            Error::InvalidCompilerValue {
                option: String::from_str("optimization"),
                value: conf.optimization.to_text(),
            },
        );
    }
    let mut compile_args = head_flags_exec(conf);
    let mut link_args: Vec<String> = Vec::new();
    if conf.asan {
        link_args.push(String::from_str("-fsanitize=address"));
    }
    let ghost h = texts(compile_args@);
    let std = match &conf.c_std {
        Std::Number(n) => {
            if !conf.c_std.is_c_num() {
                return Err(
                    Error::InvalidCompilerValue {
                        option: String::from_str("c_std"),
                        value: int_text(*n),
                    },
                );
            }
            concat("-std=c", int_text(*n).as_str())
        },
        Std::Name(s) => concat("-std=", s.as_str()),
    };
    compile_args.push(std);
    assert(texts(compile_args@) =~= h + seq![c_std_flag(conf.c_std)]);
    tail_flags_exec(conf, &mut compile_args);
    assert(texts(link_args@) =~= asan_flags(conf));
    push_all(&mut link_args, &conf.args);
    assert(texts(compile_args@) =~= head_flags(conf) + seq![c_std_flag(conf.c_std)] + tail_flags(
        conf,
    ));
    Ok(
        Tools {
            bin,
            src_root: conf.src_root.clone(),
            bin_root: conf.bin_root.clone(),
            compile_args,
            link_args,
        },
    )
}

impl Gcc {
    /// The GCC C driver at `bin` with the flags for the settings.
    pub fn new(bin: String, conf: &Config) -> (r: Result<Gcc, Error>)
        ensures
            match c_config_error(conf) {
                Some(fault) => r is Err && is_config_error(r->Err_0, fault),
                None => r is Ok && r->Ok_0.tools.bin == bin && texts(r->Ok_0.tools.compile_args@)
                    == head_flags(conf) + seq![c_std_flag(conf.c_std)] + tail_flags(conf) && texts(
                    r->Ok_0.tools.link_args@,
                ) == asan_flags(conf) + texts(conf.args@),
            },
    {
        match try_new(bin, conf) {
            Ok(tools) => Ok(Gcc { tools }),
            Err(e) => Err(e),
        }
    }
}


/// The object file that a source file compiles to: its path below the source
/// root, under `<bin_root>/project`, with `.o` added.
pub open spec fn obj_path(t: &Tools, src: Seq<char>) -> Option<Seq<char>> {
    match strip_under(src, t.src_root@) {
        Some(rest) => Some(join(join(t.bin_root@, "project"@), rest) + ".o"@),
        None => None,
    }
}

/// The type of the object compiled from a file of type `t`.
pub open spec fn object_type(t: Option<FileType>) -> Option<FileType> {
    match t {
        Some(t) => Some(FileType { lang: t.lang, state: FileState::Object }),
        None => None,
    }
}

/// The node that compiles the source `src` into its object file.
pub open spec fn object_dep(t: &Tools, src: DepFile, d: DependencyView) -> bool {
    &&& d.file.path@ == obj_path(t, src.path@).unwrap()
    &&& d.file.typ == object_type(src.typ)
    &&& d.direct == seq![src]
    &&& d.transitive.len() == 0
    &&& d.non_transitive.len() == 0
}

/// The object node for a source file.
pub fn obj_source_dep(cc: &Tools, file: DepFile) -> (r: Result<Dependency, Error>)
    ensures
        match obj_path(cc, file.path@) {
            Some(_) => r is Ok && object_dep(cc, file, r->Ok_0@),
            None => r matches Err(Error::StripPrefix { path, prefix }) && path@ == file.path@
                && prefix@ == cc.src_root@,
        },
{
    let p = str_chars(file.path.as_str());
    let root = str_chars(cc.src_root.as_str());
    let rest = match strip_under_path(&p, &root) {
        Some(rest) => rest,
        None => {
            return Err(Error::StripPrefix { path: file.path, prefix: cc.src_root.clone() });
        },
    };
    let base = join_path(&str_chars(cc.bin_root.as_str()), &str_chars("project"));
    let joined = join_path(&base, &rest);
    let obj = concat(string_of(&joined).as_str(), ".o");
    let typ = match file.typ {
        Some(t) => Some(FileType { lang: t.lang, state: FileState::Object }),
        None => None,
    };
    let res = DepFile { path: obj, typ };
    let ghost fv = file;
    let direct = vec![file];
    assert(direct@ =~= seq![fv]);
    Ok(Dependency::new(res, direct, Vec::new()))
}

/// The position of the first input that is not a source file, if any.
pub open spec fn first_non_source(ds: Seq<DepFile>) -> Option<int>
    decreases ds.len(),
{
    if ds.len() == 0 {
        None
    } else {
        match first_non_source(ds.drop_last()) {
            Some(i) => Some(i),
            None => match ds.last().typ {
                Some(t) => if t.state == FileState::Source {
                    None
                } else {
                    Some(ds.len() - 1)
                },
                None => Some(ds.len() - 1),
            },
        }
    }
}

/// The arguments that the inputs of a link give, and the sources among
/// them; or the position of the first input that cannot be linked.
pub open spec fn link_inputs(t: &Tools, ds: Seq<DepFile>) -> Result<
    (Seq<Seq<char>>, Seq<DepFile>),
    int,
>
    decreases ds.len(),
{
    if ds.len() == 0 {
        Ok((seq![], seq![]))
    } else {
        match link_inputs(t, ds.drop_last()) {
            Err(i) => Err(i),
            Ok((args, srcs)) => {
                let d = ds.last();
                match d.typ {
                    Some(ft) => if ft.state == FileState::Object {
                        Ok((args.push(d.path@), srcs))
                    } else if ft.state == FileState::Source {
                        match obj_path(t, d.path@) {
                            Some(o) => Ok((args.push(o), srcs.push(d))),
                            None => Err(ds.len() - 1),
                        }
                    } else {
                        Err(ds.len() - 1)
                    },
                    None => Err(ds.len() - 1),
                }
            },
        }
    }
}

/// The error for an input that cannot be linked.
pub open spec fn input_error(t: &Tools, d: DepFile, e: Error) -> bool {
    if d.typ.is_some() && d.typ.unwrap().state == FileState::Source {
        e matches Error::StripPrefix { path, prefix } && path@ == d.path@ && prefix@ == t.src_root@
    } else {
        e matches Error::InvalidFileType(x) && x == d
    }
}

pub open spec fn nothing_to_build(e: Error, file: DepFile) -> bool {
    e matches Error::NothingToBuild(p) && p@ == file.path@
}

/// The command that compiles the sources of an object file.
pub fn build_object(cc: &Tools, file: Dependency) -> (r: Result<(CommandLine, Vec<Dependency>), Error>)
    ensures
        file.direct@.len() == 0 ==> r is Err && nothing_to_build(r->Err_0, file.file),
        file.direct@.len() > 0 ==> match first_non_source(file.direct@) {
            Some(i) => r matches Err(Error::InvalidFileType(x)) && x == file.direct@[i],
            None => r is Ok && r->Ok_0.0.program@ == cc.bin@ && texts(r->Ok_0.0.args@) == seq![
                "-c"@,
                "-o"@,
                file.file.path@,
            ] + paths(file.direct@) + texts(cc.compile_args@) && r->Ok_0.1@.len() == 0,
        },
{
    if file.direct.len() == 0 {
        return Err(Error::NothingToBuild(file.file.path));
    }
    let mut args: Vec<String> = Vec::new();
    args.push(String::from_str("-c"));
    args.push(String::from_str("-o"));
    args.push(file.file.path.clone());
    let ghost ds = file.direct@;
    let ghost a0 = texts(args@);
    assert(a0 =~= seq!["-c"@, "-o"@, file.file.path@]);
    let mut direct = file.direct;
    let mut i: usize = 0;
    while i < direct.len()
        invariant
            direct@ == ds,
            ds == file.direct@,
            ds.len() > 0,
            i <= ds.len(),
            first_non_source(ds.subrange(0, i as int)).is_none(),
            texts(args@) == a0 + paths(ds.subrange(0, i as int)),
        decreases ds.len() - i,
    {
        assert(ds.subrange(0, i + 1).drop_last() =~= ds.subrange(0, i as int));
        let ok = match direct[i].typ {
            Some(t) => match t.state {
                FileState::Source => true,
                _ => false,
            },
            None => false,
        };
        if !ok {
            proof {
                lemma_first_non_source_prefix(ds, i as int + 1);
            }
            let bad = direct.swap_remove(i);
            return Err(Error::InvalidFileType(bad));
        }
        let ghost before = args@;
        args.push(direct[i].path.clone());
        assert(texts(args@) =~= texts(before).push(ds[i as int].path@));
        assert(paths(ds.subrange(0, i + 1)) =~= paths(ds.subrange(0, i as int)).push(ds[i as int].path@));
        i += 1;
    }
    assert(ds.subrange(0, ds.len() as int) =~= ds);
    push_all(&mut args, &cc.compile_args);
    Ok((CommandLine { program: cc.bin.clone(), args }, Vec::new()))
}

/// The first input that is not a source in a prefix is the first overall.
proof fn lemma_first_non_source_prefix(ds: Seq<DepFile>, n: int)
    requires
        0 < n <= ds.len(),
        first_non_source(ds.subrange(0, n - 1)).is_none(),
        first_non_source(ds.subrange(0, n)) == Some(n - 1),
    ensures
        first_non_source(ds) == Some(n - 1),
    decreases ds.len() - n,
{
    if n < ds.len() {
        assert(ds.subrange(0, ds.len() - 1).subrange(0, n) =~= ds.subrange(0, n));
        assert(ds.subrange(0, ds.len() - 1).subrange(0, n - 1) =~= ds.subrange(0, n - 1));
        lemma_first_non_source_prefix(ds.subrange(0, ds.len() - 1), n);
        assert(ds.drop_last() =~= ds.subrange(0, ds.len() - 1));
    } else {
        assert(ds.subrange(0, n) =~= ds);
    }
}

/// A failure found in a prefix is the failure overall.
proof fn lemma_link_inputs_prefix(t: &Tools, ds: Seq<DepFile>, n: int, i: int)
    requires
        0 <= n <= ds.len(),
        link_inputs(t, ds.subrange(0, n)) == Err::<(Seq<Seq<char>>, Seq<DepFile>), int>(i),
    ensures
        link_inputs(t, ds) == Err::<(Seq<Seq<char>>, Seq<DepFile>), int>(i),
    decreases ds.len() - n,
{
    if n < ds.len() {
        let m = ds.subrange(0, ds.len() - 1);
        assert(m.subrange(0, n) =~= ds.subrange(0, n));
        lemma_link_inputs_prefix(t, m, n, i);
        assert(ds.drop_last() =~= m);
    } else {
        assert(ds.subrange(0, n) =~= ds);
    }
}

/// The command that links an executable, and a node for each source among
/// its inputs that has to be compiled first.
pub fn build_executable(cc: &Tools, file: Dependency) -> (r: Result<
    (CommandLine, Vec<Dependency>),
    Error,
>)
    ensures
        file.direct@.len() == 0 ==> r is Err && nothing_to_build(r->Err_0, file.file),
        file.direct@.len() > 0 ==> match link_inputs(cc, file.direct@) {
            Err(i) => r is Err && input_error(cc, file.direct@[i], r->Err_0),
            Ok((args, srcs)) => {
                &&& r is Ok
                &&& r->Ok_0.0.program@ == cc.bin@
                &&& texts(r->Ok_0.0.args@) == seq!["-o"@, file.file.path@] + args + texts(
                    cc.link_args@,
                )
                &&& r->Ok_0.1@.len() == srcs.len()
                &&& forall|j: int|
                    0 <= j < srcs.len() ==> object_dep(cc, srcs[j], #[trigger] r->Ok_0.1@[j]@)
            },
        },
{
    if file.direct.len() == 0 {
        return Err(Error::NothingToBuild(file.file.path));
    }
    let mut args: Vec<String> = Vec::new();
    args.push(String::from_str("-o"));
    args.push(file.file.path.clone());
    let ghost a0 = texts(args@);
    assert(a0 =~= seq!["-o"@, file.file.path@]);
    let ghost ds = file.direct@;
    let mut deps: Vec<Dependency> = Vec::new();
    let mut direct = file.direct;
    let mut i: usize = 0;
    assert(ds.subrange(0, 0) =~= Seq::<DepFile>::empty());
    while i < direct.len()
        invariant
            direct@ == ds,
            ds == file.direct@,
            ds.len() > 0,
            i <= ds.len(),
            link_inputs(cc, ds.subrange(0, i as int)) is Ok,
            texts(args@) == a0 + link_inputs(cc, ds.subrange(0, i as int))->Ok_0.0,
            deps@.len() == link_inputs(cc, ds.subrange(0, i as int))->Ok_0.1.len(),
            forall|j: int|
                0 <= j < deps@.len() ==> object_dep(
                    cc,
                    link_inputs(cc, ds.subrange(0, i as int))->Ok_0.1[j],
                    #[trigger] deps@[j]@,
                ),
        decreases ds.len() - i,
    {
        assert(ds.subrange(0, i + 1).drop_last() =~= ds.subrange(0, i as int));
        assert(ds.subrange(0, i + 1).last() == ds[i as int]);
        let ghost before = args@;
        let ghost dbefore = deps@;
        let ghost prev = link_inputs(cc, ds.subrange(0, i as int))->Ok_0;
        let d = direct[i].duplicate();
        match d.typ {
            Some(t) => match t.state {
                FileState::Object => {
                    args.push(d.path.clone());
                    assert(texts(args@) =~= texts(before).push(d.path@));
                },
                FileState::Source => {
                    match obj_source_dep(cc, d) {
                        Ok(od) => {
                            args.push(od.file.path.clone());
                            assert(texts(args@) =~= texts(before).push(od.file.path@));
                            deps.push(od);
                            assert forall|j: int| 0 <= j < deps@.len() implies object_dep(
                                cc,
                                prev.1.push(ds[i as int])[j],
                                #[trigger] deps@[j]@,
                            ) by {
                                if j < dbefore.len() {
                                    assert(deps@[j] == dbefore[j]);
                                }
                            }
                        },
                        Err(e) => {
                            proof {
                                lemma_link_inputs_prefix(cc, ds, i + 1, i as int);
                            }
                            return Err(e);
                        },
                    }
                },
                _ => {
                    proof {
                        lemma_link_inputs_prefix(cc, ds, i + 1, i as int);
                    }
                    return Err(Error::InvalidFileType(d));
                },
            },
            None => {
                proof {
                    lemma_link_inputs_prefix(cc, ds, i + 1, i as int);
                }
                return Err(Error::InvalidFileType(d));
            },
        }
        i += 1;
    }
    assert(ds.subrange(0, ds.len() as int) =~= ds);
    push_all(&mut args, &cc.link_args);
    Ok((CommandLine { program: cc.bin.clone(), args }, deps))
}

/// The command that produces a node's file: a compile for an object, a
/// link for an executable.
pub fn build(cc: &Tools, file: Dependency) -> (r: Result<(CommandLine, Vec<Dependency>), Error>)
    ensures
        build_result(cc, file, r),
{
    let typ = match file.file.typ {
        Some(t) => t,
        None => {
            return Err(Error::InvalidFileType(file.file));
        },
    };
    match typ.state {
        FileState::Object => build_object(cc, file),
        FileState::Executable => build_executable(cc, file),
        _ => Err(Error::InvalidFileType(file.file)),
    }
}

impl Gcc {
    /// The command that produces a node's file.
    pub fn build(&self, file: Dependency) -> (r: Result<(CommandLine, Vec<Dependency>), Error>)
        ensures
            build_result(&self.tools, file, r),
    {
        let r = build(&self.tools, file);
        r
    }
}

pub open spec fn has_state(t: Option<FileType>, s: FileState) -> bool {
    match t {
        Some(t) => t.state == s,
        None => false,
    }
}

/// What `build` gives for a node.
pub open spec fn build_result(
    cc: &Tools,
    file: Dependency,
    r: Result<(CommandLine, Vec<Dependency>), Error>,
) -> bool {
    &&& match file.file.typ {
        Some(t) => if t.state == FileState::Object || t.state == FileState::Executable {
            file.direct@.len() == 0 ==> r is Err && nothing_to_build(r->Err_0, file.file)
        } else {
            r matches Err(Error::InvalidFileType(x)) && x == file.file
        },
        None => r matches Err(Error::InvalidFileType(x)) && x == file.file,
    }
    &&& has_state(file.file.typ, FileState::Object) && file.direct@.len() > 0
        ==> match first_non_source(file.direct@) {
        Some(i) => r matches Err(Error::InvalidFileType(x)) && x == file.direct@[i],
        None => r is Ok && r->Ok_0.0.program@ == cc.bin@ && texts(r->Ok_0.0.args@) == seq![
            "-c"@,
            "-o"@,
            file.file.path@,
        ] + paths(file.direct@) + texts(cc.compile_args@) && r->Ok_0.1@.len() == 0,
    }
    &&& has_state(file.file.typ, FileState::Executable) && file.direct@.len() > 0
        ==> match link_inputs(cc, file.direct@) {
        Err(i) => r is Err && input_error(cc, file.direct@[i], r->Err_0),
        Ok((args, srcs)) => {
            &&& r is Ok
            &&& r->Ok_0.0.program@ == cc.bin@
            &&& texts(r->Ok_0.0.args@) == seq!["-o"@, file.file.path@] + args + texts(
                cc.link_args@,
            )
            &&& r->Ok_0.1@.len() == srcs.len()
            &&& forall|j: int|
                0 <= j < srcs.len() ==> object_dep(cc, srcs[j], #[trigger] r->Ok_0.1@[j]@)
        },
    }
}

} // verus!
