use ccpp::arg_parser::{Action, ArgError, Args};
use ccpp::compiler::clangpp::Clangpp;
use ccpp::compiler::config::{Config, Optimization, Std};
use ccpp::compiler::gcc::Gcc;
use ccpp::compiler::gpp::Gpp;
use ccpp::compiler::{compiler_candidates, compiler_type_of, score_compiler, CompilerSearch, CompilerType};
use ccpp::dependency::DepFile;
use ccpp::dir_structure::DirStructure;
use ccpp::err::Error;
use ccpp::file_type::{FileState, FileType, Language};
use ccpp::serde_config::{SerdeBuild, SerdeCompilerConfig, SerdeConfig, SerdeProject};

fn strings(v: &[&str]) -> Vec<String> {
    v.iter().map(|s| s.to_string()).collect()
}

fn conf() -> Config {
    Config {
        bin_root: "bin".to_string(),
        src_root: "src".to_string(),
        optimization: Optimization::Level(2),
        asan: true,
        dbg_symbols: true,
        c_std: Std::Number(11),
        cpp_std: Std::Name("gnu++2b".to_string()),
        defines: vec![("A".to_string(), Some("1".to_string())), ("B".to_string(), None)],
        warn: strings(&["all", "extra"]),
        no_warn: strings(&["unused"]),
        args: strings(&["-pthread"]),
    }
}

#[test]
fn parse_actions_and_flags() {
    let a = Args::parse(&strings(&["build", "-r"])).unwrap();
    assert!(matches!(a.action, Action::Build));
    assert!(a.release);
    let a = Args::parse(&strings(&["run", "--", "x", "--release"])).unwrap();
    assert!(matches!(a.action, Action::Run));
    assert!(!a.release);
    assert_eq!(a.app_args, strings(&["x", "--release"]));
    for h in ["help", "h", "-h", "-?", "--help"] {
        assert!(matches!(Args::parse(&strings(&[h])).unwrap().action, Action::Help));
    }
    let a = Args::parse(&strings(&["new", "proj"])).unwrap();
    assert!(matches!(a.action, Action::New(d) if d == "proj"));
    assert!(matches!(Args::parse(&vec![]).unwrap().action, Action::Nothing));
}

#[test]
fn parse_errors() {
    assert!(matches!(
        Args::parse(&strings(&["new"])),
        Err(Error::Arg(ArgError::MissingArgument(a))) if a == "new"
    ));
    assert!(matches!(
        Args::parse(&strings(&["build", "--bogus"])),
        Err(Error::Arg(ArgError::UnknownArgument(a))) if a == "--bogus"
    ));
}

#[test]
fn gcc_flags() {
    let g = Gcc::new("gcc".to_string(), &conf()).unwrap();
    assert_eq!(
        g.tools.compile_args,
        strings(&[
            "-O2", "-fsanitize=address", "-g", "-std=c11", "-DA=1", "-DB", "-Wall", "-Wextra",
            "-Wno-unused", "-pthread"
        ])
    );
    assert_eq!(g.tools.link_args, strings(&["-fsanitize=address", "-pthread"]));
}

#[test]
fn gpp_flags() {
    let g = Gpp::new("gcc".to_string(), &conf(), true).unwrap();
    assert_eq!(g.tools.compile_args[3], "-std=gnu++2b");
    assert_eq!(g.tools.link_args, strings(&["-lstdc++", "-fsanitize=address", "-pthread"]));
    let mut c = conf();
    c.cpp_std = Std::Number(17);
    let g = Clangpp::new("clang++".to_string(), &c, false).unwrap();
    assert_eq!(g.tools.compile_args[3], "-std=c++17");
    assert_eq!(g.tools.link_args, strings(&["-fsanitize=address", "-pthread"]));
}

#[test]
fn refused_settings() {
    let mut c = conf();
    c.optimization = Optimization::Level(4);
    assert!(matches!(
        Gcc::new("gcc".to_string(), &c),
        Err(Error::InvalidCompilerValue { option, value }) if option == "optimization" && value == "4"
    ));
    let mut c = conf();
    c.c_std = Std::Number(20);
    assert!(matches!(
        Gcc::new("gcc".to_string(), &c),
        Err(Error::InvalidCompilerValue { option, value }) if option == "c_std" && value == "20"
    ));
    let mut c = conf();
    c.cpp_std = Std::Number(-1);
    assert!(matches!(
        Gpp::new("g++".to_string(), &c, false),
        Err(Error::InvalidCompilerValue { option, value }) if option == "cpp_std" && value == "-1"
    ));
    assert_eq!(Optimization::Disabled.to_text(), "None");
    assert!(Optimization::All.in_range(0, 3));
    assert!(!Optimization::Level(5).in_range(0, 3));
    assert!(Std::Number(99).is_c_num());
    assert!(!Std::Number(20).is_c_num());
    assert!(Std::Number(3).is_cpp_num());
    assert!(!Std::Name("c++20".to_string()).is_cpp_num());
}

#[test]
fn compiler_choice() {
    assert_eq!(score_compiler(None, Language::C), -1);
    assert_eq!(score_compiler(Some(CompilerType::Other), Language::C), 1);
    assert_eq!(score_compiler(Some(CompilerType::Gpp), Language::C), 2);
    assert_eq!(score_compiler(Some(CompilerType::Clang), Language::C), 3);
    assert_eq!(score_compiler(Some(CompilerType::Clangpp), Language::Cpp), 3);
    assert_eq!(compiler_type_of(true, &b"gcc (GCC) 13.2".to_vec(), "cc"), CompilerType::Gcc);
    assert_eq!(compiler_type_of(true, &b"g++ (GCC) 13.2".to_vec(), "c++"), CompilerType::Gpp);
    assert_eq!(compiler_type_of(true, &b"clang version 17".to_vec(), "clang++"), CompilerType::Clangpp);
    assert_eq!(compiler_type_of(true, &b"clang version 17".to_vec(), "/usr/bin/clang"), CompilerType::Clang);
    assert_eq!(compiler_type_of(false, &b"gcc".to_vec(), "gcc"), CompilerType::Other);
    assert_eq!(compiler_type_of(true, &b"tcc".to_vec(), "tcc"), CompilerType::Other);
    assert_eq!(
        compiler_candidates(Language::C, &Some("mycc".to_string()), &None),
        strings(&["mycc", "cc", "gcc", "clang", "cl", "c++", "g++", "clang++"])
    );
    let mut s = match CompilerSearch::start(Language::Cpp, None) {
        Err(s) => s,
        Ok(_) => panic!(),
    };
    assert!(!s.offer("c++".to_string(), Some(CompilerType::Other)));
    assert!(!s.offer("cl".to_string(), None));
    assert_eq!(s.path, "c++");
    assert!(s.offer("g++".to_string(), Some(CompilerType::Gpp)));
    assert_eq!(s.typ, CompilerType::Gpp);
    assert!(matches!(
        CompilerSearch::start(Language::C, Some(("x".to_string(), Some(CompilerType::Clang)))),
        Ok((p, CompilerType::Clang)) if p == "x"
    ));
}

#[test]
fn source_tree_keeps_sources() {
    let mut d = DirStructure::new("src".to_string());
    d.analyze(strings(&["src/a.c", "src/b.h", "src/sub/c.cpp", "src/README", "src/d.cxx"]));
    assert_eq!(d.srcs().clone(), strings(&["src/a.c", "src/sub/c.cpp", "src/d.cxx"]));
    assert_eq!(
        FileType::from_ext("hpp"),
        Some(FileType { lang: Language::Cpp, state: FileState::Header })
    );
    assert_eq!(FileType::from_ext("txt"), None);
}

fn no_settings() -> SerdeCompilerConfig {
    SerdeCompilerConfig::none()
}

#[test]
fn configuration_resolves_profiles() {
    let mut shared = no_settings();
    shared.warn = Some(strings(&["extra"]));
    shared.defines = Some(vec![("X".to_string(), None)]);
    let mut rel = no_settings();
    rel.optimization = Some(Optimization::Level(2));
    rel.defines = Some(vec![("Y".to_string(), Some("1".to_string()))]);
    let c = SerdeConfig {
        project: SerdeProject { name: "demo".to_string(), src: None, bin: Some("out".to_string()) },
        build: Some(SerdeBuild { cc: Some("clang".to_string()), cpp: None, compiler_configuration: Some(shared) }),
        debug_build: None,
        release_build: Some(SerdeBuild { cc: None, cpp: Some("g++".to_string()), compiler_configuration: Some(rel) }),
    }
    .resolve();
    assert_eq!(c.project.name, "demo");
    assert_eq!(c.debug_build.target, "out/debug/demo");
    assert_eq!(c.release_build.target, "out/release/demo");
    assert_eq!(c.debug_build.compiler_conf.src_root, "src");
    assert_eq!(c.debug_build.compiler_conf.bin_root, "out/debug");
    assert_eq!(c.debug_build.cc.as_deref(), Some("clang"));
    assert_eq!(c.release_build.cpp.as_deref(), Some("g++"));
    assert_eq!(c.debug_build.compiler_conf.optimization, Optimization::Disabled);
    assert!(c.debug_build.compiler_conf.asan);
    assert!(!c.release_build.compiler_conf.asan);
    assert_eq!(c.release_build.compiler_conf.optimization, Optimization::Level(2));
    assert_eq!(c.debug_build.compiler_conf.warn, strings(&["extra"]));
    assert_eq!(c.release_build.compiler_conf.warn, strings(&["extra"]));
    assert_eq!(
        c.release_build.compiler_conf.defines,
        vec![("X".to_string(), None), ("Y".to_string(), Some("1".to_string()))]
    );
    let d = SerdeConfig {
        project: SerdeProject { name: "p".to_string(), src: None, bin: None },
        build: None,
        debug_build: None,
        release_build: None,
    }
    .resolve();
    assert_eq!(d.release_build.compiler_conf.defines, vec![("NDEBUG".to_string(), None)]);
    assert!(d.debug_build.compiler_conf.defines.is_empty());
    assert_eq!(d.debug_build.compiler_conf.warn, strings(&["all"]));
    assert_eq!(d.release_build.target, "bin/release/p");
    assert!(matches!(d.release_build.compiler_conf.c_std, Std::Number(17)));
    assert!(matches!(d.debug_build.compiler_conf.cpp_std, Std::Number(20)));
}

fn dep(path: &str, state: FileState, direct: Vec<DepFile>) -> ccpp::dependency::Dependency {
    ccpp::dependency::Dependency::new(
        DepFile { path: path.to_string(), typ: Some(FileType { lang: Language::C, state }) },
        direct,
        vec![],
    )
}

#[test]
fn compile_and_link_commands() {
    let g = Gcc::new("gcc".to_string(), &conf()).unwrap();
    let (cmd, deps) = g.build(dep("bin/project/a.c.o", FileState::Object, vec![DepFile::new("src/a.c".to_string())])).unwrap();
    assert_eq!(cmd.program, "gcc");
    assert_eq!(cmd.args[..4], ["-c", "-o", "bin/project/a.c.o", "src/a.c"]);
    assert_eq!(cmd.args.len(), 4 + g.tools.compile_args.len());
    assert!(deps.is_empty());
    let (cmd, deps) = g
        .build(dep(
            "bin/app",
            FileState::Executable,
            vec![
                DepFile::new("src/sub/./b.c".to_string()),
                DepFile {
                    path: "lib/x.o".to_string(),
                    typ: Some(FileType { lang: Language::C, state: FileState::Object }),
                },
            ],
        ))
        .unwrap();
    assert_eq!(cmd.args[..4], ["-o", "bin/app", "bin/project/sub/b.c.o", "lib/x.o"]);
    assert_eq!(deps.len(), 1);
    assert_eq!(deps[0].file.path, "bin/project/sub/b.c.o");
    assert_eq!(deps[0].file.typ, Some(FileType { lang: Language::C, state: FileState::Object }));
    assert_eq!(deps[0].direct[0].path, "src/sub/./b.c");
}

#[test]
fn build_errors() {
    let g = Gcc::new("gcc".to_string(), &conf()).unwrap();
    assert!(matches!(
        g.build(dep("bin/a.o", FileState::Object, vec![])),
        Err(Error::NothingToBuild(p)) if p == "bin/a.o"
    ));
    assert!(matches!(
        g.build(dep("bin/a.o", FileState::Object, vec![DepFile::new("src/a.h".to_string())])),
        Err(Error::InvalidFileType(f)) if f.path == "src/a.h"
    ));
    assert!(matches!(
        g.build(dep("src/a.h", FileState::Header, vec![DepFile::new("src/a.c".to_string())])),
        Err(Error::InvalidFileType(f)) if f.path == "src/a.h"
    ));
    assert!(matches!(
        g.build(dep("bin/app", FileState::Executable, vec![DepFile::new("other/a.c".to_string())])),
        Err(Error::StripPrefix { path, prefix }) if path == "other/a.c" && prefix == "src"
    ));
}
