use ccpp::dependency::{parse_dependencies, DepCache, DepFile, Dependency, Stamp, Timestamps};
use ccpp::err::Error;
use ccpp::file_type::{FileState, FileType, Language};
use ccpp::include_deps::get_included_files;

fn resolve(files: &[(&str, &str)], start: &str) -> (DepCache, Result<Dependency, Error>) {
    let mut cache = DepCache::new();
    let file = DepFile::new(start.to_string());
    loop {
        match cache.get_dependencies(&file) {
            Err(Error::Unread(p)) => {
                let text = files.iter().find(|f| f.0 == p).map(|f| f.1.chars().collect());
                cache.add_file(p, text);
            },
            r => return (cache, r),
        }
    }
}

fn sorted(v: &[DepFile]) -> Vec<String> {
    let mut r: Vec<String> = v.iter().map(|f| f.path.clone()).collect();
    r.sort();
    r.dedup();
    r
}

#[test]
fn transitive_headers_are_collected() {
    let files = [
        ("src/a.c", "#include \"x.h\"\nint main(){}\n"),
        ("src/x.h", "#include \"y.h\"\n#include <stdio.h>\n"),
        ("src/y.h", "int y;\n"),
    ];
    let (_, r) = resolve(&files, "src/a.c");
    let d = r.unwrap();
    assert_eq!(sorted(&d.transitive), vec!["src/x.h", "src/y.h"]);
    assert!(d.non_transitive.is_empty());
    assert!(d.direct.is_empty());
}

#[test]
fn missing_headers_are_dropped() {
    let files = [("src/a.c", "#include \"gone.h\"\n#include \"x.h\"\n"), ("src/x.h", "")];
    let (_, r) = resolve(&files, "src/a.c");
    assert_eq!(sorted(&r.unwrap().transitive), vec!["src/x.h"]);
}

#[test]
fn include_cycle_terminates() {
    let files = [
        ("src/main.c", "#include \"a.h\"\nint main(){}\n"),
        ("src/a.h", "#include \"b.h\"\n"),
        ("src/b.h", "#include \"a.h\"\n"),
    ];
    let (mut cache, r) = resolve(&files, "src/main.c");
    assert_eq!(sorted(&r.unwrap().transitive), vec!["src/a.h", "src/b.h"]);
    let a = cache.get_dependencies(&DepFile::header("src/a.h".to_string())).unwrap();
    let b = cache.get_dependencies(&DepFile::header("src/b.h".to_string())).unwrap();
    assert!(sorted(&a.transitive).contains(&"src/b.h".to_string()));
    assert!(sorted(&b.transitive).contains(&"src/a.h".to_string()));
}

#[test]
fn dot_segments_collapse_to_one_entry() {
    let files = [
        ("src/a.c", "#include \"./x.h\"\n#include \"sub/../x.h\"\n#include \"x.h\"\n"),
        ("src/x.h", ""),
    ];
    let (_, r) = resolve(&files, "src/a.c");
    assert_eq!(sorted(&r.unwrap().transitive), vec!["src/x.h"]);
}

#[test]
fn get_dependencies_twice_is_identical() {
    let files = [("src/a.c", "#include \"x.h\"\n"), ("src/x.h", "#include \"y.h\"\n"), ("src/y.h", "")];
    let (mut cache, r) = resolve(&files, "src/a.c");
    let first = r.unwrap();
    let second = cache.get_dependencies(&DepFile::new("src/a.c".to_string())).unwrap();
    assert_eq!(sorted(&first.transitive), sorted(&second.transitive));
    assert_eq!(first.transitive.len(), second.transitive.len());
    assert_eq!(first.file.path, second.file.path);
    assert_eq!(first.file.typ, second.file.typ);
}

#[test]
fn missing_start_file_is_not_found() {
    let (_, r) = resolve(&[], "src/none.c");
    assert!(matches!(r, Err(Error::NotFound(p)) if p == "src/none.c"));
}

#[test]
fn partition_import_takes_module_name() {
    let text: Vec<char> = "export module foo;\nimport :part;\nexport import :api;\nimport bar;\n".chars().collect();
    let m = parse_dependencies(&"src/foo.cpp".to_string(), &get_included_files(&text));
    assert_eq!(m.provides.as_deref(), Some("foo"));
    assert_eq!(m.imports, vec!["foo:part".to_string(), "bar".to_string()]);
    assert_eq!(m.exports, vec!["foo:api".to_string()]);
}

#[test]
fn module_interface_becomes_source_module() {
    let files = [("src/m.cpp", "export module m;\nimport \"u.h\";\n"), ("src/u.h", "#include \"v.h\"\n"), ("src/v.h", "")];
    let (_, r) = resolve(&files, "src/m.cpp");
    let d = r.unwrap();
    assert_eq!(d.file.typ, Some(FileType { lang: Language::Cpp, state: FileState::SourceModule }));
    assert_eq!(sorted(&d.non_transitive), vec!["src/u.h", "src/v.h"]);
    assert!(d.transitive.is_empty());
    assert_eq!(sorted(&d.modules.user), vec!["src/u.h"]);
}

#[test]
fn exported_module_unit_is_transitive() {
    let files = [("src/m.cpp", "export import \"u.h\";\n"), ("src/u.h", "")];
    let (_, r) = resolve(&files, "src/m.cpp");
    assert_eq!(sorted(&r.unwrap().transitive), vec!["src/u.h"]);
}

#[test]
fn fill_dependency_collects_inputs_and_refuses_twice() {
    let files = [("src/a.c", "#include \"x.h\"\n"), ("src/x.h", "")];
    let mut cache = DepCache::new();
    let mut dep = Dependency::new(
        DepFile { path: "bin/a.o".to_string(), typ: Some(FileType { lang: Language::C, state: FileState::Object }) },
        vec![DepFile::new("src/a.c".to_string())],
        vec![],
    );
    let r = loop {
        match cache.fill_dependency(&mut dep) {
            Err(Error::Unread(p)) => {
                let text = files.iter().find(|f| f.0 == p).map(|f| f.1.chars().collect());
                cache.add_file(p, text);
            },
            r => break r,
        }
    };
    assert!(r.is_ok());
    assert_eq!(sorted(&dep.transitive), vec!["src/x.h"]);
    let mut again = Dependency::empty(DepFile::new("src/a.c".to_string()));
    assert!(matches!(cache.fill_dependency(&mut again), Err(Error::DuplicateDependency)));
}

#[test]
fn header_type_follows_extension() {
    let h = DepFile::header("inc/a.h".to_string());
    assert_eq!(h.typ, Some(FileType { lang: Language::C, state: FileState::Header }));
    let h = DepFile::header("inc/a".to_string());
    assert_eq!(h.typ, Some(FileType { lang: Language::Cpp, state: FileState::Header }));
    let s = DepFile::new("src/a.cpp".to_string());
    assert_eq!(s.typ, Some(FileType { lang: Language::Cpp, state: FileState::Source }));
    assert_eq!(DepFile::new("src/.hidden".to_string()).typ, None);
    assert_eq!(
        DepFile::new("inc/a.h/".to_string()).typ,
        Some(FileType { lang: Language::C, state: FileState::Header })
    );
    assert_eq!(DepFile::new("src/..".to_string()).typ, None);
}

#[test]
fn up_to_date_compares_times() {
    let d = Dependency::new(
        DepFile::new("bin/a.o".to_string()),
        vec![DepFile::new("src/a.c".to_string())],
        vec![DepFile::header("src/x.h".to_string())],
    );
    let mut ts = Timestamps::new();
    assert!(matches!(d.is_up_to_date(&ts), Err(Error::NoTimestamp(p)) if p == "bin/a.o"));
    ts.add("bin/a.o".to_string(), Stamp::At(20));
    ts.add("src/a.c".to_string(), Stamp::At(10));
    assert!(matches!(d.is_up_to_date(&ts), Err(Error::NoTimestamp(p)) if p == "src/x.h"));
    ts.add("src/x.h".to_string(), Stamp::At(30));
    assert!(matches!(d.is_up_to_date(&ts), Ok(false)));
    let mut ts2 = Timestamps::new();
    ts2.add("bin/a.o".to_string(), Stamp::At(30));
    ts2.add("src/a.c".to_string(), Stamp::At(30));
    ts2.add("src/x.h".to_string(), Stamp::At(10));
    assert!(matches!(d.is_up_to_date(&ts2), Ok(true)));
    let mut ts3 = Timestamps::new();
    ts3.add("bin/a.o".to_string(), Stamp::Missing);
    assert!(matches!(d.is_up_to_date(&ts3), Ok(false)));
    let mut ts5 = Timestamps::new();
    ts5.add("bin/a.o".to_string(), Stamp::At(20));
    ts5.add("src/a.c".to_string(), Stamp::Missing);
    assert!(matches!(d.is_up_to_date(&ts5), Err(Error::NoInput(p)) if p == "src/a.c"));
    let mut ts4 = Timestamps::new();
    ts4.add("bin/a.o".to_string(), Stamp::Unsupported);
    assert!(matches!(d.is_up_to_date(&ts4), Ok(false)));
}

#[test]
fn headers_reached_are_resolved_too() {
    let files = [
        ("src/a.c", "#include \"x.h\"\n"),
        ("src/x.h", "#include \"y.h\"\n"),
        ("src/y.h", ""),
    ];
    let (mut cache, r) = resolve(&files, "src/a.c");
    assert!(r.is_ok());
    // x.h was resolved with a.c: asking for it again needs no new text
    let x = cache.get_dependencies(&DepFile::header("src/x.h".to_string())).unwrap();
    assert_eq!(sorted(&x.transitive), vec!["src/y.h"]);
}
