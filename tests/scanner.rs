use ccpp::include_deps::{get_included_files, IncFile};

fn scan(text: &str) -> Vec<IncFile> {
    get_included_files(&text.chars().collect())
}

fn names(v: &[IncFile]) -> Vec<String> {
    v.iter()
        .map(|d| match d {
            IncFile::User(p) => format!("user {p}"),
            IncFile::System(p) => format!("system {p}"),
            IncFile::ExpModule(p) => format!("exp-module {p}"),
            IncFile::ImpModule(p) => format!("imp-module {p}"),
            IncFile::ExpImpModule(p) => format!("exp-imp-module {p}"),
            IncFile::UserModule(p) => format!("user-module {p}"),
            IncFile::SystemModule(p) => format!("system-module {p}"),
            IncFile::ExpUserModule(p) => format!("exp-user-module {p}"),
            IncFile::ExpSystemModule(p) => format!("exp-system-module {p}"),
        })
        .collect()
}

#[test]
fn include_forms() {
    let r = scan("#include <stdio.h>\n#include \"x.h\"\nint main() {}\n");
    assert_eq!(names(&r), vec!["system stdio.h", "user x.h"]);
}

#[test]
fn directive_sequence_round_trip() {
    let text = "export module app;\nimport :part;\nexport import core.io;\nimport <vector>;\nimport \"local.h\";\nexport import \"api.h\";\n#include \"a.h\"\n#include <b.h>\n";
    let r = scan(text);
    assert_eq!(
        names(&r),
        vec![
            "exp-module app",
            "imp-module :part",
            "exp-imp-module core.io",
            "system-module vector",
            "user-module local.h",
            "exp-user-module api.h",
            "user a.h",
            "system b.h",
        ]
    );
}

#[test]
fn literals_hide_includes() {
    let plain = scan("char *s = \"x\";\nchar c = 'y';\n#include \"real.h\"\n");
    let hidden = scan("char *s = \"\\n#include \\\"fake.h\\\"\\n\";\nchar c = '#';\n#include \"real.h\"\n");
    assert_eq!(names(&plain), names(&hidden));
    assert_eq!(names(&hidden), vec!["user real.h"]);
}

#[test]
fn comments_hide_includes() {
    let r = scan("// #include \"no.h\"\n/* #include \"no2.h\" */\n#include \"yes.h\"\n");
    assert_eq!(names(&r), vec!["user yes.h"]);
}

#[test]
fn line_continuation_inside_directive() {
    let r = scan("#inc\\\nlude \"a.h\"\n");
    assert_eq!(names(&r), vec!["user a.h"]);
}

#[test]
fn imports_after_code_are_ignored() {
    let r = scan("int main(){}\nimport x;\n");
    assert!(names(&r).is_empty());
}

#[test]
fn indented_hash_is_not_a_directive() {
    let r = scan("int x;\n  #include \"a.h\"\n");
    assert!(names(&r).is_empty());
    let r = scan("x = 1; #include \"b.h\"\n");
    assert!(names(&r).is_empty());
}

#[test]
fn backslash_at_end_of_text_ends_scan() {
    let r = scan("#include \"a.h\"\n#include \\");
    assert_eq!(names(&r), vec!["user a.h"]);
}

#[test]
fn other_directives_are_skipped() {
    let r = scan("#define X 1\n#pragma once\n#include X\n#include \"ok.h\"\n");
    assert_eq!(names(&r), vec!["user ok.h"]);
}

#[test]
fn global_module_fragment_stays_in_module_section() {
    let r = scan("module;\n#include <cstdio>\nexport module m;\nimport n;\n");
    assert_eq!(names(&r), vec!["system cstdio", "exp-module m", "imp-module n"]);
}

#[test]
fn module_implementation_unit_imports_its_module() {
    let r = scan("module foo.bar;\n");
    assert_eq!(names(&r), vec!["imp-module foo.bar"]);
}

#[test]
fn empty_text_has_no_directives() {
    assert!(scan("").is_empty());
    assert!(scan("#").is_empty());
}

#[test]
fn indented_code_ends_module_section() {
    assert!(names(&scan(" int main(){}\nimport X;\n")).is_empty());
    assert!(names(&scan("/* c */ int x;\nimport X;\n")).is_empty());
    let r = scan("int x;\nimport X;\n#include \"still.h\"\n");
    assert_eq!(names(&r), vec!["user still.h"]);
}

#[test]
fn indented_module_declarations_are_read() {
    let r = scan("  export module m;\n\timport n;\n");
    assert_eq!(names(&r), vec!["exp-module m", "imp-module n"]);
}

#[test]
fn unicode_blanks_are_blanks() {
    assert!(names(&scan("\u{3000}int main(){}\nimport X;\n")).is_empty());
    let r = scan("\u{a0}import n;\n");
    assert_eq!(names(&r), vec!["imp-module n"]);
}
