//! The include and module scanner: finds the `#include` directives and the
//! C++20 module declarations of one source text, skipping comments and
//! character and string literals.
use vstd::prelude::*;
use crate::chars::{alphabetic, alphanumeric, ascii_digit, ascii_letter, is_alphabetic, is_alphanumeric, is_whitespace, white_space};
use crate::text::{chars_eq, string_of};

verus! {

/// One directive found by the scanner, as text.
pub enum Directive {
    User(Seq<char>),
    System(Seq<char>),
    ExpModule(Seq<char>),
    ImpModule(Seq<char>),
    ExpImpModule(Seq<char>),
    UserModule(Seq<char>),
    SystemModule(Seq<char>),
    ExpUserModule(Seq<char>),
    ExpSystemModule(Seq<char>),
}

/// One directive found by the scanner.
#[derive(Debug)]
pub enum IncFile {
    /// `#include "path"`
    User(String),
    /// `#include <path>`
    System(String),
    /// `export module name;`
    ExpModule(String),
    /// `import name;` or `module name;`
    ImpModule(String),
    /// `export import name;`
    ExpImpModule(String),
    /// `import "path";`
    UserModule(String),
    /// `import <path>;`
    SystemModule(String),
    /// `export import "path";`
    ExpUserModule(String),
    /// `export import <path>;`
    ExpSystemModule(String),
}

impl View for IncFile {
    type V = Directive;

    open spec fn view(&self) -> Directive {
        match self {
            IncFile::User(s) => Directive::User(s@),
            IncFile::System(s) => Directive::System(s@),
            IncFile::ExpModule(s) => Directive::ExpModule(s@),
            IncFile::ImpModule(s) => Directive::ImpModule(s@),
            IncFile::ExpImpModule(s) => Directive::ExpImpModule(s@),
            IncFile::UserModule(s) => Directive::UserModule(s@),
            IncFile::SystemModule(s) => Directive::SystemModule(s@),
            IncFile::ExpUserModule(s) => Directive::ExpUserModule(s@),
            IncFile::ExpSystemModule(s) => Directive::ExpSystemModule(s@),
        }
    }
}

/// The directives of a list, as text.
pub open spec fn directives(v: Seq<IncFile>) -> Seq<Directive> {
    v.map_values(|d: IncFile| d@)
}

/// A set of characters that a run is read from.
#[derive(Clone, Copy)]
pub enum CharClass {
    Space,
    AlNum,
    Alpha,
    /// Letters, digits and `.`: the characters of a module name.
    ModuleName,
    NotNewline,
    Not(char),
}

pub open spec fn in_class(k: CharClass, c: char) -> bool {
    match k {
        CharClass::Space => white_space(c),
        CharClass::AlNum => alphanumeric(c),
        CharClass::Alpha => alphabetic(c),
        CharClass::ModuleName => alphanumeric(c) || c == '.',
        CharClass::NotNewline => c != '\n',
        CharClass::Not(d) => c != d,
    }
}

fn class_has(k: CharClass, c: char) -> (r: bool)
    ensures
        r == in_class(k, c),
{
    match k {
        CharClass::Space => is_whitespace(c),
        CharClass::AlNum => is_alphanumeric(c),
        CharClass::Alpha => is_alphabetic(c),
        CharClass::ModuleName => is_alphanumeric(c) || c == '.',
        CharClass::NotNewline => c != '\n',
        CharClass::Not(d) => c != d,
    }
}

/// A backslash directly followed by a line feed: a line splice.
pub open spec fn spliced(t: Seq<char>, i: int) -> bool {
    0 <= i && i + 1 < t.len() && t[i] == '\\' && t[i + 1] == '\n'
}

/// Reads the characters of class `k` from `i` on, in preprocessor context:
/// line splices are invisible, and a backslash that ends the text ends the
/// read at the end. Gives the run and the position after it.
pub open spec fn esc_read(t: Seq<char>, i: int, k: CharClass) -> (Seq<char>, int)
    decreases t.len() - i,
{
    if i < 0 || i >= t.len() {
        (seq![], i)
    } else if t[i] == '\\' && i + 1 == t.len() {
        (seq![], t.len() as int)
    } else if spliced(t, i) {
        esc_read(t, i + 2, k)
    } else if !in_class(k, t[i]) {
        (seq![], i)
    } else {
        let r = esc_read(t, i + 1, k);
        (seq![t[i]] + r.0, r.1)
    }
}

/// Reads the characters of class `k` from `i` on, splices not applied.
pub open spec fn read_run(t: Seq<char>, i: int, k: CharClass) -> (Seq<char>, int)
    decreases t.len() - i,
{
    if i < 0 || i >= t.len() || !in_class(k, t[i]) {
        (seq![], i)
    } else {
        let r = read_run(t, i + 1, k);
        (seq![t[i]] + r.0, r.1)
    }
}

/// The position after the literal whose body starts at `i` and that ends at
/// the first `q` that no backslash escapes.
pub open spec fn literal_end(t: Seq<char>, i: int, q: char) -> int
    decreases t.len() - i,
{
    if i < 0 || i >= t.len() {
        t.len() as int
    } else if t[i] == q {
        i + 1
    } else if t[i] == '\\' {
        if i + 1 >= t.len() {
            t.len() as int
        } else {
            literal_end(t, i + 2, q)
        }
    } else {
        literal_end(t, i + 1, q)
    }
}

/// The position after the first `*/` at or after `i`.
pub open spec fn block_end(t: Seq<char>, i: int) -> int
    decreases t.len() - i,
{
    if i < 0 || i + 1 >= t.len() {
        t.len() as int
    } else if t[i] == '*' && t[i + 1] == '/' {
        i + 2
    } else {
        block_end(t, i + 1)
    }
}

pub open spec fn word_include() -> Seq<char> {
    seq!['i', 'n', 'c', 'l', 'u', 'd', 'e']
}

pub open spec fn word_module() -> Seq<char> {
    seq!['m', 'o', 'd', 'u', 'l', 'e']
}

pub open spec fn word_export() -> Seq<char> {
    seq!['e', 'x', 'p', 'o', 'r', 't']
}

pub open spec fn word_import() -> Seq<char> {
    seq!['i', 'm', 'p', 'o', 'r', 't']
}

/// The preprocessor line that starts with the `#` at `i`: the include it
/// names, if it is one, and the position where scanning goes on.
pub open spec fn read_macro(t: Seq<char>, i: int) -> (Option<Directive>, int) {
    let j = esc_read(t, i + 1, CharClass::Space).1;
    let (mac, j2) = esc_read(t, j, CharClass::AlNum);
    if mac != word_include() {
        (None, esc_read(t, j2, CharClass::NotNewline).1)
    } else {
        let j3 = esc_read(t, j2, CharClass::Space).1;
        if j3 >= t.len() {
            (None, t.len() as int)
        } else if t[j3] == '<' || t[j3] == '"' {
            let close = if t[j3] == '<' { '>' } else { '"' };
            let (name, k) = esc_read(t, j3 + 1, CharClass::Not(close));
            if k >= t.len() {
                (None, t.len() as int)
            } else if t[j3] == '<' {
                (Some(Directive::System(name)), k + 1)
            } else {
                (Some(Directive::User(name)), k + 1)
            }
        } else {
            (None, esc_read(t, j3, CharClass::NotNewline).1)
        }
    }
}

/// Optional whitespace and an optional `;` that ends a declaration.
pub open spec fn end_statement(t: Seq<char>, i: int) -> int {
    let k = read_run(t, i, CharClass::Space).1;
    if k < t.len() && t[k] == ';' {
        k + 1
    } else {
        k
    }
}

/// A module name (dotted, with an optional `:partition`) after the keyword
/// that ends at `i`, and the position after the declaration.
pub open spec fn read_module_name(t: Seq<char>, i: int) -> (Seq<char>, int) {
    let j = read_run(t, i, CharClass::Space).1;
    let (m, j2) = read_run(t, j, CharClass::ModuleName);
    let j3 = read_run(t, j2, CharClass::Space).1;
    if j3 < t.len() && t[j3] == ':' {
        let j4 = read_run(t, j3 + 1, CharClass::Space).1;
        let (p, j5) = read_run(t, j4, CharClass::ModuleName);
        (m + seq![':'] + p, end_statement(t, j5))
    } else {
        (m, end_statement(t, j2))
    }
}

/// What follows `import` ending at `i`.
pub open spec fn read_import(t: Seq<char>, i: int) -> (Option<Directive>, int) {
    let j = read_run(t, i, CharClass::Space).1;
    if j < t.len() && (t[j] == '<' || t[j] == '"') {
        let close = if t[j] == '<' { '>' } else { '"' };
        let (name, k) = read_run(t, j + 1, CharClass::Not(close));
        if k >= t.len() {
            (None, t.len() as int)
        } else if t[j] == '<' {
            (Some(Directive::SystemModule(name)), end_statement(t, k + 1))
        } else {
            (Some(Directive::UserModule(name)), end_statement(t, k + 1))
        }
    } else {
        let (m, k) = read_module_name(t, j);
        (Some(Directive::ImpModule(m)), k)
    }
}

/// An import lifted to its exported form.
pub open spec fn exported(d: Option<Directive>) -> Option<Directive> {
    match d {
        Some(Directive::ImpModule(m)) => Some(Directive::ExpImpModule(m)),
        Some(Directive::UserModule(m)) => Some(Directive::ExpUserModule(m)),
        Some(Directive::SystemModule(m)) => Some(Directive::ExpSystemModule(m)),
        d => d,
    }
}

/// A module declaration at `i`: the directive, whether the line was one of
/// the module section, and the position where scanning goes on.
pub open spec fn read_module(t: Seq<char>, i: int) -> (Option<Directive>, bool, int) {
    let (kw, j) = read_run(t, i, CharClass::Alpha);
    if kw == word_module() {
        let k = read_run(t, j, CharClass::Space).1;
        if k < t.len() && t[k] == ';' {
            (None, true, k + 1)
        } else {
            let (m, e) = read_module_name(t, j);
            (Some(Directive::ImpModule(m)), true, e)
        }
    } else if kw == word_export() {
        let k = read_run(t, j, CharClass::Space).1;
        let (kw2, k2) = read_run(t, k, CharClass::Alpha);
        if kw2 == word_module() {
            let (m, e) = read_module_name(t, k2);
            (Some(Directive::ExpModule(m)), true, e)
        } else if kw2 == word_import() {
            let (d, e) = read_import(t, k2);
            (exported(d), true, e)
        } else {
            (None, false, k2)
        }
    } else if kw == word_import() {
        let (d, e) = read_import(t, j);
        (d, true, e)
    } else {
        (None, false, j)
    }
}

/// The position where scanning goes on after a reader that started at `i`
/// stopped at `j`: each reader moves forward.
pub open spec fn onward(t: Seq<char>, i: int, j: int) -> int {
    if j <= i {
        i + 1
    } else if j > t.len() {
        t.len() as int
    } else {
        j
    }
}

pub open spec fn opt_seq(d: Option<Directive>) -> Seq<Directive> {
    match d {
        Some(d) => seq![d],
        None => seq![],
    }
}

/// The directives from position `i` on, in the module section or not
/// (`ms`), at the first non-blank of a line or not (`pn`: only blanks and
/// comments since the last line feed), and in column 0 or not (`c0`).
/// Module declarations are recognized at the first non-blank of a line;
/// a `#` starts a directive only in column 0.
pub open spec fn scan_from(t: Seq<char>, i: int, ms: bool, pn: bool, c0: bool) -> Seq<Directive>
    decreases t.len() - i, (if ms { 1int } else { 0int }),
{
    if i < 0 || i >= t.len() {
        seq![]
    } else {
        let c = t[i];
        if c == '\n' {
            scan_from(t, i + 1, ms, true, true)
        } else if c == '#' && c0 {
            let (d, j) = read_macro(t, i);
            opt_seq(d) + scan_from(t, onward(t, i, j), ms, true, true)
        } else if c == '\'' || c == '"' {
            scan_from(t, onward(t, i, literal_end(t, i + 1, c)), ms, false, false)
        } else if c == '/' && i + 1 < t.len() && t[i + 1] == '*' {
            scan_from(t, onward(t, i, block_end(t, i + 2)), ms, pn, false)
        } else if c == '/' && i + 1 < t.len() && t[i + 1] == '/' {
            scan_from(t, onward(t, i, esc_read(t, i + 2, CharClass::NotNewline).1), ms, pn, c0)
        } else if white_space(c) {
            scan_from(t, i + 1, ms, pn, false)
        } else if ms && pn {
            let (d, keep, j) = read_module(t, i);
            if keep {
                opt_seq(d) + scan_from(t, onward(t, i, j), true, false, false)
            } else if j > i {
                scan_from(t, onward(t, i, j), false, false, false)
            } else {
                scan_from(t, i, false, false, false)
            }
        } else {
            scan_from(t, i + 1, ms, false, false)
        }
    }
}

/// The directives of a whole text.
pub open spec fn scan(t: Seq<char>) -> Seq<Directive> {
    scan_from(t, 0, true, true, true)
}


fn esc_read_exec(t: &Vec<char>, i: usize, k: CharClass) -> (r: (Vec<char>, usize))
    requires
        i <= t.len(),
    ensures
        r.0@ == esc_read(t@, i as int, k).0,
        r.1 == esc_read(t@, i as int, k).1,
        i <= r.1 <= t.len(),
{
    let mut res: Vec<char> = Vec::new();
    let mut j: usize = i;
    while j < t.len()
        invariant
            i <= j <= t.len(),
            esc_read(t@, i as int, k).0 == res@ + esc_read(t@, j as int, k).0,
            esc_read(t@, i as int, k).1 == esc_read(t@, j as int, k).1,
        decreases t.len() - j,
    {
        if t[j] == '\\' && j + 1 == t.len() {
            assert(res@ + seq![] =~= res@);
            return (res, t.len());
        } else if t[j] == '\\' && t[j + 1] == '\n' {
            j = j + 2;
        } else if !class_has(k, t[j]) {
            assert(res@ + seq![] =~= res@);
            return (res, j);
        } else {
            let ghost before = res@;
            res.push(t[j]);
            assert(before + (seq![t@[j as int]] + esc_read(t@, j + 1, k).0) =~= res@ + esc_read(
                t@,
                j + 1,
                k,
            ).0);
            j = j + 1;
        }
    }
    assert(res@ + seq![] =~= res@);
    (res, j)
}

fn esc_skip(t: &Vec<char>, i: usize, k: CharClass) -> (r: usize)
    requires
        i <= t.len(),
    ensures
        r == esc_read(t@, i as int, k).1,
        i <= r <= t.len(),
{
    let mut j: usize = i;
    while j < t.len()
        invariant
            i <= j <= t.len(),
            esc_read(t@, i as int, k).1 == esc_read(t@, j as int, k).1,
        decreases t.len() - j,
    {
        if t[j] == '\\' && j + 1 == t.len() {
            return t.len();
        } else if t[j] == '\\' && t[j + 1] == '\n' {
            j = j + 2;
        } else if !class_has(k, t[j]) {
            return j;
        } else {
            j = j + 1;
        }
    }
    j
}

fn read_run_exec(t: &Vec<char>, i: usize, k: CharClass) -> (r: (Vec<char>, usize))
    requires
        i <= t.len(),
    ensures
        r.0@ == read_run(t@, i as int, k).0,
        r.1 == read_run(t@, i as int, k).1,
        i <= r.1 <= t.len(),
{
    let mut res: Vec<char> = Vec::new();
    let mut j: usize = i;
    while j < t.len()
        invariant
            i <= j <= t.len(),
            read_run(t@, i as int, k).0 == res@ + read_run(t@, j as int, k).0,
            read_run(t@, i as int, k).1 == read_run(t@, j as int, k).1,
        decreases t.len() - j,
    {
        if !class_has(k, t[j]) {
            assert(res@ + seq![] =~= res@);
            return (res, j);
        }
        let ghost before = res@;
        res.push(t[j]);
        assert(before + (seq![t@[j as int]] + read_run(t@, j + 1, k).0) =~= res@ + read_run(
            t@,
            j + 1,
            k,
        ).0);
        j = j + 1;
    }
    assert(res@ + seq![] =~= res@);
    (res, j)
}

fn skip_run(t: &Vec<char>, i: usize, k: CharClass) -> (r: usize)
    requires
        i <= t.len(),
    ensures
        r == read_run(t@, i as int, k).1,
        i <= r <= t.len(),
{
    let mut j: usize = i;
    while j < t.len() && class_has(k, t[j])
        invariant
            i <= j <= t.len(),
            read_run(t@, i as int, k).1 == read_run(t@, j as int, k).1,
        decreases t.len() - j,
    {
        j = j + 1;
    }
    j
}

fn literal_end_exec(t: &Vec<char>, i: usize, q: char) -> (r: usize)
    requires
        i <= t.len(),
    ensures
        r == literal_end(t@, i as int, q),
        i <= r <= t.len(),
{
    let mut j: usize = i;
    while j < t.len()
        invariant
            i <= j <= t.len(),
            literal_end(t@, i as int, q) == literal_end(t@, j as int, q),
        decreases t.len() - j,
    {
        if t[j] == q {
            return j + 1;
        } else if t[j] == '\\' {
            if j + 1 >= t.len() {
                return t.len();
            }
            j = j + 2;
        } else {
            j = j + 1;
        }
    }
    t.len()
}

fn block_end_exec(t: &Vec<char>, i: usize) -> (r: usize)
    requires
        i <= t.len(),
    ensures
        r == block_end(t@, i as int),
        i <= r <= t.len(),
{
    let mut j: usize = i;
    while t.len() > j && t.len() - j > 1
        invariant
            i <= j <= t.len(),
            block_end(t@, i as int) == block_end(t@, j as int),
        decreases t.len() - j,
    {
        if t[j] == '*' && t[j + 1] == '/' {
            return j + 2;
        }
        j = j + 1;
    }
    t.len()
}

pub open spec fn opt_directive(d: Option<IncFile>) -> Option<Directive> {
    match d {
        Some(f) => Some(f@),
        None => None,
    }
}

fn read_macro_exec(t: &Vec<char>, i: usize) -> (r: (Option<IncFile>, usize))
    requires
        i < t.len(),
    ensures
        opt_directive(r.0) == read_macro(t@, i as int).0,
        r.1 == read_macro(t@, i as int).1,
        i < r.1 <= t.len(),
{
    let j = esc_skip(t, i + 1, CharClass::Space);
    let (mac, j2) = esc_read_exec(t, j, CharClass::AlNum);
    if !chars_eq(&mac, &vec!['i', 'n', 'c', 'l', 'u', 'd', 'e']) {
        return (None, esc_skip(t, j2, CharClass::NotNewline));
    }
    let j3 = esc_skip(t, j2, CharClass::Space);
    if j3 >= t.len() {
        return (None, t.len());
    }
    if t[j3] == '<' || t[j3] == '"' {
        let close = if t[j3] == '<' {
            '>'
        } else {
            '"'
        };
        let (name, k) = esc_read_exec(t, j3 + 1, CharClass::Not(close));
        if k >= t.len() {
            (None, t.len())
        } else if t[j3] == '<' {
            (Some(IncFile::System(string_of(&name))), k + 1)
        } else {
            (Some(IncFile::User(string_of(&name))), k + 1)
        }
    } else {
        (None, esc_skip(t, j3, CharClass::NotNewline))
    }
}

fn end_statement_exec(t: &Vec<char>, i: usize) -> (r: usize)
    requires
        i <= t.len(),
    ensures
        r == end_statement(t@, i as int),
        i <= r <= t.len(),
{
    let k = skip_run(t, i, CharClass::Space);
    if k < t.len() && t[k] == ';' {
        k + 1
    } else {
        k
    }
}

fn read_module_name_exec(t: &Vec<char>, i: usize) -> (r: (Vec<char>, usize))
    requires
        i <= t.len(),
    ensures
        r.0@ == read_module_name(t@, i as int).0,
        r.1 == read_module_name(t@, i as int).1,
        i <= r.1 <= t.len(),
{
    let j = skip_run(t, i, CharClass::Space);
    let (mut m, j2) = read_run_exec(t, j, CharClass::ModuleName);
    let j3 = skip_run(t, j2, CharClass::Space);
    if j3 < t.len() && t[j3] == ':' {
        let j4 = skip_run(t, j3 + 1, CharClass::Space);
        let (p, j5) = read_run_exec(t, j4, CharClass::ModuleName);
        m.push(':');
        let mut q: usize = 0;
        let ghost m0 = m@;
        while q < p.len()
            invariant
                q <= p.len(),
                m@ == m0 + p@.subrange(0, q as int),
            decreases p.len() - q,
        {
            m.push(p[q]);
            q += 1;
            assert(m@ =~= m0 + p@.subrange(0, q as int));
        }
        assert(p@.subrange(0, p@.len() as int) =~= p@);
        (m, end_statement_exec(t, j5))
    } else {
        (m, end_statement_exec(t, j2))
    }
}

fn read_import_exec(t: &Vec<char>, i: usize) -> (r: (Option<IncFile>, usize))
    requires
        i <= t.len(),
    ensures
        opt_directive(r.0) == read_import(t@, i as int).0,
        r.1 == read_import(t@, i as int).1,
        i <= r.1 <= t.len(),
{
    let j = skip_run(t, i, CharClass::Space);
    if j < t.len() && (t[j] == '<' || t[j] == '"') {
        let close = if t[j] == '<' {
            '>'
        } else {
            '"'
        };
        let (name, k) = read_run_exec(t, j + 1, CharClass::Not(close));
        if k >= t.len() {
            (None, t.len())
        } else if t[j] == '<' {
            (Some(IncFile::SystemModule(string_of(&name))), end_statement_exec(t, k + 1))
        } else {
            (Some(IncFile::UserModule(string_of(&name))), end_statement_exec(t, k + 1))
        }
    } else {
        let (m, k) = read_module_name_exec(t, j);
        (Some(IncFile::ImpModule(string_of(&m))), k)
    }
}

fn export_exec(d: Option<IncFile>) -> (r: Option<IncFile>)
    ensures
        opt_directive(r) == exported(opt_directive(d)),
{
    match d {
        Some(IncFile::ImpModule(m)) => Some(IncFile::ExpImpModule(m)),
        Some(IncFile::UserModule(m)) => Some(IncFile::ExpUserModule(m)),
        Some(IncFile::SystemModule(m)) => Some(IncFile::ExpSystemModule(m)),
        d => d,
    }
}

fn read_module_exec(t: &Vec<char>, i: usize) -> (r: (Option<IncFile>, bool, usize))
    requires
        i <= t.len(),
    ensures
        opt_directive(r.0) == read_module(t@, i as int).0,
        r.1 == read_module(t@, i as int).1,
        r.2 == read_module(t@, i as int).2,
        i <= r.2 <= t.len(),
{
    let (kw, j) = read_run_exec(t, i, CharClass::Alpha);
    if chars_eq(&kw, &vec!['m', 'o', 'd', 'u', 'l', 'e']) {
        let k = skip_run(t, j, CharClass::Space);
        if k < t.len() && t[k] == ';' {
            (None, true, k + 1)
        } else {
            let (m, e) = read_module_name_exec(t, j);
            (Some(IncFile::ImpModule(string_of(&m))), true, e)
        }
    } else if chars_eq(&kw, &vec!['e', 'x', 'p', 'o', 'r', 't']) {
        let k = skip_run(t, j, CharClass::Space);
        let (kw2, k2) = read_run_exec(t, k, CharClass::Alpha);
        if chars_eq(&kw2, &vec!['m', 'o', 'd', 'u', 'l', 'e']) {
            let (m, e) = read_module_name_exec(t, k2);
            (Some(IncFile::ExpModule(string_of(&m))), true, e)
        } else if chars_eq(&kw2, &vec!['i', 'm', 'p', 'o', 'r', 't']) {
            let (d, e) = read_import_exec(t, k2);
            (export_exec(d), true, e)
        } else {
            (None, false, k2)
        }
    } else if chars_eq(&kw, &vec!['i', 'm', 'p', 'o', 'r', 't']) {
        let (d, e) = read_import_exec(t, j);
        (d, true, e)
    } else {
        (None, false, j)
    }
}

/// Finds the include directives and module declarations of a source text, in
/// the order in which they stand.
pub fn get_included_files(text: &Vec<char>) -> (r: Vec<IncFile>)
    ensures
        directives(r@) == scan(text@),
{
    let t = text;
    let mut res: Vec<IncFile> = Vec::new();
    let mut i: usize = 0;
    let mut ms = true;
    let mut pn = true;
    let mut c0 = true;
    while i < t.len()
        invariant
            i <= t.len(),
            directives(res@) + scan_from(t@, i as int, ms, pn, c0) == scan(t@),
        decreases t.len() - i, (if ms { 1int } else { 0int }),
    {
        let c = t[i];
        let ghost old_res = res@;
        let ghost old_i = i;
        if c == '\n' {
            pn = true;
            c0 = true;
            i = i + 1;
        } else if c == '#' && c0 {
            let (d, j) = read_macro_exec(t, i);
            pn = true;
            match d {
                Some(f) => {
                    res.push(f);
                },
                None => {},
            }
            assert(directives(res@) =~= directives(old_res) + opt_seq(read_macro(t@, i as int).0));
            i = j;
        } else if c == '\'' || c == '"' {
            pn = false;
            c0 = false;
            i = literal_end_exec(t, i + 1, c);
        } else if c == '/' && i + 1 < t.len() && t[i + 1] == '*' {
            c0 = false;
            i = block_end_exec(t, i + 2);
            assert(onward(t@, old_i as int, i as int) == i);
        } else if c == '/' && i + 1 < t.len() && t[i + 1] == '/' {
            i = esc_skip(t, i + 2, CharClass::NotNewline);
        } else if is_whitespace(c) {
            c0 = false;
            i = i + 1;
        } else if ms && pn {
            let (d, keep, j) = read_module_exec(t, i);
            pn = false;
            c0 = false;
            if keep {
                match d {
                    Some(f) => {
                        res.push(f);
                    },
                    None => {},
                }
                assert(directives(res@) =~= directives(old_res) + opt_seq(
                    read_module(t@, i as int).0,
                ));
                if j > i {
                    i = j;
                } else {
                    i = i + 1;
                }
            } else {
                ms = false;
                i = j;
            }
        } else {
            pn = false;
            c0 = false;
            i = i + 1;
        }
    }
    assert(directives(res@) + seq![] =~= directives(res@));
    res
}


/// An `#include` directive, quoted or angled.
pub open spec fn is_include(d: Directive) -> bool {
    d is User || d is System
}

proof fn lemma_macro_is_include(t: Seq<char>, i: int)
    ensures
        read_macro(t, i).0 matches Some(d) ==> is_include(d),
{
}

/// Once the module section is over, only `#include` directives are
/// reported: no module declaration or import.
pub proof fn lemma_section_over(t: Seq<char>, i: int, pn: bool, c0: bool)
    ensures
        forall|k: int|
            0 <= k < scan_from(t, i, false, pn, c0).len() ==> is_include(
                #[trigger] scan_from(t, i, false, pn, c0)[k],
            ),
    decreases t.len() - i,
{
    let s = scan_from(t, i, false, pn, c0);
    if 0 <= i < t.len() {
        let c = t[i];
        if c == '\n' {
            assert(s == scan_from(t, i + 1, false, true, true));
            lemma_section_over(t, i + 1, true, true);
        } else if c == '#' && c0 {
            let (d, j) = read_macro(t, i);
            lemma_macro_is_include(t, i);
            lemma_section_over(t, onward(t, i, j), true, true);
            let rest = scan_from(t, onward(t, i, j), false, true, true);
            assert(s == opt_seq(d) + rest);
            assert forall|k: int| 0 <= k < (opt_seq(d) + rest).len() implies is_include(
                #[trigger] (opt_seq(d) + rest)[k],
            ) by {
                if k < opt_seq(d).len() {
                    assert((opt_seq(d) + rest)[k] == d.unwrap());
                } else {
                    assert((opt_seq(d) + rest)[k] == rest[k - opt_seq(d).len()]);
                }
            }
        } else if c == '\'' || c == '"' {
            let j = onward(t, i, literal_end(t, i + 1, c));
            assert(s == scan_from(t, j, false, false, false));
            lemma_section_over(t, j, false, false);
        } else if c == '/' && i + 1 < t.len() && t[i + 1] == '*' {
            let j = onward(t, i, block_end(t, i + 2));
            assert(s == scan_from(t, j, false, pn, false));
            lemma_section_over(t, j, pn, false);
        } else if c == '/' && i + 1 < t.len() && t[i + 1] == '/' {
            let j = onward(t, i, esc_read(t, i + 2, CharClass::NotNewline).1);
            assert(s == scan_from(t, j, false, pn, c0));
            lemma_section_over(t, j, pn, c0);
        } else if white_space(c) {
            assert(s == scan_from(t, i + 1, false, pn, false));
            lemma_section_over(t, i + 1, pn, false);
        } else {
            assert(s == scan_from(t, i + 1, false, false, false));
            lemma_section_over(t, i + 1, false, false);
        }
    }
}

/// A line whose first non-blank text is a word other than `module`,
/// `export` or `import` (a declaration such as `int main() {}`, indented or
/// not) ends the module section: no import after it is reported.
pub proof fn lemma_code_ends_module_section(t: Seq<char>, i: int, c0: bool)
    requires
        0 <= i < t.len(),
        t[i] != '\n',
        !white_space(t[i]),
        t[i] != '#',
        t[i] != '\'',
        t[i] != '"',
        t[i] != '/',
        !read_module(t, i).1,
    ensures
        forall|k: int|
            0 <= k < scan_from(t, i, true, true, c0).len() ==> is_include(
                #[trigger] scan_from(t, i, true, true, c0)[k],
            ),
{
    let j = read_module(t, i).2;
    if j > i {
        assert(scan_from(t, i, true, true, c0) == scan_from(t, onward(t, i, j), false, false, false));
        lemma_section_over(t, onward(t, i, j), false, false);
    } else {
        assert(scan_from(t, i, true, true, c0) == scan_from(t, i, false, false, false));
        lemma_section_over(t, i, false, false);
    }
}

/// Blanks and comments do not move the start of a line: from the start of
/// a line, skipping blanks keeps the scanner at the line's first non-blank.
pub proof fn lemma_blank_keeps_line_start(t: Seq<char>, i: int, c0: bool)
    requires
        0 <= i < t.len(),
        white_space(t[i]),
        t[i] != '\n',
    ensures
        scan_from(t, i, true, true, c0) == scan_from(t, i + 1, true, true, false),
{
}

/// The text of `t1` from `m1` on is the text of `t2` from `m2` on.
pub open spec fn same_tail(t1: Seq<char>, m1: int, t2: Seq<char>, m2: int) -> bool {
    &&& 0 <= m1 <= t1.len()
    &&& 0 <= m2 <= t2.len()
    &&& t1.len() - m1 == t2.len() - m2
    &&& forall|q: int| 0 <= q < t1.len() - m1 ==> #[trigger] t1[m1 + q] == t2[m2 + q]
}

proof fn lemma_same_at(t1: Seq<char>, m1: int, t2: Seq<char>, m2: int, i: int)
    requires
        same_tail(t1, m1, t2, m2),
        m1 <= i < t1.len(),
    ensures
        t1[i] == t2[i + (m2 - m1)],
{
    assert(t1[m1 + (i - m1)] == t2[m2 + (i - m1)]);
}

proof fn lemma_tail_esc_read(t1: Seq<char>, m1: int, t2: Seq<char>, m2: int, i: int, k: CharClass)
    requires
        same_tail(t1, m1, t2, m2),
        m1 <= i,
    ensures
        esc_read(t2, i + (m2 - m1), k) == (esc_read(t1, i, k).0, esc_read(t1, i, k).1 + (m2 - m1)),
    decreases t1.len() - i,
{
    if i < t1.len() {
        lemma_same_at(t1, m1, t2, m2, i);
        if i + 1 < t1.len() {
            lemma_same_at(t1, m1, t2, m2, i + 1);
        }
        lemma_tail_esc_read(t1, m1, t2, m2, i + 1, k);
        if i + 2 <= t1.len() {
            lemma_tail_esc_read(t1, m1, t2, m2, i + 2, k);
        }
    }
}

proof fn lemma_tail_read_run(t1: Seq<char>, m1: int, t2: Seq<char>, m2: int, i: int, k: CharClass)
    requires
        same_tail(t1, m1, t2, m2),
        m1 <= i,
    ensures
        read_run(t2, i + (m2 - m1), k) == (read_run(t1, i, k).0, read_run(t1, i, k).1 + (m2 - m1)),
    decreases t1.len() - i,
{
    if i < t1.len() {
        lemma_same_at(t1, m1, t2, m2, i);
        lemma_tail_read_run(t1, m1, t2, m2, i + 1, k);
    }
}

proof fn lemma_tail_literal_end(t1: Seq<char>, m1: int, t2: Seq<char>, m2: int, i: int, q: char)
    requires
        same_tail(t1, m1, t2, m2),
        m1 <= i,
    ensures
        literal_end(t2, i + (m2 - m1), q) == literal_end(t1, i, q) + (m2 - m1),
    decreases t1.len() - i,
{
    if i < t1.len() {
        lemma_same_at(t1, m1, t2, m2, i);
        lemma_tail_literal_end(t1, m1, t2, m2, i + 1, q);
        if i + 2 <= t1.len() {
            lemma_tail_literal_end(t1, m1, t2, m2, i + 2, q);
        }
    }
}

proof fn lemma_tail_block_end(t1: Seq<char>, m1: int, t2: Seq<char>, m2: int, i: int)
    requires
        same_tail(t1, m1, t2, m2),
        m1 <= i,
    ensures
        block_end(t2, i + (m2 - m1)) == block_end(t1, i) + (m2 - m1),
    decreases t1.len() - i,
{
    if i + 1 < t1.len() {
        lemma_same_at(t1, m1, t2, m2, i);
        lemma_same_at(t1, m1, t2, m2, i + 1);
        lemma_tail_block_end(t1, m1, t2, m2, i + 1);
    }
}

proof fn lemma_tail_read_macro(t1: Seq<char>, m1: int, t2: Seq<char>, m2: int, i: int)
    requires
        same_tail(t1, m1, t2, m2),
        m1 <= i,
    ensures
        read_macro(t2, i + (m2 - m1)) == (read_macro(t1, i).0, read_macro(t1, i).1 + (m2 - m1)),
{
    let d = m2 - m1;
    lemma_tail_esc_read(t1, m1, t2, m2, i + 1, CharClass::Space);
    let j = esc_read(t1, i + 1, CharClass::Space).1;
    lemma_esc_read_onward(t1, i + 1, CharClass::Space);
    lemma_tail_esc_read(t1, m1, t2, m2, j, CharClass::AlNum);
    let j2 = esc_read(t1, j, CharClass::AlNum).1;
    lemma_esc_read_onward(t1, j, CharClass::AlNum);
    lemma_tail_esc_read(t1, m1, t2, m2, j2, CharClass::NotNewline);
    lemma_tail_esc_read(t1, m1, t2, m2, j2, CharClass::Space);
    let j3 = esc_read(t1, j2, CharClass::Space).1;
    lemma_esc_read_onward(t1, j2, CharClass::Space);
    if j3 < t1.len() {
        lemma_same_at(t1, m1, t2, m2, j3);
    }
    lemma_tail_esc_read(t1, m1, t2, m2, j3 + 1, CharClass::Not('>'));
    lemma_tail_esc_read(t1, m1, t2, m2, j3 + 1, CharClass::Not('"'));
    lemma_tail_esc_read(t1, m1, t2, m2, j3, CharClass::NotNewline);
    assert(esc_read(t2, (i + 1) + d, CharClass::Space).1 == j + d);
    assert(esc_read(t2, j + d, CharClass::AlNum).1 == j2 + d);
    assert(esc_read(t2, j2 + d, CharClass::Space).1 == j3 + d);
}

proof fn lemma_esc_read_onward(t: Seq<char>, i: int, k: CharClass)
    ensures
        esc_read(t, i, k).1 >= i || i < 0,
    decreases t.len() - i,
{
    if 0 <= i < t.len() {
        lemma_esc_read_onward(t, i + 1, k);
        if i + 2 <= t.len() {
            lemma_esc_read_onward(t, i + 2, k);
        }
    }
}

proof fn lemma_read_run_onward(t: Seq<char>, i: int, k: CharClass)
    ensures
        read_run(t, i, k).1 >= i,
    decreases t.len() - i,
{
    if 0 <= i < t.len() {
        lemma_read_run_onward(t, i + 1, k);
    }
}

proof fn lemma_tail_end_statement(t1: Seq<char>, m1: int, t2: Seq<char>, m2: int, i: int)
    requires
        same_tail(t1, m1, t2, m2),
        m1 <= i,
    ensures
        end_statement(t2, i + (m2 - m1)) == end_statement(t1, i) + (m2 - m1),
{
    lemma_tail_read_run(t1, m1, t2, m2, i, CharClass::Space);
    let k = read_run(t1, i, CharClass::Space).1;
    lemma_read_run_onward(t1, i, CharClass::Space);
    if k < t1.len() {
        lemma_same_at(t1, m1, t2, m2, k);
    }
}

proof fn lemma_tail_module_name(t1: Seq<char>, m1: int, t2: Seq<char>, m2: int, i: int)
    requires
        same_tail(t1, m1, t2, m2),
        m1 <= i,
    ensures
        read_module_name(t2, i + (m2 - m1)) == (
            read_module_name(t1, i).0,
            read_module_name(t1, i).1 + (m2 - m1),
        ),
{
    let d = m2 - m1;
    lemma_tail_read_run(t1, m1, t2, m2, i, CharClass::Space);
    let j = read_run(t1, i, CharClass::Space).1;
    lemma_read_run_onward(t1, i, CharClass::Space);
    lemma_tail_read_run(t1, m1, t2, m2, j, CharClass::ModuleName);
    let j2 = read_run(t1, j, CharClass::ModuleName).1;
    lemma_read_run_onward(t1, j, CharClass::ModuleName);
    lemma_tail_read_run(t1, m1, t2, m2, j2, CharClass::Space);
    let j3 = read_run(t1, j2, CharClass::Space).1;
    lemma_read_run_onward(t1, j2, CharClass::Space);
    if j3 < t1.len() {
        lemma_same_at(t1, m1, t2, m2, j3);
    }
    lemma_tail_read_run(t1, m1, t2, m2, j3 + 1, CharClass::Space);
    let j4 = read_run(t1, j3 + 1, CharClass::Space).1;
    lemma_read_run_onward(t1, j3 + 1, CharClass::Space);
    lemma_tail_read_run(t1, m1, t2, m2, j4, CharClass::ModuleName);
    let j5 = read_run(t1, j4, CharClass::ModuleName).1;
    lemma_read_run_onward(t1, j4, CharClass::ModuleName);
    lemma_tail_end_statement(t1, m1, t2, m2, j5);
    lemma_tail_end_statement(t1, m1, t2, m2, j2);
    assert(read_run(t2, i + d, CharClass::Space).1 == j + d);
    assert(read_run(t2, j + d, CharClass::ModuleName).1 == j2 + d);
    assert(read_run(t2, j2 + d, CharClass::Space).1 == j3 + d);
    assert(read_run(t2, (j3 + 1) + d, CharClass::Space).1 == j4 + d);
    assert(read_run(t2, j4 + d, CharClass::ModuleName).1 == j5 + d);
}

proof fn lemma_tail_import(t1: Seq<char>, m1: int, t2: Seq<char>, m2: int, i: int)
    requires
        same_tail(t1, m1, t2, m2),
        m1 <= i,
    ensures
        read_import(t2, i + (m2 - m1)) == (read_import(t1, i).0, read_import(t1, i).1 + (m2 - m1)),
{
    let d = m2 - m1;
    lemma_tail_read_run(t1, m1, t2, m2, i, CharClass::Space);
    let j = read_run(t1, i, CharClass::Space).1;
    lemma_read_run_onward(t1, i, CharClass::Space);
    if j < t1.len() {
        lemma_same_at(t1, m1, t2, m2, j);
    }
    lemma_tail_read_run(t1, m1, t2, m2, j + 1, CharClass::Not('>'));
    lemma_tail_read_run(t1, m1, t2, m2, j + 1, CharClass::Not('"'));
    let k1 = read_run(t1, j + 1, CharClass::Not('>')).1;
    let k2 = read_run(t1, j + 1, CharClass::Not('"')).1;
    lemma_read_run_onward(t1, j + 1, CharClass::Not('>'));
    lemma_read_run_onward(t1, j + 1, CharClass::Not('"'));
    lemma_tail_end_statement(t1, m1, t2, m2, k1 + 1);
    lemma_tail_end_statement(t1, m1, t2, m2, k2 + 1);
    lemma_tail_module_name(t1, m1, t2, m2, j);
    assert(read_run(t2, i + d, CharClass::Space).1 == j + d);
    assert(read_run(t2, (j + 1) + d, CharClass::Not('>')).1 == k1 + d);
    assert(read_run(t2, (j + 1) + d, CharClass::Not('"')).1 == k2 + d);
}

proof fn lemma_tail_module(t1: Seq<char>, m1: int, t2: Seq<char>, m2: int, i: int)
    requires
        same_tail(t1, m1, t2, m2),
        m1 <= i,
    ensures
        read_module(t2, i + (m2 - m1)) == (
            read_module(t1, i).0,
            read_module(t1, i).1,
            read_module(t1, i).2 + (m2 - m1),
        ),
{
    let d = m2 - m1;
    lemma_tail_read_run(t1, m1, t2, m2, i, CharClass::Alpha);
    let j = read_run(t1, i, CharClass::Alpha).1;
    lemma_read_run_onward(t1, i, CharClass::Alpha);
    lemma_tail_read_run(t1, m1, t2, m2, j, CharClass::Space);
    let k = read_run(t1, j, CharClass::Space).1;
    lemma_read_run_onward(t1, j, CharClass::Space);
    if k < t1.len() {
        lemma_same_at(t1, m1, t2, m2, k);
    }
    lemma_tail_module_name(t1, m1, t2, m2, j);
    lemma_tail_read_run(t1, m1, t2, m2, k, CharClass::Alpha);
    let k2 = read_run(t1, k, CharClass::Alpha).1;
    lemma_read_run_onward(t1, k, CharClass::Alpha);
    lemma_tail_module_name(t1, m1, t2, m2, k2);
    lemma_tail_import(t1, m1, t2, m2, k2);
    lemma_tail_import(t1, m1, t2, m2, j);
    assert(read_run(t2, i + d, CharClass::Alpha).1 == j + d);
    assert(read_run(t2, j + d, CharClass::Space).1 == k + d);
    assert(read_run(t2, k + d, CharClass::Alpha).1 == k2 + d);
}

/// What the scanner reports from a position on depends only on the text
/// from there on.
pub proof fn lemma_tail_scan(
    t1: Seq<char>,
    m1: int,
    t2: Seq<char>,
    m2: int,
    i: int,
    ms: bool,
    pn: bool,
    c0: bool,
)
    requires
        same_tail(t1, m1, t2, m2),
        m1 <= i,
    ensures
        scan_from(t2, i + (m2 - m1), ms, pn, c0) == scan_from(t1, i, ms, pn, c0),
    decreases t1.len() - i, (if ms { 1int } else { 0int }),
{
    let d = m2 - m1;
    if i < t1.len() {
        let c = t1[i];
        lemma_same_at(t1, m1, t2, m2, i);
        if i + 1 < t1.len() {
            lemma_same_at(t1, m1, t2, m2, i + 1);
        }
        if c == '\n' {
            lemma_tail_scan(t1, m1, t2, m2, i + 1, ms, true, true);
        } else if c == '#' && c0 {
            lemma_tail_read_macro(t1, m1, t2, m2, i);
            let j = read_macro(t1, i).1;
            assert(onward(t2, i + d, j + d) == onward(t1, i, j) + d);
            lemma_tail_scan(t1, m1, t2, m2, onward(t1, i, j), ms, true, true);
        } else if c == '\'' || c == '"' {
            lemma_tail_literal_end(t1, m1, t2, m2, i + 1, c);
            let j = literal_end(t1, i + 1, c);
            assert(onward(t2, i + d, j + d) == onward(t1, i, j) + d);
            lemma_tail_scan(t1, m1, t2, m2, onward(t1, i, j), ms, false, false);
        } else if c == '/' && i + 1 < t1.len() && t1[i + 1] == '*' {
            lemma_tail_block_end(t1, m1, t2, m2, i + 2);
            let j = block_end(t1, i + 2);
            assert(onward(t2, i + d, j + d) == onward(t1, i, j) + d);
            lemma_tail_scan(t1, m1, t2, m2, onward(t1, i, j), ms, pn, false);
        } else if c == '/' && i + 1 < t1.len() && t1[i + 1] == '/' {
            lemma_tail_esc_read(t1, m1, t2, m2, i + 2, CharClass::NotNewline);
            let j = esc_read(t1, i + 2, CharClass::NotNewline).1;
            assert(onward(t2, i + d, j + d) == onward(t1, i, j) + d);
            lemma_tail_scan(t1, m1, t2, m2, onward(t1, i, j), ms, pn, c0);
        } else if white_space(c) {
            lemma_tail_scan(t1, m1, t2, m2, i + 1, ms, pn, false);
        } else if ms && pn {
            lemma_tail_module(t1, m1, t2, m2, i);
            let (dd, keep, j) = read_module(t1, i);
            assert(onward(t2, i + d, j + d) == onward(t1, i, j) + d);
            if keep {
                lemma_tail_scan(t1, m1, t2, m2, onward(t1, i, j), true, false, false);
            } else if j > i {
                lemma_tail_scan(t1, m1, t2, m2, onward(t1, i, j), false, false, false);
            } else {
                lemma_tail_scan(t1, m1, t2, m2, i, false, false, false);
            }
        } else {
            lemma_tail_scan(t1, m1, t2, m2, i + 1, ms, false, false);
        }
    }
}

/// A character or string literal delimited by `q` (`'` or `"`), its escapes
/// included, that closes at its last character.
pub open spec fn closed_literal(l: Seq<char>, q: char) -> bool {
    l.len() >= 2 && l[0] == q && literal_end(l + seq!['\n'], 1, q) == l.len()
}

/// A literal read inside a longer text reads as it does alone.
proof fn lemma_literal_in_text(t: Seq<char>, s: int, l: Seq<char>, i: int, q: char)
    requires
        0 <= s,
        s + l.len() <= t.len(),
        t.subrange(s, s + l.len()) == l,
        1 <= i <= l.len(),
        literal_end(l + seq!['\n'], i, q) <= l.len(),
    ensures
        literal_end(t, s + i, q) == s + literal_end(l + seq!['\n'], i, q),
    decreases l.len() - i,
{
    let lx = l + seq!['\n'];
    if i < l.len() {
        assert(t[s + i] == t.subrange(s, s + l.len())[i]);
        assert(lx[i] == l[i]);
        if l[i] == q {
        } else if l[i] == '\\' {
            if i + 1 < l.len() {
                lemma_literal_in_text(t, s, l, i + 2, q);
            } else {
                assert(literal_end(lx, i + 2, q) == lx.len());
            }
        } else {
            lemma_literal_in_text(t, s, l, i + 1, q);
        }
    } else {
        assert(lx[i] == '\n');
        if q == '\n' {
        } else {
            assert(literal_end(lx, i + 1, q) == lx.len());
        }
    }
}

/// Where the scanner stands at the opening quote of a character or string
/// literal, what the literal holds does not matter: swapping it for another
/// literal of the same kind, of any length and with any escapes, leaves
/// every later directive as it was.
pub proof fn lemma_skip_literal(
    a: Seq<char>,
    l1: Seq<char>,
    l2: Seq<char>,
    b: Seq<char>,
    q: char,
    ms: bool,
    pn: bool,
    c0: bool,
)
    requires
        q == '"' || q == '\'',
        closed_literal(l1, q),
        closed_literal(l2, q),
    ensures
        scan_from(a + l1 + b, a.len() as int, ms, pn, c0) == scan_from(
            a + l2 + b,
            a.len() as int,
            ms,
            pn,
            c0,
        ),
{
    let t1 = a + l1 + b;
    let t2 = a + l2 + b;
    let s = a.len() as int;
    let n1 = l1.len() as int;
    let n2 = l2.len() as int;
    assert(t1.subrange(s, s + n1) =~= l1);
    assert(t2.subrange(s, s + n2) =~= l2);
    assert(t1[s] == q);
    assert(t2[s] == q);
    lemma_literal_in_text(t1, s, l1, 1, q);
    lemma_literal_in_text(t2, s, l2, 1, q);
    assert(same_tail(t1, s + n1, t2, s + n2)) by {
        assert forall|k: int| 0 <= k < t1.len() - (s + n1) implies #[trigger] t1[(s + n1) + k] == t2[(s + n2) + k] by {
            assert(t1[(s + n1) + k] == b[k]);
            assert(t2[(s + n2) + k] == b[k]);
        }
    }
    lemma_tail_scan(t1, s + n1, t2, s + n2, s + n1, ms, false, false);
    assert(onward(t1, s, s + n1) == s + n1);
    assert(onward(t2, s, s + n2) == s + n2);
}

/// A path that can stand between the delimiters of an `#include`: no
/// closing delimiter `close`, no backslash, no line feed.
pub open spec fn plain_path(p: Seq<char>, close: char) -> bool {
    forall|k: int| 0 <= k < p.len() ==> p[k] != close && p[k] != '\\' && p[k] != '\n'
}

/// An include directive with such a path.
pub open spec fn well_formed_include(d: Directive) -> bool {
    match d {
        Directive::User(p) => plain_path(p, '"'),
        Directive::System(p) => plain_path(p, '>'),
        _ => false,
    }
}

/// The line that writes an include directive: `#include "p"` or
/// `#include <p>`.
pub open spec fn include_line(d: Directive) -> Seq<char> {
    let head = seq!['#', 'i', 'n', 'c', 'l', 'u', 'd', 'e', ' '];
    match d {
        Directive::User(p) => head + seq!['"'] + p + seq!['"', '\n'],
        Directive::System(p) => head + seq!['<'] + p + seq!['>', '\n'],
        _ => seq![],
    }
}

proof fn lemma_esc_run(t: Seq<char>, i: int, n: int, k: CharClass)
    requires
        0 <= i,
        0 <= n,
        i + n < t.len(),
        forall|q: int| i <= q < i + n ==> in_class(k, t[q]) && t[q] != '\\',
        !in_class(k, t[i + n]),
        t[i + n] != '\\',
    ensures
        esc_read(t, i, k) == (t.subrange(i, i + n), i + n),
    decreases n,
{
    if n > 0 {
        lemma_esc_run(t, i + 1, n - 1, k);
        assert(seq![t[i]] + t.subrange(i + 1, i + n) =~= t.subrange(i, i + n));
    } else {
        assert(t.subrange(i, i) =~= Seq::<char>::empty());
    }
}

/// One include line at `s` gives its directive, and scanning goes on at the
/// start of the next line.
proof fn lemma_include_line(t: Seq<char>, s: int, d: Directive)
    requires
        well_formed_include(d),
        0 <= s,
        s + include_line(d).len() <= t.len(),
        t.subrange(s, s + include_line(d).len()) == include_line(d),
    ensures
        scan_from(t, s, true, true, true) == seq![d] + scan_from(
            t,
            s + include_line(d).len(),
            true,
            true,
            true,
        ),
{
    let l = include_line(d);
    let (p, open, close) = match d {
        Directive::User(p) => (p, '"', '"'),
        Directive::System(p) => (p, '<', '>'),
        _ => (seq![], ' ', ' '),
    };
    let head = seq!['#', 'i', 'n', 'c', 'l', 'u', 'd', 'e', ' '];
    assert(l == head + seq![open] + p + seq![close, '\n']);
    assert(plain_path(p, close));
    assert(close != '\\' && close != '\n');
    let n = l.len() as int;
    assert(n == p.len() + 12);
    assert forall|q: int| 0 <= q < n implies t[s + q] == l[q] by {
        assert(t.subrange(s, s + n)[q] == t[s + q]);
    }
    let word = seq!['i', 'n', 'c', 'l', 'u', 'd', 'e'];
    assert(t[s] == l[0]);
    assert(l[0] == '#');
    assert forall|q: int| 0 <= q < 7 implies t[s + 1 + q] == word[q] by {
        assert(t[s + 1 + q] == l[1 + q]);
    }
    assert(t[s + 8] == l[8]);
    assert(l[8] == ' ');
    assert(t[s + 9] == l[9]);
    assert(l[9] == open);
    assert forall|q: int| 0 <= q < p.len() implies t[s + 10 + q] == p[q] by {
        assert(t[s + 10 + q] == l[10 + q]);
    }
    assert(t[s + 10 + p.len()] == l[10 + p.len() as int]);
    assert(l[10 + p.len() as int] == close);
    assert(t[s + 11 + p.len()] == l[11 + p.len() as int]);
    assert(l[11 + p.len() as int] == '\n');
    // the reads that `read_macro` makes
    lemma_esc_run(t, s + 1, 0, CharClass::Space);
    assert forall|q: int| s + 1 <= q < s + 8 implies in_class(CharClass::AlNum, t[q]) && t[q] != '\\' by {
        assert(t[q] == word[q - s - 1]);
    }
    lemma_esc_run(t, s + 1, 7, CharClass::AlNum);
    assert(t.subrange(s + 1, s + 8) =~= word_include()) by {
        assert forall|q: int| 0 <= q < 7 implies t.subrange(s + 1, s + 8)[q] == word_include()[q] by {
            assert(t[s + 1 + q] == word[q]);
        }
    }
    lemma_esc_run(t, s + 8, 1, CharClass::Space);
    assert forall|q: int| s + 10 <= q < s + 10 + p.len() implies in_class(CharClass::Not(close), t[q])
        && t[q] != '\\' by {
        assert(t[q] == p[q - s - 10]);
    }
    lemma_esc_run(t, s + 10, p.len() as int, CharClass::Not(close));
    assert(t.subrange(s + 10, s + 10 + p.len()) =~= p) by {
        assert forall|q: int| 0 <= q < p.len() implies t.subrange(s + 10, s + 10 + p.len())[q] == p[q] by {
            assert(t[s + 10 + q] == p[q]);
        }
    }
    assert(read_macro(t, s) == (Some(d), s + n - 1));
    assert(onward(t, s, s + n - 1) == s + n - 1);
    assert(scan_from(t, s, true, true, true) == seq![d] + scan_from(t, s + n - 1, true, true, true));
    assert(scan_from(t, s + n - 1, true, true, true) == scan_from(t, s + n, true, true, true));
}

/// A module name written with ASCII letters, digits and dots.
pub open spec fn plain_module_name(m: Seq<char>) -> bool {
    forall|k: int| 0 <= k < m.len() ==> ascii_letter(m[k]) || ascii_digit(m[k]) || m[k] == '.'
}

pub open spec fn word_export_sp() -> Seq<char> {
    seq!['e', 'x', 'p', 'o', 'r', 't', ' ']
}

pub open spec fn word_import_sp() -> Seq<char> {
    seq!['i', 'm', 'p', 'o', 'r', 't', ' ']
}

pub open spec fn word_module_sp() -> Seq<char> {
    seq!['m', 'o', 'd', 'u', 'l', 'e', ' ']
}

/// What follows `import ` in a line that writes an import.
pub open spec fn import_body(d: Directive) -> Seq<char> {
    match d {
        Directive::ImpModule(n) | Directive::ExpImpModule(n) => n + seq![';', '\n'],
        Directive::UserModule(p) | Directive::ExpUserModule(p) => seq!['"'] + p + seq![
            '"',
            ';',
            '\n',
        ],
        Directive::SystemModule(p) | Directive::ExpSystemModule(p) => seq!['<'] + p + seq![
            '>',
            ';',
            '\n',
        ],
        _ => seq![],
    }
}

/// The line that writes a directive: `#include "p"`, `#include <p>`,
/// `export module m;`, `import m;`, `import "p";`, `import <p>;`, and the
/// imports again after `export`.
pub open spec fn directive_line(d: Directive) -> Seq<char> {
    match d {
        Directive::User(_) | Directive::System(_) => include_line(d),
        Directive::ExpModule(m) => word_export_sp() + word_module_sp() + m + seq![';', '\n'],
        Directive::ImpModule(_) | Directive::UserModule(_) | Directive::SystemModule(_) => word_import_sp()
            + import_body(d),
        _ => word_export_sp() + word_import_sp() + import_body(d),
    }
}

/// A directive that its line writes back exactly: plain paths and plain
/// module names.
pub open spec fn well_formed_directive(d: Directive) -> bool {
    match d {
        Directive::User(_) | Directive::System(_) => well_formed_include(d),
        Directive::ExpModule(m) | Directive::ImpModule(m) | Directive::ExpImpModule(m) => plain_module_name(m),
        Directive::UserModule(p) | Directive::ExpUserModule(p) => plain_path(p, '"'),
        Directive::SystemModule(p) | Directive::ExpSystemModule(p) => plain_path(p, '>'),
    }
}

/// A piece of blank text: a whitespace character, a `//` comment (up to,
/// not including, its line feed) or a `/* */` comment.
pub enum GapItem {
    Blank(char),
    LineComment(Seq<char>),
    BlockComment(Seq<char>),
}

pub open spec fn gap_item_text(g: GapItem) -> Seq<char> {
    match g {
        GapItem::Blank(c) => seq![c],
        GapItem::LineComment(b) => seq!['/', '/'] + b,
        GapItem::BlockComment(b) => seq!['/', '*'] + b + seq!['*', '/'],
    }
}

pub open spec fn gap_text(items: Seq<GapItem>) -> Seq<char>
    decreases items.len(),
{
    if items.len() == 0 {
        seq![]
    } else {
        gap_item_text(items[0]) + gap_text(items.subrange(1, items.len() as int))
    }
}

/// A well-formed piece: whitespace; a line comment with no line feed or
/// backslash, followed by a line feed; a block comment that does not close
/// early.
pub open spec fn good_item(items: Seq<GapItem>, k: int) -> bool {
    match items[k] {
        GapItem::Blank(c) => white_space(c),
        GapItem::LineComment(b) => (forall|j: int| 0 <= j < b.len() ==> b[j] != '\n' && b[j] != '\\')
            && k + 1 < items.len() && items[k + 1] == GapItem::Blank('\n'),
        GapItem::BlockComment(b) => forall|j: int|
            0 <= j < b.len() ==> !(b[j] == '*' && (b + seq!['*', '/'])[j + 1] == '/'),
    }
}

/// Blank text between two directive lines: whitespace and comments, ending
/// with a line feed (or nothing at all).
pub open spec fn blank_gap(items: Seq<GapItem>) -> bool {
    (forall|k: int| 0 <= k < items.len() ==> good_item(items, k)) && (items.len() == 0
        || items.last() == GapItem::Blank('\n'))
}

/// The lines that write a sequence of directives, in order, each followed
/// by its gap.
pub open spec fn directive_lines(ds: Seq<Directive>, gaps: Seq<Seq<GapItem>>) -> Seq<char>
    decreases ds.len(),
{
    if ds.len() == 0 || gaps.len() == 0 {
        seq![]
    } else {
        directive_line(ds[0]) + gap_text(gaps[0]) + directive_lines(
            ds.subrange(1, ds.len() as int),
            gaps.subrange(1, gaps.len() as int),
        )
    }
}

proof fn lemma_gap_text_split(items: Seq<GapItem>)
    requires
        items.len() > 0,
    ensures
        gap_text(items) == gap_item_text(items[0]) + gap_text(items.subrange(1, items.len() as int)),
{
}

/// Blank lines, indentation and comments between directive lines change
/// nothing.
proof fn lemma_blank_gap(t: Seq<char>, s: int, items: Seq<GapItem>, c0: bool)
    requires
        0 <= s,
        s + gap_text(items).len() <= t.len(),
        t.subrange(s, s + gap_text(items).len()) == gap_text(items),
        items.len() > 0,
        blank_gap(items),
    ensures
        scan_from(t, s, true, true, c0) == scan_from(t, s + gap_text(items).len(), true, true, true),
    decreases items.len(),
{
    let g = gap_text(items);
    let it = items[0];
    let x = gap_item_text(it);
    let rest = items.subrange(1, items.len() as int);
    let rt = gap_text(rest);
    lemma_gap_text_split(items);
    assert(g == x + rt);
    assert forall|q: int| 0 <= q < x.len() implies #[trigger] t[s + q] == x[q] by {
        assert(t.subrange(s, s + g.len())[q] == g[q]);
    }
    assert(t.subrange(s + x.len(), s + x.len() + rt.len()) =~= rt) by {
        assert forall|q: int| 0 <= q < rt.len() implies t.subrange(s + x.len(), s + x.len() + rt.len())[q] == rt[q] by {
            assert(t.subrange(s, s + g.len())[x.len() + q] == g[x.len() + q]);
        }
    }
    assert(good_item(items, 0));
    assert forall|k: int| 0 <= k < rest.len() implies good_item(rest, k) by {
        assert(rest[k] == items[k + 1]);
        if k + 1 < rest.len() {
            assert(rest[k + 1] == items[k + 2]);
        }
        assert(good_item(items, k + 1));
    }
    let n = s + x.len();
    match it {
        GapItem::Blank(c) => {
            assert(t[s + 0] == c);
            if rest.len() == 0 {
                assert(it == GapItem::Blank('\n'));
                assert(scan_from(t, s, true, true, c0) == scan_from(t, s + 1, true, true, true));
            } else {
                assert(blank_gap(rest));
                if c == '\n' {
                    lemma_blank_gap(t, n, rest, true);
                } else {
                    lemma_blank_gap(t, n, rest, false);
                }
            }
        },
        GapItem::LineComment(b) => {
            assert(rest.len() > 0 && rest[0] == GapItem::Blank('\n'));
            assert(t[s + 0] == '/');
            assert(t[s + 1] == '/');
            lemma_gap_text_split(rest);
            assert(t[n] == '\n') by {
                assert(t.subrange(s + x.len(), s + x.len() + rt.len())[0] == rt[0]);
            }
            assert forall|q: int| s + 2 <= q < n implies in_class(CharClass::NotNewline, t[q]) && t[q] != '\\' by {
                assert(t[s + (q - s)] == x[q - s]);
                assert(x[q - s] == b[q - s - 2]);
            }
            lemma_esc_run(t, s + 2, b.len() as int, CharClass::NotNewline);
            assert(scan_from(t, s, true, true, c0) == scan_from(t, n, true, true, c0));
            assert(blank_gap(rest));
            lemma_blank_gap(t, n, rest, c0);
        },
        GapItem::BlockComment(b) => {
            assert(t[s + 0] == '/');
            assert(t[s + 1] == '*');
            lemma_block_body(t, s, b, 0);
            assert(scan_from(t, s, true, true, c0) == scan_from(t, n, true, true, false));
            if rest.len() == 0 {
                assert(false);
            } else {
                assert(blank_gap(rest));
                lemma_blank_gap(t, n, rest, false);
            }
        },
    }
}

/// A block comment whose body does not close early ends after its `*/`.
proof fn lemma_block_body(t: Seq<char>, s: int, b: Seq<char>, j: int)
    requires
        0 <= s,
        0 <= j <= b.len(),
        s + b.len() + 4 <= t.len(),
        forall|q: int| 0 <= q < b.len() + 4 ==> #[trigger] t[s + q] == (seq!['/', '*'] + b + seq!['*', '/'])[q],
        forall|q: int| 0 <= q < b.len() ==> !(b[q] == '*' && (b + seq!['*', '/'])[q + 1] == '/'),
    ensures
        block_end(t, s + 2 + j) == s + b.len() + 4,
    decreases b.len() - j,
{
    let x = seq!['/', '*'] + b + seq!['*', '/'];
    assert(t[s + (2 + j)] == x[2 + j]);
    assert(t[s + (3 + j)] == x[3 + j]);
    if j < b.len() {
        assert(x[2 + j] == b[j]);
        assert(x[3 + j] == (b + seq!['*', '/'])[j + 1]);
        lemma_block_body(t, s, b, j + 1);
    } else {
        assert(x[2 + j] == '*');
        assert(x[3 + j] == '/');
    }
}

proof fn lemma_run(t: Seq<char>, i: int, n: int, k: CharClass)
    requires
        0 <= i,
        0 <= n,
        i + n < t.len(),
        forall|q: int| i <= q < i + n ==> in_class(k, t[q]),
        !in_class(k, t[i + n]),
    ensures
        read_run(t, i, k) == (t.subrange(i, i + n), i + n),
    decreases n,
{
    if n > 0 {
        lemma_run(t, i + 1, n - 1, k);
        assert(seq![t[i]] + t.subrange(i + 1, i + n) =~= t.subrange(i, i + n));
    } else {
        assert(t.subrange(i, i) =~= Seq::<char>::empty());
    }
}

/// `t` holds `l` at `s`.
pub open spec fn holds_at(t: Seq<char>, s: int, l: Seq<char>) -> bool {
    0 <= s && s + l.len() <= t.len() && forall|q: int| 0 <= q < l.len() ==> #[trigger] t[s + q] == l[q]
}

proof fn lemma_word(t: Seq<char>, s: int, w: Seq<char>, k: CharClass)
    requires
        holds_at(t, s, w + seq![' ']),
        forall|q: int| 0 <= q < w.len() ==> in_class(k, #[trigger] w[q]),
        !in_class(k, ' '),
    ensures
        read_run(t, s, k) == (w, s + w.len()),
{
    let n = w.len() as int;
    assert forall|q: int| s <= q < s + n implies in_class(k, t[q]) by {
        assert(t[s + (q - s)] == (w + seq![' '])[q - s]);
    }
    assert(t[s + n] == (w + seq![' '])[n]);
    lemma_run(t, s, n, k);
    assert(t.subrange(s, s + n) =~= w) by {
        assert forall|q: int| 0 <= q < n implies t.subrange(s, s + n)[q] == w[q] by {
            assert(t[s + q] == (w + seq![' '])[q]);
        }
    }
}

/// After `import` at `j` (its space): the import the body writes, and the
/// position of the line feed.
proof fn lemma_import_body(t: Seq<char>, j: int, d: Directive)
    requires
        well_formed_directive(d),
        d is ImpModule || d is UserModule || d is SystemModule,
        holds_at(t, j, seq![' '] + import_body(d)),
    ensures
        read_import(t, j) == (Some(d), j + import_body(d).len()),
{
    let b = seq![' '] + import_body(d);
    let n = b.len() as int;
    assert(t[j + 0] == b[0]);
    assert(t[j + 1] == b[1]);
    lemma_run(t, j, 1, CharClass::Space);
    match d {
        Directive::ImpModule(m) => {
            let mn = m.len() as int;
            assert forall|q: int| j + 1 <= q < j + 1 + mn implies in_class(CharClass::ModuleName, t[q]) by {
                assert(t[j + (q - j)] == b[q - j]);
                assert(b[q - j] == m[q - j - 1]);
            }
            assert(t[j + (1 + mn)] == b[1 + mn]);
            assert(b[1 + mn] == ';');
            assert(t[j + (2 + mn)] == b[2 + mn]);
            assert(b[2 + mn] == '\n');
            lemma_run(t, j + 1, mn, CharClass::ModuleName);
            assert(t.subrange(j + 1, j + 1 + mn) =~= m) by {
                assert forall|q: int| 0 <= q < mn implies t.subrange(j + 1, j + 1 + mn)[q] == m[q] by {
                    assert(t[j + (1 + q)] == b[1 + q]);
                }
            }
            if m.len() > 0 {
                assert(t[j + 1] != '<' && t[j + 1] != '"');
            } else {
                assert(t[j + 1] == ';');
            }
            lemma_run(t, j + 1 + mn, 0, CharClass::Space);
            assert(read_module_name(t, j + 1) == (m, j + 2 + mn));
        },
        Directive::UserModule(p) | Directive::SystemModule(p) => {
            let close = if d is UserModule {
                '"'
            } else {
                '>'
            };
            let pn = p.len() as int;
            assert forall|q: int| j + 2 <= q < j + 2 + pn implies in_class(CharClass::Not(close), t[q]) by {
                assert(t[j + (q - j)] == b[q - j]);
                assert(b[q - j] == p[q - j - 2]);
            }
            assert(t[j + (2 + pn)] == b[2 + pn]);
            assert(b[2 + pn] == close);
            assert(t[j + (3 + pn)] == b[3 + pn]);
            assert(b[3 + pn] == ';');
            lemma_run(t, j + 2, pn, CharClass::Not(close));
            assert(t.subrange(j + 2, j + 2 + pn) =~= p) by {
                assert forall|q: int| 0 <= q < pn implies t.subrange(j + 2, j + 2 + pn)[q] == p[q] by {
                    assert(t[j + (2 + q)] == b[2 + q]);
                }
            }
            lemma_run(t, j + 3 + pn, 0, CharClass::Space);
        },
        _ => {},
    }
}


proof fn lemma_holds_part(t: Seq<char>, s: int, l: Seq<char>, off: int, x: Seq<char>)
    requires
        holds_at(t, s, l),
        0 <= off,
        off + x.len() <= l.len(),
        l.subrange(off, off + x.len()) == x,
    ensures
        holds_at(t, s + off, x),
{
    assert forall|q: int| 0 <= q < x.len() implies #[trigger] t[(s + off) + q] == x[q] by {
        assert(t[s + (off + q)] == l[off + q]);
        assert(l.subrange(off, off + x.len())[q] == l[off + q]);
    }
}

/// The import that an exported import lifts.
pub open spec fn unexported(d: Directive) -> Directive {
    match d {
        Directive::ExpImpModule(n) => Directive::ImpModule(n),
        Directive::ExpUserModule(p) => Directive::UserModule(p),
        Directive::ExpSystemModule(p) => Directive::SystemModule(p),
        d => d,
    }
}

/// One module line at `s` gives its directive, keeps the module section
/// open, and scanning goes on at the start of the next line.
#[verifier::spinoff_prover]
#[verifier::rlimit(80)]
proof fn lemma_module_line(t: Seq<char>, s: int, d: Directive)
    requires
        well_formed_directive(d),
        !(d is User || d is System),
        holds_at(t, s, directive_line(d)),
    ensures
        scan_from(t, s, true, true, true) == seq![d] + scan_from(
            t,
            s + directive_line(d).len(),
            true,
            true,
            true,
        ),
{
    let l = directive_line(d);
    let n = l.len() as int;
    assert(t[s + 0] == l[0]);
    assert(t[s + (n - 1)] == l[n - 1]);
    assert(l[n - 1] == '\n');
    let exp = d is ExpModule || d is ExpImpModule || d is ExpUserModule || d is ExpSystemModule;
    if !exp {
        // import …
        let body = import_body(d);
        assert(l == word_import_sp() + body);
        assert(l.subrange(0, 7) =~= seq!['i', 'm', 'p', 'o', 'r', 't'] + seq![' ']);
        lemma_holds_part(t, s, l, 0, seq!['i', 'm', 'p', 'o', 'r', 't'] + seq![' ']);
        lemma_word(t, s, seq!['i', 'm', 'p', 'o', 'r', 't'], CharClass::Alpha);
        assert(seq!['i', 'm', 'p', 'o', 'r', 't'] =~= word_import());
        assert(l.subrange(6, 7 + body.len() as int) =~= seq![' '] + body);
        lemma_holds_part(t, s, l, 6, seq![' '] + body);
        lemma_import_body(t, s + 6, d);
        assert(read_module(t, s) == (Some(d), true, s + n - 1));
    } else {
        assert(l.subrange(0, 7) =~= seq!['e', 'x', 'p', 'o', 'r', 't'] + seq![' ']);
        lemma_holds_part(t, s, l, 0, seq!['e', 'x', 'p', 'o', 'r', 't'] + seq![' ']);
        lemma_word(t, s, seq!['e', 'x', 'p', 'o', 'r', 't'], CharClass::Alpha);
        assert(seq!['e', 'x', 'p', 'o', 'r', 't'] =~= word_export());
        assert(t[s + 6] == l[6]);
        assert(t[s + 7] == l[7]);
        lemma_run(t, s + 6, 1, CharClass::Space);
        if d is ExpModule {
            let m = d->ExpModule_0;
            let mn = m.len() as int;
            assert(l == word_export_sp() + word_module_sp() + m + seq![';', '\n']);
            assert(l.subrange(7, 14) =~= seq!['m', 'o', 'd', 'u', 'l', 'e'] + seq![' ']);
            lemma_holds_part(t, s, l, 7, seq!['m', 'o', 'd', 'u', 'l', 'e'] + seq![' ']);
            lemma_word(t, s + 7, seq!['m', 'o', 'd', 'u', 'l', 'e'], CharClass::Alpha);
            assert(seq!['m', 'o', 'd', 'u', 'l', 'e'] =~= word_module());
            assert(t[s + 13] == l[13]);
            assert(t[s + 14] == l[14] || mn == 0);
            lemma_run(t, s + 13, 1, CharClass::Space);
            assert forall|q: int| s + 14 <= q < s + 14 + mn implies in_class(CharClass::ModuleName, t[q]) by {
                assert(t[s + (q - s)] == l[q - s]);
                assert(l[q - s] == m[q - s - 14]);
            }
            assert(t[s + (14 + mn)] == l[14 + mn]);
            assert(l[14 + mn] == ';');
            lemma_run(t, s + 14, mn, CharClass::ModuleName);
            assert(t.subrange(s + 14, s + 14 + mn) =~= m) by {
                assert forall|q: int| 0 <= q < mn implies t.subrange(s + 14, s + 14 + mn)[q] == m[q] by {
                    assert(t[s + (14 + q)] == l[14 + q]);
                }
            }
            lemma_run(t, s + 14 + mn, 0, CharClass::Space);
            assert(read_module_name(t, s + 13) == (m, s + 15 + mn));
            assert(read_module(t, s) == (Some(d), true, s + n - 1));
        } else {
            let u = unexported(d);
            let body = import_body(d);
            assert(import_body(u) == body);
            assert(well_formed_directive(u));
            assert(l == word_export_sp() + word_import_sp() + body);
            assert(l.subrange(7, 14) =~= seq!['i', 'm', 'p', 'o', 'r', 't'] + seq![' ']);
            lemma_holds_part(t, s, l, 7, seq!['i', 'm', 'p', 'o', 'r', 't'] + seq![' ']);
            lemma_word(t, s + 7, seq!['i', 'm', 'p', 'o', 'r', 't'], CharClass::Alpha);
            assert(seq!['i', 'm', 'p', 'o', 'r', 't'] =~= word_import());
            assert(l.subrange(13, 14 + body.len() as int) =~= seq![' '] + body);
            lemma_holds_part(t, s, l, 13, seq![' '] + body);
            lemma_import_body(t, s + 13, u);
            assert(exported(Some(u)) == Some(d));
            assert(read_module(t, s) == (Some(d), true, s + n - 1));
        }
    }
    assert(onward(t, s, s + n - 1) == s + n - 1);
    assert(scan_from(t, s, true, true, true) == seq![d] + scan_from(t, s + n - 1, true, false, false));
    assert(scan_from(t, s + n - 1, true, false, false) == scan_from(t, s + n, true, true, true));
}

proof fn lemma_directive_lines_at(t: Seq<char>, s: int, ds: Seq<Directive>, gaps: Seq<Seq<GapItem>>)
    requires
        forall|k: int| 0 <= k < ds.len() ==> well_formed_directive(#[trigger] ds[k]),
        forall|k: int| 0 <= k < gaps.len() ==> blank_gap(#[trigger] gaps[k]),
        gaps.len() == ds.len(),
        0 <= s,
        s + directive_lines(ds, gaps).len() == t.len(),
        t.subrange(s, t.len() as int) == directive_lines(ds, gaps),
    ensures
        scan_from(t, s, true, true, true) == ds,
    decreases ds.len(),
{
    if ds.len() == 0 {
        assert(scan_from(t, s, true, true, true) =~= ds);
    } else {
        let d = ds[0];
        let l = directive_line(d);
        let gi = gaps[0];
        let g = gap_text(gi);
        let rest = ds.subrange(1, ds.len() as int);
        let grest = gaps.subrange(1, gaps.len() as int);
        let tail = directive_lines(rest, grest);
        assert(directive_lines(ds, gaps) == l + g + tail);
        let all = l + g + tail;
        assert(holds_at(t, s, l)) by {
            assert forall|q: int| 0 <= q < l.len() implies #[trigger] t[s + q] == l[q] by {
                assert(t.subrange(s, t.len() as int)[q] == all[q]);
            }
        }
        let m = s + l.len() + g.len();
        assert(t.subrange(m, t.len() as int) =~= tail) by {
            assert forall|q: int| 0 <= q < tail.len() implies t.subrange(m, t.len() as int)[q] == tail[q] by {
                assert(t.subrange(s, t.len() as int)[l.len() + g.len() + q] == all[l.len() + g.len() + q]);
            }
        }
        if d is User || d is System {
            assert(t.subrange(s, s + l.len()) =~= include_line(d)) by {
                assert forall|q: int| 0 <= q < l.len() implies t.subrange(s, s + l.len())[q] == l[q] by {
                    assert(t[s + q] == l[q]);
                }
            }
            lemma_include_line(t, s, d);
        } else {
            lemma_module_line(t, s, d);
        }
        assert(blank_gap(gi));
        if gi.len() > 0 {
            assert(t.subrange(s + l.len(), s + l.len() + g.len()) =~= g) by {
                assert forall|q: int| 0 <= q < g.len() implies t.subrange(s + l.len(), s + l.len() + g.len())[q] == g[q] by {
                    assert(t.subrange(s, t.len() as int)[l.len() + q] == all[l.len() + q]);
                }
            }
            lemma_blank_gap(t, s + l.len(), gi, true);
        } else {
            assert(g =~= Seq::<char>::empty());
        }
        assert forall|k: int| 0 <= k < rest.len() implies well_formed_directive(#[trigger] rest[k]) by {
            assert(rest[k] == ds[k + 1]);
        }
        assert forall|k: int| 0 <= k < grest.len() implies blank_gap(#[trigger] grest[k]) by {
            assert(grest[k] == gaps[k + 1]);
        }
        lemma_directive_lines_at(t, m, rest, grest);
        assert(seq![d] + rest =~= ds);
    }
}

/// A text made only of well-formed directive lines (includes, module
/// declarations and imports, one per line in column 0), with whitespace and
/// comments between them, scans to exactly those directives, in order.
pub proof fn lemma_directive_lines_round_trip(ds: Seq<Directive>, gaps: Seq<Seq<GapItem>>)
    requires
        forall|k: int| 0 <= k < ds.len() ==> well_formed_directive(#[trigger] ds[k]),
        forall|k: int| 0 <= k < gaps.len() ==> blank_gap(#[trigger] gaps[k]),
        gaps.len() == ds.len(),
    ensures
        scan(directive_lines(ds, gaps)) == ds,
{
    let t = directive_lines(ds, gaps);
    assert(t.subrange(0, t.len() as int) =~= t);
    lemma_directive_lines_at(t, 0, ds, gaps);
}

} // verus!
