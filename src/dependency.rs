//! Files, their dependencies, and the memoizing resolver that follows
//! `#include "…"` and module imports from file to file.
use vstd::prelude::*;
use crate::err::Error;
use crate::file_type::{ext_type, FileState, FileType, Language};
use crate::include_deps::{directives, get_included_files, scan, Directive, IncFile};
use crate::path::{include_target, join_path, normalize_path, parent_path};
use crate::text::{str_chars, string_of};

verus! {

/// A file of the build: its path and, where known, its type. Two files are
/// the same file when their paths are equal; the type is advisory.
#[derive(Debug)]
pub struct DepFile {
    pub path: String,
    pub typ: Option<FileType>,
}

/// The module directives of one file.
#[derive(Debug)]
pub struct Modules {
    pub provides: Option<String>,
    pub imports: Vec<String>,
    pub exports: Vec<String>,
    pub user: Vec<DepFile>,
    pub system: Vec<DepFile>,
    pub user_exports: Vec<DepFile>,
    pub system_exports: Vec<DepFile>,
}

/// A node of the dependency graph.
#[derive(Debug)]
pub struct Dependency {
    /// The file that has the dependencies.
    pub file: DepFile,
    /// The inputs of the command that produces `file`.
    pub direct: Vec<DepFile>,
    /// Files whose change invalidates `file` and everything that uses it.
    pub transitive: Vec<DepFile>,
    /// Files whose change invalidates `file` alone.
    pub non_transitive: Vec<DepFile>,
    pub modules: Modules,
}

/// The module directives of a file, as values.
pub struct ModulesView {
    pub provides: Option<String>,
    pub imports: Seq<String>,
    pub exports: Seq<String>,
    pub user: Seq<DepFile>,
    pub system: Seq<DepFile>,
    pub user_exports: Seq<DepFile>,
    pub system_exports: Seq<DepFile>,
}

impl View for Modules {
    type V = ModulesView;

    open spec fn view(&self) -> ModulesView {
        ModulesView {
            provides: self.provides,
            imports: self.imports@,
            exports: self.exports@,
            user: self.user@,
            system: self.system@,
            user_exports: self.user_exports@,
            system_exports: self.system_exports@,
        }
    }
}

/// A node of the dependency graph, as values.
pub struct DependencyView {
    pub file: DepFile,
    pub direct: Seq<DepFile>,
    pub transitive: Seq<DepFile>,
    pub non_transitive: Seq<DepFile>,
    pub modules: ModulesView,
}

impl View for Dependency {
    type V = DependencyView;

    open spec fn view(&self) -> DependencyView {
        DependencyView {
            file: self.file,
            direct: self.direct@,
            transitive: self.transitive@,
            non_transitive: self.non_transitive@,
            modules: self.modules@,
        }
    }
}

/// The paths of a list of files.
pub open spec fn paths(v: Seq<DepFile>) -> Seq<Seq<char>> {
    v.map_values(|f: DepFile| f.path@)
}

/// The set of paths of a list of files.
pub open spec fn path_set(v: Seq<DepFile>) -> Set<Seq<char>> {
    paths(v).to_set()
}

/// The texts of a list of strings.
pub open spec fn texts(v: Seq<String>) -> Seq<Seq<char>> {
    v.map_values(|s: String| s@)
}

/// The position of the last `.` among the first `n` characters, or -1.
pub open spec fn last_dot(p: Seq<char>, n: int) -> int
    decreases n,
{
    if n <= 0 {
        -1
    } else if p[n - 1] == '.' {
        n - 1
    } else {
        last_dot(p, n - 1)
    }
}

/// The length of a path without its trailing `/`s.
pub open spec fn trimmed_len(p: Seq<char>, n: int) -> int
    decreases n,
{
    if n > 0 && p[n - 1] == '/' {
        trimmed_len(p, n - 1)
    } else {
        n
    }
}

/// The extension of the last component of a path: what follows its last
/// `.`, unless that `.` begins the name.
pub open spec fn extension(p: Seq<char>) -> Option<Seq<char>> {
    let n = trimmed_len(p, p.len() as int);
    let name = p.subrange(crate::path::last_slash(p, n) + 1, n);
    let k = last_dot(name, name.len() as int);
    if k <= 0 || name == seq!['.', '.'] {
        None
    } else {
        Some(name.subrange(k + 1, name.len() as int))
    }
}

/// The type that a path's extension gives.
pub open spec fn type_of_path(p: Seq<char>) -> Option<FileType> {
    match extension(p) {
        Some(e) => ext_type(e),
        None => None,
    }
}

/// The type of a header at a path: the language that its extension gives,
/// else C++.
pub open spec fn header_type(p: Seq<char>) -> FileType {
    FileType {
        lang: match type_of_path(p) {
            Some(t) => t.lang,
            None => Language::Cpp,
        },
        state: FileState::Header,
    }
}

pub fn extension_of(p: &Vec<char>) -> (r: Option<Vec<char>>)
    ensures
        match extension(p@) {
            Some(e) => r.is_some() && r.unwrap()@ == e,
            None => r.is_none(),
        },
{
    let mut n: usize = p.len();
    while n > 0 && p[n - 1] == '/'
        invariant
            n <= p.len(),
            trimmed_len(p@, p.len() as int) == trimmed_len(p@, n as int),
        decreases n,
    {
        n -= 1;
    }
    let mut s: usize = n;
    while s > 0 && p[s - 1] != '/'
        invariant
            s <= n <= p.len(),
            crate::path::last_slash(p@, n as int) == crate::path::last_slash(p@, s as int),
        decreases s,
    {
        s -= 1;
    }
    let ghost name = p@.subrange(s as int, n as int);
    if n - s == 2 && p[s] == '.' && p[s + 1] == '.' {
        assert(name =~= seq!['.', '.']);
        return None;
    }
    let mut d: usize = n;
    while d > s && p[d - 1] != '.'
        invariant
            s <= d <= n,
            n <= p.len(),
            name == p@.subrange(s as int, n as int),
            last_dot(name, name.len() as int) == last_dot(name, d - s),
        decreases d,
    {
        assert(name[d - s - 1] == p@[d - 1]);
        d -= 1;
    }
    if d > s {
        assert(name[d - s - 1] == p@[d - 1]);
    }
    if d <= s || d - s <= 1 {
        None
    } else {
        proof {
            if name == seq!['.', '.'] {
                assert(name[0] == p@[s as int]);
                assert(name[1] == p@[s + 1]);
            }
        }
        let mut e: Vec<char> = Vec::new();
        let mut q: usize = d;
        while q < n
            invariant
                d <= q <= n,
                n <= p.len(),
                e@ == p@.subrange(d as int, q as int),
            decreases n - q,
        {
            e.push(p[q]);
            q += 1;
            assert(e@ =~= p@.subrange(d as int, q as int));
        }
        assert(e@ =~= name.subrange(d - s, name.len() as int));
        Some(e)
    }
}

impl DepFile {
    /// A file whose type its extension gives.
    pub fn new(path: String) -> (r: DepFile)
        ensures
            r.path@ == path@,
            r.typ == type_of_path(path@),
    {
        let cs = str_chars(path.as_str());
        let typ = match extension_of(&cs) {
            Some(e) => FileType::from_ext(string_of(&e).as_str()),
            None => None,
        };
        DepFile { path, typ }
    }

    /// A header file at `path`.
    pub fn header(path: String) -> (r: DepFile)
        ensures
            r.path@ == path@,
            r.typ == Some(header_type(path@)),
    {
        let f = DepFile::new(path);
        let lang = match f.typ {
            Some(t) => t.lang,
            None => Language::Cpp,
        };
        DepFile { path: f.path, typ: Some(FileType { lang, state: FileState::Header }) }
    }

    /// A copy of this file.
    pub fn duplicate(&self) -> (r: DepFile)
        ensures
            r == *self,
    {
        DepFile { path: self.path.clone(), typ: self.typ }
    }
}

/// A copy of a list of files.
pub fn copy_files(v: &Vec<DepFile>) -> (r: Vec<DepFile>)
    ensures
        r@ == v@,
{
    let mut r: Vec<DepFile> = Vec::new();
    let mut i: usize = 0;
    while i < v.len()
        invariant
            i <= v.len(),
            r@ == v@.subrange(0, i as int),
        decreases v.len() - i,
    {
        r.push(v[i].duplicate());
        i += 1;
        assert(r@ =~= v@.subrange(0, i as int));
    }
    assert(r@ =~= v@);
    r
}

/// A copy of a list of strings.
pub fn copy_strings(v: &Vec<String>) -> (r: Vec<String>)
    ensures
        r@ == v@,
{
    let mut r: Vec<String> = Vec::new();
    let mut i: usize = 0;
    while i < v.len()
        invariant
            i <= v.len(),
            r@ == v@.subrange(0, i as int),
        decreases v.len() - i,
    {
        r.push(v[i].clone());
        i += 1;
        assert(r@ =~= v@.subrange(0, i as int));
    }
    assert(r@ =~= v@);
    r
}

/// No module directives at all.
pub open spec fn no_modules(m: ModulesView) -> bool {
    &&& m.provides.is_none()
    &&& m.imports.len() == 0
    &&& m.exports.len() == 0
    &&& m.user.len() == 0
    &&& m.system.len() == 0
    &&& m.user_exports.len() == 0
    &&& m.system_exports.len() == 0
}

impl Modules {
    pub fn empty() -> (r: Modules)
        ensures
            no_modules(r@),
    {
        Modules {
            provides: None,
            imports: Vec::new(),
            exports: Vec::new(),
            user: Vec::new(),
            system: Vec::new(),
            user_exports: Vec::new(),
            system_exports: Vec::new(),
        }
    }

    /// A copy of these directives.
    pub fn duplicate(&self) -> (r: Modules)
        ensures
            r@ == self@,
    {
        Modules {
            provides: match &self.provides {
                Some(p) => Some(p.clone()),
                None => None,
            },
            imports: copy_strings(&self.imports),
            exports: copy_strings(&self.exports),
            user: copy_files(&self.user),
            system: copy_files(&self.system),
            user_exports: copy_files(&self.user_exports),
            system_exports: copy_files(&self.system_exports),
        }
    }
}

impl Dependency {
    /// A node with the given inputs and no module directives.
    pub fn new(file: DepFile, direct: Vec<DepFile>, transitive: Vec<DepFile>) -> (r: Dependency)
        ensures
            r.file == file,
            r.direct@ == direct@,
            r.transitive@ == transitive@,
            r.non_transitive@.len() == 0,
            no_modules(r.modules@),
    {
        Dependency { file, direct, transitive, non_transitive: Vec::new(), modules: Modules::empty() }
    }

    /// A node with no inputs.
    pub fn empty(file: DepFile) -> (r: Dependency)
        ensures
            r.file == file,
            r.direct@.len() == 0,
            r.transitive@.len() == 0,
            r.non_transitive@.len() == 0,
            no_modules(r.modules@),
    {
        Dependency::new(file, Vec::new(), Vec::new())
    }

    /// A copy of this node.
    pub fn duplicate(&self) -> (r: Dependency)
        ensures
            r@ == self@,
    {
        Dependency {
            file: self.file.duplicate(),
            direct: copy_files(&self.direct),
            transitive: copy_files(&self.transitive),
            non_transitive: copy_files(&self.non_transitive),
            modules: self.modules.duplicate(),
        }
    }
}


/// A file whose text was handed to the resolver; `text` is `None` where the
/// file does not exist.
#[derive(Debug)]
pub struct KnownFile {
    pub path: String,
    pub text: Option<Vec<IncFile>>,
}

/// A known file's path and directives.
pub type KnownView = (Seq<char>, Option<Seq<Directive>>);

pub open spec fn known_view(e: KnownFile) -> KnownView {
    (
        e.path@,
        match e.text {
            Some(v) => Some(directives(v@)),
            None => None,
        },
    )
}

/// Whether the table lists the path.
pub open spec fn lists(k: Seq<KnownView>, p: Seq<char>) -> bool {
    exists|i: int| 0 <= i < k.len() && #[trigger] k[i].0 == p
}

/// Each path stands in the table once.
pub open spec fn unique(k: Seq<KnownView>) -> bool {
    forall|i: int, j: int| 0 <= i < k.len() && 0 <= j < k.len() && i != j ==> k[i].0 != k[j].0
}

/// The directives that the table holds for a path (`None`: no such file).
pub open spec fn entry(k: Seq<KnownView>, p: Seq<char>) -> Option<Seq<Directive>> {
    k[choose|i: int| 0 <= i < k.len() && k[i].0 == p].1
}

pub open spec fn exists_file(k: Seq<KnownView>, p: Seq<char>) -> bool {
    lists(k, p) && entry(k, p).is_some()
}

pub open spec fn text(k: Seq<KnownView>, p: Seq<char>) -> Seq<Directive> {
    entry(k, p).unwrap()
}

/// The file that a directive of `f` includes with a transitive edge: a
/// header, or a module unit that `f` exports.
pub open spec fn t_target(f: Seq<char>, d: Directive) -> Option<Seq<char>> {
    match d {
        Directive::User(p) => Some(include_target(f, p)),
        Directive::ExpUserModule(p) => Some(include_target(f, p)),
        _ => None,
    }
}

/// The module unit that a directive of `f` imports without exporting it.
pub open spec fn nt_target(f: Seq<char>, d: Directive) -> Option<Seq<char>> {
    match d {
        Directive::UserModule(p) => Some(include_target(f, p)),
        _ => None,
    }
}

pub open spec fn known_target(k: Seq<KnownView>, t: Option<Seq<char>>) -> bool {
    match t {
        Some(x) => lists(k, x),
        None => true,
    }
}

/// The file exists and the table knows every file that it names.
pub open spec fn complete(k: Seq<KnownView>, f: Seq<char>) -> bool {
    exists_file(k, f) && forall|i: int|
        0 <= i < text(k, f).len() ==> known_target(k, t_target(f, #[trigger] text(k, f)[i]))
            && known_target(k, nt_target(f, text(k, f)[i]))
}

/// The existing files that `f` includes transitively, one step.
pub open spec fn t_edges(k: Seq<KnownView>, f: Seq<char>) -> Set<Seq<char>> {
    Set::new(
        |x: Seq<char>|
            exists_file(k, x) && exists|i: int|
                0 <= i < text(k, f).len() && t_target(f, #[trigger] text(k, f)[i]) == Some(x),
    )
}

/// The existing module units that `f` imports without exporting them.
pub open spec fn nt_edges(k: Seq<KnownView>, f: Seq<char>) -> Set<Seq<char>> {
    Set::new(
        |x: Seq<char>|
            exists_file(k, x) && exists|i: int|
                0 <= i < text(k, f).len() && nt_target(f, #[trigger] text(k, f)[i]) == Some(x),
    )
}

/// `g` is reached from `f` in `n + 1` transitive steps.
pub open spec fn reach_n(k: Seq<KnownView>, f: Seq<char>, g: Seq<char>, n: nat) -> bool
    decreases n,
{
    if n == 0 {
        t_edges(k, f).contains(g)
    } else {
        exists|h: Seq<char>| reach_n(k, f, h, (n - 1) as nat) && #[trigger] t_edges(k, h).contains(g)
    }
}

pub open spec fn reaches(k: Seq<KnownView>, f: Seq<char>, g: Seq<char>) -> bool {
    exists|n: nat| reach_n(k, f, g, n)
}

/// Every file that `f` includes, directly or through other files.
pub open spec fn closure(k: Seq<KnownView>, f: Seq<char>) -> Set<Seq<char>> {
    Set::new(|g: Seq<char>| reaches(k, f, g))
}

/// The module units that `f` imports without exporting, and all that they
/// include.
pub open spec fn nt_closure(k: Seq<KnownView>, f: Seq<char>) -> Set<Seq<char>> {
    Set::new(
        |g: Seq<char>|
            exists|h: Seq<char>|
                #[trigger] nt_edges(k, f).contains(h) && (g == h || closure(k, h).contains(g)),
    )
}

/// The file and all that it includes are complete.
pub open spec fn settled(k: Seq<KnownView>, f: Seq<char>) -> bool {
    complete(k, f) && forall|w: Seq<char>| #[trigger] closure(k, f).contains(w) ==> complete(k, w)
}

/// A file whose text the resolution of `f` reads: `f`, what it includes,
/// the module units it imports and what they include.
pub open spec fn visited(k: Seq<KnownView>, f: Seq<char>, w: Seq<char>) -> bool {
    w == f || closure(k, f).contains(w) || nt_closure(k, f).contains(w)
}

/// `x` is a file that the resolution of `f` needs to know: one that a file
/// it reads names.
pub open spec fn wanted(k: Seq<KnownView>, f: Seq<char>, x: Seq<char>) -> bool {
    exists|w: Seq<char>|
        #[trigger] visited(k, f, w) && exists_file(k, w) && exists|i: int|
            0 <= i < text(k, w).len() && (t_target(w, #[trigger] text(k, w)[i]) == Some(x)
                || nt_target(w, text(k, w)[i]) == Some(x))
}

proof fn lemma_reach_first(k: Seq<KnownView>, f: Seq<char>, x: Seq<char>)
    requires
        t_edges(k, f).contains(x),
    ensures
        reaches(k, f, x),
{
    assert(reach_n(k, f, x, 0));
}

proof fn lemma_reach_step(k: Seq<KnownView>, f: Seq<char>, g: Seq<char>, x: Seq<char>)
    requires
        reaches(k, f, g),
        t_edges(k, g).contains(x),
    ensures
        reaches(k, f, x),
{
    let n = choose|n: nat| reach_n(k, f, g, n);
    let m: nat = n + 1;
    assert(reach_n(k, f, g, (m - 1) as nat));
    assert(reach_n(k, f, x, m));
}

proof fn lemma_reach_trans(k: Seq<KnownView>, f: Seq<char>, g: Seq<char>, x: Seq<char>, n: nat)
    requires
        reaches(k, f, g),
        reach_n(k, g, x, n),
    ensures
        reaches(k, f, x),
    decreases n,
{
    if n == 0 {
        lemma_reach_step(k, f, g, x);
    } else {
        assert(exists|h: Seq<char>| reach_n(k, g, h, (n - 1) as nat) && #[trigger] t_edges(k, h).contains(x));
        let h = choose|h: Seq<char>| reach_n(k, g, h, (n - 1) as nat) && #[trigger] t_edges(k, h).contains(x);
        lemma_reach_trans(k, f, g, h, (n - 1) as nat);
        lemma_reach_step(k, f, h, x);
    }
}

proof fn lemma_closed_n(k: Seq<KnownView>, f: Seq<char>, s: Set<Seq<char>>, g: Seq<char>, n: nat)
    requires
        t_edges(k, f).subset_of(s),
        forall|w: Seq<char>| #[trigger] s.contains(w) ==> t_edges(k, w).subset_of(s),
        reach_n(k, f, g, n),
    ensures
        s.contains(g),
    decreases n,
{
    if n > 0 {
        assert(exists|h: Seq<char>| reach_n(k, f, h, (n - 1) as nat) && #[trigger] t_edges(k, h).contains(g));
        let h = choose|h: Seq<char>| reach_n(k, f, h, (n - 1) as nat) && #[trigger] t_edges(k, h).contains(g);
        lemma_closed_n(k, f, s, h, (n - 1) as nat);
    }
}

/// A set that holds the first steps from `f` and is closed under steps holds
/// all that `f` reaches.
proof fn lemma_closed(k: Seq<KnownView>, f: Seq<char>, s: Set<Seq<char>>)
    requires
        t_edges(k, f).subset_of(s),
        forall|w: Seq<char>| #[trigger] s.contains(w) ==> t_edges(k, w).subset_of(s),
    ensures
        closure(k, f).subset_of(s),
{
    assert forall|g: Seq<char>| closure(k, f).contains(g) implies s.contains(g) by {
        let n = choose|n: nat| reach_n(k, f, g, n);
        lemma_closed_n(k, f, s, g, n);
    }
}

proof fn lemma_entry_at(k: Seq<KnownView>, i: int)
    requires
        unique(k),
        0 <= i < k.len(),
    ensures
        lists(k, k[i].0),
        entry(k, k[i].0) == k[i].1,
{
    assert(lists(k, k[i].0));
}

/// Adding a new path to the table changes nothing of a complete file.
proof fn lemma_grow_node(k: Seq<KnownView>, e: KnownView, w: Seq<char>)
    requires
        unique(k),
        !lists(k, e.0),
        complete(k, w),
    ensures
        unique(k.push(e)),
        complete(k.push(e), w),
        text(k.push(e), w) == text(k, w),
        t_edges(k.push(e), w) == t_edges(k, w),
        nt_edges(k.push(e), w) == nt_edges(k, w),
{
    let k2 = k.push(e);
    assert forall|x: Seq<char>| lists(k, x) implies lists(k2, x) && entry(k2, x) == entry(k, x) by {
        let i = choose|i: int| 0 <= i < k.len() && k[i].0 == x;
        assert(k2[i] == k[i]);
        lemma_entry_at(k, i);
        assert(unique(k2));
        lemma_entry_at(k2, i);
    }
    assert forall|x: Seq<char>| lists(k2, x) && x != e.0 implies lists(k, x) by {
        let i = choose|i: int| 0 <= i < k2.len() && k2[i].0 == x;
        assert(k2[i] == k[i]);
    }
    assert(text(k2, w) == text(k, w));
    assert forall|x: Seq<char>| lists(k, x) implies (exists_file(k2, x) == exists_file(k, x)) by {}
    assert(complete(k2, w));
    assert forall|x: Seq<char>| t_edges(k2, w).contains(x) implies t_edges(k, w).contains(x) by {
        let i = choose|i: int|
            0 <= i < text(k2, w).len() && t_target(w, #[trigger] text(k2, w)[i]) == Some(x);
        assert(known_target(k, t_target(w, text(k, w)[i])));
    }
    assert forall|x: Seq<char>| t_edges(k, w).contains(x) implies t_edges(k2, w).contains(x) by {}
    assert(t_edges(k2, w) =~= t_edges(k, w));
    assert forall|x: Seq<char>| nt_edges(k2, w).contains(x) implies nt_edges(k, w).contains(x) by {
        let i = choose|i: int|
            0 <= i < text(k2, w).len() && nt_target(w, #[trigger] text(k2, w)[i]) == Some(x);
        assert(known_target(k, nt_target(w, text(k, w)[i])));
    }
    assert forall|x: Seq<char>| nt_edges(k, w).contains(x) implies nt_edges(k2, w).contains(x) by {}
    assert(nt_edges(k2, w) =~= nt_edges(k, w));
}

proof fn lemma_grow_reach(k: Seq<KnownView>, e: KnownView, v: Seq<char>, g: Seq<char>, n: nat)
    requires
        unique(k),
        !lists(k, e.0),
        settled(k, v),
    ensures
        reach_n(k.push(e), v, g, n) == reach_n(k, v, g, n),
    decreases n,
{
    let k2 = k.push(e);
    lemma_grow_node(k, e, v);
    if n > 0 {
        let m = (n - 1) as nat;
        if reach_n(k2, v, g, n) {
            let h = choose|h: Seq<char>| reach_n(k2, v, h, m) && #[trigger] t_edges(k2, h).contains(g);
            lemma_grow_reach(k, e, v, h, m);
            assert(closure(k, v).contains(h));
            lemma_grow_node(k, e, h);
            assert(reach_n(k, v, h, m) && t_edges(k, h).contains(g));
        }
        if reach_n(k, v, g, n) {
            let h = choose|h: Seq<char>| reach_n(k, v, h, m) && #[trigger] t_edges(k, h).contains(g);
            lemma_grow_reach(k, e, v, h, m);
            assert(closure(k, v).contains(h));
            lemma_grow_node(k, e, h);
            assert(reach_n(k2, v, h, m) && t_edges(k2, h).contains(g));
        }
    }
}

/// Adding a new path to the table keeps a settled file's closure.
proof fn lemma_grow_settled(k: Seq<KnownView>, e: KnownView, v: Seq<char>)
    requires
        unique(k),
        !lists(k, e.0),
        settled(k, v),
    ensures
        settled(k.push(e), v),
        closure(k.push(e), v) == closure(k, v),
{
    let k2 = k.push(e);
    assert forall|g: Seq<char>| closure(k2, v).contains(g) == closure(k, v).contains(g) by {
        if closure(k2, v).contains(g) {
            let n = choose|n: nat| reach_n(k2, v, g, n);
            lemma_grow_reach(k, e, v, g, n);
        }
        if closure(k, v).contains(g) {
            let n = choose|n: nat| reach_n(k, v, g, n);
            lemma_grow_reach(k, e, v, g, n);
        }
    }
    assert(closure(k2, v) =~= closure(k, v));
    lemma_grow_node(k, e, v);
    assert forall|w: Seq<char>| #[trigger] closure(k2, v).contains(w) implies complete(k2, w) by {
        lemma_grow_node(k, e, w);
    }
}


/// The number of unset marks.
pub open spec fn count_false(s: Seq<bool>) -> nat
    decreases s.len(),
{
    if s.len() == 0 {
        0
    } else {
        count_false(s.drop_last()) + if s.last() {
            0nat
        } else {
            1nat
        }
    }
}

proof fn lemma_count_false_set(s: Seq<bool>, j: int)
    requires
        0 <= j < s.len(),
        !s[j],
    ensures
        count_false(s.update(j, true)) + 1 == count_false(s),
    decreases s.len(),
{
    let u = s.update(j, true);
    if j == s.len() - 1 {
        assert(u.drop_last() =~= s.drop_last());
    } else {
        assert(u.drop_last() =~= s.drop_last().update(j, true));
        lemma_count_false_set(s.drop_last(), j);
    }
}

/// The paths at a list of table positions.
pub open spec fn idx_set(k: Seq<KnownView>, v: Seq<usize>) -> Set<Seq<char>> {
    Set::new(|p: Seq<char>| exists|j: int| 0 <= j < v.len() && #[trigger] k[v[j] as int].0 == p)
}

/// The paths at the marked table positions.
pub open spec fn marked(k: Seq<KnownView>, m: Seq<bool>) -> Set<Seq<char>> {
    Set::new(|p: Seq<char>| exists|j: int| 0 <= j < m.len() && m[j] && #[trigger] k[j].0 == p)
}

/// The text that a file names by `rel`, read from the file's directory.
fn target_of(f: &String, rel: &String) -> (r: String)
    ensures
        r@ == include_target(f@, rel@),
{
    let fc = str_chars(f.as_str());
    let pc = str_chars(rel.as_str());
    let dir = parent_path(&fc);
    let joined = join_path(&dir, &pc);
    string_of(&normalize_path(&joined))
}

/// Memoized dependencies of files, the module names that files define, and
/// the texts of the files handed in so far.
pub struct DepCache {
    file_cache: Vec<Dependency>,
    module_map: Vec<(String, DepFile)>,
    module_cache: Vec<Dependency>,
    files: Vec<KnownFile>,
}

/// Every file that a known file names is known too.
pub open spec fn table_closed(k: Seq<KnownView>) -> bool {
    forall|w: Seq<char>, x: Seq<char>| exists_file(k, w) && #[trigger] names(k, w, x) ==> lists(k, x)
}

/// `x` is named by a file that exists.
pub open spec fn named_somewhere(k: Seq<KnownView>, x: Seq<char>) -> bool {
    exists|w: Seq<char>| exists_file(k, w) && #[trigger] names(k, w, x)
}

/// The module list `a` is `b` followed by more.
pub open spec fn extends_providers(a: Seq<(Seq<char>, Seq<char>)>, b: Seq<(Seq<char>, Seq<char>)>) -> bool {
    b.len() <= a.len() && forall|i: int| 0 <= i < b.len() ==> #[trigger] a[i] == b[i]
}

proof fn lemma_closed_same(a: &DepCache, b: &DepCache)
    requires
        a.cache_closed(),
        a.file_cache@ == b.file_cache@,
    ensures
        b.cache_closed(),
{
    assert forall|i: int, p: Seq<char>|
        #![trigger b.file_cache@[i], b.cached(p)]
        0 <= i < b.file_cache@.len() && (path_set(b.file_cache@[i].transitive@).contains(p)
            || path_set(b.file_cache@[i].non_transitive@).contains(p)) implies b.cached(p) by {
        assert(a.file_cache@[i] == b.file_cache@[i]);
        assert(a.cached(p));
        let j = choose|j: int| 0 <= j < a.file_cache@.len() && #[trigger] a.file_cache@[j].file.path@ == p;
        assert(b.file_cache@[j].file.path@ == p);
    }
}

proof fn lemma_wanted_named(k: Seq<KnownView>, f: Seq<char>, x: Seq<char>)
    requires
        wanted(k, f, x),
    ensures
        named_somewhere(k, x),
{
    let w = choose|w: Seq<char>|
        #[trigger] visited(k, f, w) && exists_file(k, w) && exists|i: int|
            0 <= i < text(k, w).len() && (t_target(w, #[trigger] text(k, w)[i]) == Some(x)
                || nt_target(w, text(k, w)[i]) == Some(x));
    assert(names(k, w, x));
}

/// A file that a resolved node includes or imports exists.
proof fn lemma_edge_exists(k: Seq<KnownView>, v: Seq<char>, e: DependencyView, p: Seq<char>)
    requires
        cached_node_ok(k, v, e),
        path_set(e.transitive).contains(p) || path_set(e.non_transitive).contains(p),
    ensures
        exists_file(k, p),
{
    if path_set(e.transitive).contains(p) {
        assert(closure(k, v).contains(p));
        lemma_reach_exists(k, v, p);
    } else {
        assert(nt_closure(k, v).contains(p));
        let h = choose|h: Seq<char>| #[trigger] nt_edges(k, v).contains(h) && (p == h || closure(k, h).contains(p));
        if p != h {
            lemma_reach_exists(k, h, p);
        }
    }
}

/// The node cached for `p` is the node of `p`: what it includes, the module
/// units it imports, its module directives, no direct inputs; and every file
/// it reaches is known with all that it names.
pub open spec fn cached_node_ok(k: Seq<KnownView>, p: Seq<char>, e: DependencyView) -> bool {
    &&& e.file.path@ == p
    &&& resolved(k, e)
    &&& settled(k, p)
}

/// The type of a resolved file: a source that defines a module becomes a
/// module interface unit.
pub open spec fn promoted(t: Option<FileType>, defines_module: bool) -> Option<FileType> {
    match t {
        Some(ft) => if defines_module && ft.state == FileState::Source {
            Some(FileType { lang: Language::Cpp, state: FileState::SourceModule })
        } else {
            t
        },
        None => t,
    }
}

/// A cached node is exact for the table.
pub open spec fn cache_entry_ok(k: Seq<KnownView>, e: DependencyView) -> bool {
    let v = e.file.path@;
    &&& settled(k, v)
    &&& forall|h: Seq<char>| #[trigger] nt_edges(k, v).contains(h) ==> settled(k, h)
    &&& resolved(k, e)
}

/// What resolving a file gives: the files it includes, the module units it
/// imports, its module directives, no direct inputs, and the module-unit
/// type where it defines a module.
pub open spec fn resolved(k: Seq<KnownView>, e: DependencyView) -> bool {
    let v = e.file.path@;
    &&& path_set(e.transitive) == closure(k, v)
    &&& path_set(e.non_transitive) == nt_closure(k, v)
    &&& e.direct.len() == 0
    &&& mod_spec(e.modules) == modules_of(v, text(k, v))
}

/// Module directives as text.
pub struct ModSpec {
    pub provides: Option<Seq<char>>,
    pub imports: Seq<Seq<char>>,
    pub exports: Seq<Seq<char>>,
    pub user: Seq<Seq<char>>,
    pub system: Seq<Seq<char>>,
    pub user_exports: Seq<Seq<char>>,
    pub system_exports: Seq<Seq<char>>,
}

pub open spec fn mod_spec(m: ModulesView) -> ModSpec {
    ModSpec {
        provides: match m.provides {
            Some(p) => Some(p@),
            None => None,
        },
        imports: texts(m.imports),
        exports: texts(m.exports),
        user: paths(m.user),
        system: paths(m.system),
        user_exports: paths(m.user_exports),
        system_exports: paths(m.system_exports),
    }
}

/// A module name as imported by a file that defines `provides`: a partition
/// (`:part`) is a partition of that module.
pub open spec fn qualified(provides: Option<Seq<char>>, n: Seq<char>) -> Seq<char> {
    match provides {
        Some(b) => if n.len() > 0 && n[0] == ':' {
            b + n
        } else {
            n
        },
        None => n,
    }
}

/// The module directives of the file `f` with directives `ds`, in order.
pub open spec fn modules_of(f: Seq<char>, ds: Seq<Directive>) -> ModSpec
    decreases ds.len(),
{
    if ds.len() == 0 {
        ModSpec {
            provides: None,
            imports: seq![],
            exports: seq![],
            user: seq![],
            system: seq![],
            user_exports: seq![],
            system_exports: seq![],
        }
    } else {
        let m = modules_of(f, ds.drop_last());
        match ds.last() {
            Directive::ExpModule(n) => ModSpec { provides: Some(n), ..m },
            Directive::ImpModule(n) => ModSpec {
                imports: m.imports.push(qualified(m.provides, n)),
                ..m
            },
            Directive::ExpImpModule(n) => ModSpec {
                exports: m.exports.push(qualified(m.provides, n)),
                ..m
            },
            Directive::UserModule(p) => ModSpec { user: m.user.push(include_target(f, p)), ..m },
            Directive::SystemModule(p) => ModSpec { system: m.system.push(p), ..m },
            Directive::ExpUserModule(p) => ModSpec {
                user_exports: m.user_exports.push(include_target(f, p)),
                ..m
            },
            Directive::ExpSystemModule(p) => ModSpec {
                system_exports: m.system_exports.push(p),
                ..m
            },
            _ => m,
        }
    }
}

fn qualify(provides: &Option<String>, n: &String) -> (r: String)
    ensures
        r@ == qualified(
            match provides {
                Some(p) => Some(p@),
                None => None,
            },
            n@,
        ),
{
    match provides {
        Some(b) => {
            let ns = n.as_str();
            if ns.unicode_len() > 0 && ns.get_char(0) == ':' {
                let mut q = b.clone();
                q.append(ns);
                q
            } else {
                n.clone()
            }
        },
        None => n.clone(),
    }
}

/// The module directives of the file `f`, from its directives.
pub fn parse_dependencies(f: &String, ds: &Vec<IncFile>) -> (r: Modules)
    ensures
        mod_spec(r@) == modules_of(f@, directives(ds@)),
{
    let mut m = Modules::empty();
    let ghost dv = directives(ds@);
    let mut i: usize = 0;
    assert(texts(m.imports@) =~= seq![]);
    assert(texts(m.exports@) =~= seq![]);
    assert(paths(m.user@) =~= seq![]);
    assert(paths(m.system@) =~= seq![]);
    assert(paths(m.user_exports@) =~= seq![]);
    assert(paths(m.system_exports@) =~= seq![]);
    assert(mod_spec(m@) == modules_of(f@, dv.subrange(0, 0)));
    while i < ds.len()
        invariant
            i <= ds.len(),
            dv == directives(ds@),
            mod_spec(m@) == modules_of(f@, dv.subrange(0, i as int)),
        decreases ds.len() - i,
    {
        assert(dv.subrange(0, i + 1).drop_last() =~= dv.subrange(0, i as int));
        assert(dv.subrange(0, i + 1).last() == ds@[i as int]@);
        let ghost before = m@;
        match &ds[i] {
            IncFile::ExpModule(n) => {
                m.provides = Some(n.clone());
            },
            IncFile::ImpModule(n) => {
                let q = qualify(&m.provides, n);
                m.imports.push(q);
                assert(texts(m.imports@) =~= texts(before.imports).push(q@));
            },
            IncFile::ExpImpModule(n) => {
                let q = qualify(&m.provides, n);
                m.exports.push(q);
                assert(texts(m.exports@) =~= texts(before.exports).push(q@));
            },
            IncFile::UserModule(p) => {
                let d = DepFile::header(target_of(f, p));
                let ghost dp = d.path@;
                m.user.push(d);
                assert(paths(m.user@) =~= paths(before.user).push(dp));
            },
            IncFile::SystemModule(p) => {
                let d = DepFile::header(p.clone());
                let ghost dp = d.path@;
                m.system.push(d);
                assert(paths(m.system@) =~= paths(before.system).push(dp));
            },
            IncFile::ExpUserModule(p) => {
                let d = DepFile::header(target_of(f, p));
                let ghost dp = d.path@;
                m.user_exports.push(d);
                assert(paths(m.user_exports@) =~= paths(before.user_exports).push(dp));
            },
            IncFile::ExpSystemModule(p) => {
                let d = DepFile::header(p.clone());
                let ghost dp = d.path@;
                m.system_exports.push(d);
                assert(paths(m.system_exports@) =~= paths(before.system_exports).push(dp));
            },
            _ => {},
        }
        i += 1;
    }
    assert(dv.subrange(0, ds@.len() as int) =~= dv);
    m
}


/// The directives of a file as the table holds them.
pub open spec fn opt_directives(t: Option<Vec<IncFile>>) -> Option<Seq<Directive>> {
    match t {
        Some(v) => Some(directives(v@)),
        None => None,
    }
}

/// Whether the resolver looks into a file of this type.
pub open spec fn scannable(f: DepFile) -> bool {
    match f.typ {
        Some(t) => t.state == FileState::Header || t.state == FileState::Source || t.state
            == FileState::SourceModule,
        None => false,
    }
}

/// Every file that a list of inputs includes.
pub open spec fn inputs_closure(k: Seq<KnownView>, direct: Seq<DepFile>) -> Set<Seq<char>> {
    Set::new(
        |g: Seq<char>|
            exists|i: int|
                0 <= i < direct.len() && scannable(direct[i]) && #[trigger] closure(
                    k,
                    direct[i].path@,
                ).contains(g),
    )
}

impl DepCache {
    /// The files handed in so far, with their directives.
    pub closed spec fn table(&self) -> Seq<KnownView> {
        self.files@.map_values(|e: KnownFile| known_view(e))
    }

    /// The cached node of a path, if any.
    pub closed spec fn cached(&self, p: Seq<char>) -> bool {
        exists|i: int| 0 <= i < self.file_cache@.len() && #[trigger] self.file_cache@[i].file.path@ == p
    }

    pub closed spec fn cache_entry(&self, p: Seq<char>) -> DependencyView {
        self.file_cache@[choose|i: int|
            0 <= i < self.file_cache@.len() && #[trigger] self.file_cache@[i].file.path@ == p]@
    }

    /// The table names each path once, and each cached node is exact for it.
    pub closed spec fn wf_base(&self) -> bool {
        &&& unique(self.table())
        &&& forall|i: int|
            0 <= i < self.file_cache@.len() ==> cache_entry_ok(
                self.table(),
                #[trigger] self.file_cache@[i]@,
            )
        &&& forall|i: int, j: int|
            0 <= i < self.file_cache@.len() && 0 <= j < self.file_cache@.len() && i != j
                ==> self.file_cache@[i].file.path@ != self.file_cache@[j].file.path@
    }

    /// Every file that a cached node includes or imports is cached too.
    pub closed spec fn cache_closed(&self) -> bool {
        forall|i: int, p: Seq<char>|
            #![trigger self.file_cache@[i], self.cached(p)]
            0 <= i < self.file_cache@.len() && (path_set(self.file_cache@[i].transitive@).contains(p)
                || path_set(self.file_cache@[i].non_transitive@).contains(p)) ==> self.cached(p)
    }

    /// The cache is consistent with the table and closed under its edges.
    pub closed spec fn wf(&self) -> bool {
        self.wf_base() && self.cache_closed()
    }

    /// Every file that a cached node includes or imports is cached too.
    pub proof fn lemma_closed(&self, v: Seq<char>, p: Seq<char>)
        requires
            self.wf(),
            self.cached(v),
            path_set(self.cache_entry(v).transitive).contains(p) || path_set(
                self.cache_entry(v).non_transitive,
            ).contains(p),
        ensures
            self.cached(p),
    {
        let i = choose|i: int| 0 <= i < self.file_cache@.len() && #[trigger] self.file_cache@[i].file.path@ == v;
        assert(self.cache_entry(v) == self.file_cache@[i]@);
    }

    /// The cache holds no more files than the table.
    proof fn lemma_cache_bound(&self)
        requires
            self.wf_base(),
        ensures
            self.file_cache@.len() <= self.table().len(),
    {
        let k = self.table();
        let cp = self.file_cache@.map_values(|d: Dependency| d.file.path@);
        let tp = k.map_values(|e: KnownView| e.0);
        assert(cp.no_duplicates()) by {
            assert forall|i: int, j: int| 0 <= i < cp.len() && 0 <= j < cp.len() && i != j implies cp[i] != cp[j] by {
                assert(cp[i] == self.file_cache@[i].file.path@);
                assert(cp[j] == self.file_cache@[j].file.path@);
            }
        }
        cp.unique_seq_to_set();
        tp.lemma_cardinality_of_set();
        assert(cp.to_set().subset_of(tp.to_set())) by {
            assert forall|x: Seq<char>| cp.to_set().contains(x) implies tp.to_set().contains(x) by {
                let i = choose|i: int| 0 <= i < cp.len() && cp[i] == x;
                assert(cache_entry_ok(k, self.file_cache@[i]@));
                assert(lists(k, x));
                let j = choose|j: int| 0 <= j < k.len() && #[trigger] k[j].0 == x;
                assert(tp[j] == x);
            }
        }
        vstd::set_lib::lemma_len_subset(cp.to_set(), tp.to_set());
    }

    /// A file that a cached node includes or imports, and that is not cached
    /// yet; none where the cache is closed.
    fn find_uncached_edge(&self) -> (r: Option<DepFile>)
        requires
            self.wf_base(),
        ensures
            match r {
                Some(f) => !self.cached(f.path@) && exists|i: int|
                    0 <= i < self.file_cache@.len() && (path_set(
                        self.file_cache@[i].transitive@,
                    ).contains(f.path@) || path_set(self.file_cache@[i].non_transitive@).contains(
                        f.path@,
                    )),
                None => self.cache_closed(),
            },
    {
        let mut i: usize = 0;
        while i < self.file_cache.len()
            invariant
                i <= self.file_cache@.len(),
                forall|a: int, p: Seq<char>|
                    #![trigger self.file_cache@[a], self.cached(p)]
                    0 <= a < i && (path_set(self.file_cache@[a].transitive@).contains(p) || path_set(
                        self.file_cache@[a].non_transitive@,
                    ).contains(p)) ==> self.cached(p),
            decreases self.file_cache@.len() - i,
        {
            let e = &self.file_cache[i];
            let mut j: usize = 0;
            while j < e.transitive.len()
                invariant
                    i < self.file_cache@.len(),
                    *e == self.file_cache@[i as int],
                    j <= e.transitive@.len(),
                    forall|b: int| 0 <= b < j ==> #[trigger] self.cached(e.transitive@[b].path@),
                decreases e.transitive@.len() - j,
            {
                if self.find_cached(&e.transitive[j].path).is_none() {
                    proof {
                        assert(paths(e.transitive@)[j as int] == e.transitive@[j as int].path@);
                        assert(path_set(self.file_cache@[i as int].transitive@).contains(e.transitive@[j as int].path@));
                    }
                    return Some(e.transitive[j].duplicate());
                }
                j += 1;
            }
            let mut j: usize = 0;
            while j < e.non_transitive.len()
                invariant
                    i < self.file_cache@.len(),
                    *e == self.file_cache@[i as int],
                    j <= e.non_transitive@.len(),
                    forall|b: int| 0 <= b < j ==> #[trigger] self.cached(e.non_transitive@[b].path@),
                decreases e.non_transitive@.len() - j,
            {
                if self.find_cached(&e.non_transitive[j].path).is_none() {
                    proof {
                        assert(paths(e.non_transitive@)[j as int] == e.non_transitive@[j as int].path@);
                        assert(path_set(self.file_cache@[i as int].non_transitive@).contains(e.non_transitive@[j as int].path@));
                    }
                    return Some(e.non_transitive[j].duplicate());
                }
                j += 1;
            }
            proof {
                assert forall|p: Seq<char>| path_set(e.transitive@).contains(p) || path_set(
                    e.non_transitive@,
                ).contains(p) implies #[trigger] self.cached(p) by {
                    if path_set(e.transitive@).contains(p) {
                        let b = choose|b: int| 0 <= b < paths(e.transitive@).len() && paths(e.transitive@)[b] == p;
                        assert(self.cached(e.transitive@[b].path@));
                    } else {
                        let b = choose|b: int| 0 <= b < paths(e.non_transitive@).len() && paths(e.non_transitive@)[b] == p;
                        assert(self.cached(e.non_transitive@[b].path@));
                    }
                }
            }
            i += 1;
        }
        None
    }

    /// The modules that resolved files define, each with its file, in the
    /// order found.
    pub closed spec fn module_providers(&self) -> Seq<(Seq<char>, Seq<char>)> {
        self.module_map@.map_values(|e: (String, DepFile)| (e.0@, e.1.path@))
    }

    /// The number of module interfaces resolved apart (none so far: imports
    /// are not resolved to files).
    pub closed spec fn module_units(&self) -> nat {
        self.module_cache@.len()
    }

    /// A cached node is the exact resolution of its file.
    pub proof fn lemma_cached_ok(&self, p: Seq<char>)
        requires
            self.wf_base(),
            self.cached(p),
        ensures
            cached_node_ok(self.table(), p, self.cache_entry(p)),
    {
        let i = choose|i: int| 0 <= i < self.file_cache@.len() && #[trigger] self.file_cache@[i].file.path@ == p;
        assert(cache_entry_ok(self.table(), self.file_cache@[i]@));
    }

    /// An empty cache that knows no file.
    pub fn new() -> (r: DepCache)
        ensures
            r.wf(),
            r.table().len() == 0,
            forall|p: Seq<char>| !r.cached(p),
            r.module_providers().len() == 0,
            r.module_units() == 0,
    {
        let r = DepCache {
            file_cache: Vec::new(),
            module_map: Vec::new(),
            module_cache: Vec::new(),
            files: Vec::new(),
        };
        assert(r.table() =~= Seq::<KnownView>::empty());
        r
    }

    fn find(&self, p: &String) -> (r: Option<usize>)
        requires
            self.wf_base(),
        ensures
            match r {
                Some(i) => i < self.files@.len() && self.table()[i as int].0 == p@,
                None => !lists(self.table(), p@),
            },
    {
        let mut i: usize = 0;
        while i < self.files.len()
            invariant
                i <= self.files@.len(),
                forall|j: int| 0 <= j < i ==> self.table()[j].0 != p@,
            decreases self.files@.len() - i,
        {
            if self.files[i].path == *p {
                return Some(i);
            }
            i += 1;
        }
        None
    }

    fn find_cached(&self, p: &String) -> (r: Option<usize>)
        ensures
            match r {
                Some(i) => i < self.file_cache@.len() && self.file_cache@[i as int].file.path@
                    == p@,
                None => !self.cached(p@),
            },
    {
        let mut i: usize = 0;
        while i < self.file_cache.len()
            invariant
                i <= self.file_cache@.len(),
                forall|j: int| 0 <= j < i ==> self.file_cache@[j].file.path@ != p@,
            decreases self.file_cache@.len() - i,
        {
            if self.file_cache[i].file.path == *p {
                return Some(i);
            }
            i += 1;
        }
        None
    }

    /// Hands in the text of a file, `None` where the file does not exist. A
    /// path handed in before keeps what it had.
    pub fn add_file(&mut self, path: String, text: Option<Vec<char>>)
        requires
            old(self).wf(),
        ensures
            final(self).wf(),
            lists(old(self).table(), path@) ==> final(self).table() == old(self).table(),
            !lists(old(self).table(), path@) ==> final(self).table() == old(self).table().push(
                (
                    path@,
                    match text {
                        Some(t) => Some(scan(t@)),
                        None => None,
                    },
                ),
            ),
            forall|p: Seq<char>| final(self).cached(p) == old(self).cached(p),
    {
        if self.find(&path).is_some() {
            return;
        }
        let ghost k = self.table();
        let ghost fc = self.file_cache@;
        let scanned = match &text {
            Some(t) => Some(get_included_files(t)),
            None => None,
        };
        let e = KnownFile { path, text: scanned };
        let ghost ev = known_view(e);
        self.files.push(e);
        assert(self.table() =~= k.push(ev));
        assert forall|i: int| 0 <= i < self.file_cache@.len() implies cache_entry_ok(
            self.table(),
            #[trigger] self.file_cache@[i]@,
        ) by {
            let d = self.file_cache@[i]@;
            let v = d.file.path@;
            assert(cache_entry_ok(k, d));
            lemma_grow_settled(k, ev, v);
            lemma_grow_node(k, ev, v);
            assert forall|h: Seq<char>| #[trigger] nt_edges(self.table(), v).contains(h) implies settled(
                self.table(),
                h,
            ) by {
                lemma_grow_settled(k, ev, h);
            }
            assert forall|g: Seq<char>| nt_closure(self.table(), v).contains(g) == nt_closure(k, v).contains(g) by {
                if nt_closure(self.table(), v).contains(g) {
                    let h = choose|h: Seq<char>| #[trigger] nt_edges(self.table(), v).contains(h) && (g == h || closure(self.table(), h).contains(g));
                    lemma_grow_settled(k, ev, h);
                }
                if nt_closure(k, v).contains(g) {
                    let h = choose|h: Seq<char>| #[trigger] nt_edges(k, v).contains(h) && (g == h || closure(k, h).contains(g));
                    lemma_grow_settled(k, ev, h);
                }
            }
            assert(nt_closure(self.table(), v) =~= nt_closure(k, v));
        }
        assert(unique(self.table()));
        assert(self.file_cache@ == fc);
        proof {
            lemma_closed_same(&*old(self), &*self);
        }
    }

    /// The table positions of the existing files that the file at `i` names,
    /// through transitive and through non-transitive edges; or a path that
    /// it names and that the table does not know.
    fn edges_of(&self, i: usize) -> (r: Result<(Vec<usize>, Vec<usize>), String>)
        requires
            self.wf_base(),
            i < self.files@.len(),
            self.table()[i as int].1.is_some(),
        ensures
            match r {
                Ok((t, nt)) => {
                    &&& complete(self.table(), self.table()[i as int].0)
                    &&& idx_set(self.table(), t@) == t_edges(self.table(), self.table()[i as int].0)
                    &&& idx_set(self.table(), nt@) == nt_edges(
                        self.table(),
                        self.table()[i as int].0,
                    )
                    &&& forall|j: int| 0 <= j < t@.len() ==> t@[j] < self.files@.len()
                    &&& forall|j: int| 0 <= j < nt@.len() ==> nt@[j] < self.files@.len()
                },
                Err(x) => {
                    let f = self.table()[i as int].0;
                    &&& !lists(self.table(), x@)
                    &&& exists|q: int|
                        0 <= q < text(self.table(), f).len() && (t_target(
                            f,
                            #[trigger] text(self.table(), f)[q],
                        ) == Some(x@) || nt_target(f, text(self.table(), f)[q]) == Some(x@))
                },
            },
    {
        let ghost k = self.table();
        let ghost f = k[i as int].0;
        proof {
            lemma_entry_at(k, i as int);
        }
        let fp = &self.files[i].path;
        let ds = match &self.files[i].text {
            Some(ds) => ds,
            None => {
                return Err(String::new());
            },
        };
        let ghost dv = directives(ds@);
        assert(text(k, f) == dv);
        let mut t: Vec<usize> = Vec::new();
        let mut nt: Vec<usize> = Vec::new();
        let mut q: usize = 0;
        while q < ds.len()
            invariant
                self.wf_base(),
                k == self.table(),
                i < self.files@.len(),
                f == k[i as int].0,
                fp@ == f,
                dv == directives(ds@),
                text(k, f) == dv,
                q <= ds.len(),
                forall|j: int|
                    0 <= j < q ==> known_target(k, t_target(f, #[trigger] dv[j])) && known_target(
                        k,
                        nt_target(f, dv[j]),
                    ),
                idx_set(k, t@) == Set::new(
                    |x: Seq<char>|
                        exists_file(k, x) && exists|j: int|
                            0 <= j < q && t_target(f, #[trigger] dv[j]) == Some(x),
                ),
                idx_set(k, nt@) == Set::new(
                    |x: Seq<char>|
                        exists_file(k, x) && exists|j: int|
                            0 <= j < q && nt_target(f, #[trigger] dv[j]) == Some(x),
                ),
                forall|j: int| 0 <= j < t@.len() ==> t@[j] < self.files@.len(),
                forall|j: int| 0 <= j < nt@.len() ==> nt@[j] < self.files@.len(),
            decreases ds.len() - q,
        {
            let ghost tb = t@;
            let ghost ntb = nt@;
            assert(dv[q as int] == ds@[q as int]@);
            let (rel, transitive) = match &ds[q] {
                IncFile::User(p) => (Some(p), true),
                IncFile::ExpUserModule(p) => (Some(p), true),
                IncFile::UserModule(p) => (Some(p), false),
                _ => (None, false),
            };
            match rel {
                Some(p) => {
                    let x = target_of(fp, p);
                    match self.find(&x) {
                        None => {
                            return Err(x);
                        },
                        Some(j) => {
                            proof {
                                lemma_entry_at(k, j as int);
                            }
                            if self.files[j].text.is_some() {
                                if transitive {
                                    t.push(j);
                                } else {
                                    nt.push(j);
                                }
                            }
                        },
                    }
                },
                None => {},
            }
            proof {
                let tset = Set::new(
                    |x: Seq<char>|
                        exists_file(k, x) && exists|j: int|
                            0 <= j < q + 1 && t_target(f, #[trigger] dv[j]) == Some(x),
                );
                let ntset = Set::new(
                    |x: Seq<char>|
                        exists_file(k, x) && exists|j: int|
                            0 <= j < q + 1 && nt_target(f, #[trigger] dv[j]) == Some(x),
                );
                assert forall|x: Seq<char>| idx_set(k, t@).contains(x) <==> tset.contains(x) by {
                    if idx_set(k, t@).contains(x) {
                        let j = choose|j: int| 0 <= j < t@.len() && #[trigger] k[t@[j] as int].0 == x;
                        if j < tb.len() {
                            assert(idx_set(k, tb).contains(x));
                        } else {
                            lemma_entry_at(k, t@[j] as int);
                        }
                    }
                    if tset.contains(x) {
                        let j = choose|j: int| 0 <= j < q + 1 && t_target(f, #[trigger] dv[j]) == Some(x);
                        if j < q {
                            assert(idx_set(k, tb).contains(x));
                            let j2 = choose|j2: int| 0 <= j2 < tb.len() && #[trigger] k[tb[j2] as int].0 == x;
                            assert(t@[j2] == tb[j2]);
                        } else {
                            assert(k[t@[tb.len() as int] as int].0 == x);
                        }
                    }
                }
                assert(idx_set(k, t@) =~= tset);
                assert forall|x: Seq<char>| idx_set(k, nt@).contains(x) <==> ntset.contains(x) by {
                    if idx_set(k, nt@).contains(x) {
                        let j = choose|j: int| 0 <= j < nt@.len() && #[trigger] k[nt@[j] as int].0 == x;
                        if j < ntb.len() {
                            assert(idx_set(k, ntb).contains(x));
                        } else {
                            lemma_entry_at(k, nt@[j] as int);
                        }
                    }
                    if ntset.contains(x) {
                        let j = choose|j: int| 0 <= j < q + 1 && nt_target(f, #[trigger] dv[j]) == Some(x);
                        if j < q {
                            assert(idx_set(k, ntb).contains(x));
                            let j2 = choose|j2: int| 0 <= j2 < ntb.len() && #[trigger] k[ntb[j2] as int].0 == x;
                            assert(nt@[j2] == ntb[j2]);
                        } else {
                            assert(k[nt@[ntb.len() as int] as int].0 == x);
                        }
                    }
                }
                assert(idx_set(k, nt@) =~= ntset);
            }
            q += 1;
        }
        assert(complete(k, f));
        assert(idx_set(k, t@) =~= t_edges(k, f));
        assert(idx_set(k, nt@) =~= nt_edges(k, f));
        Ok((t, nt))
    }

    /// The table positions of every file that the file at `i` includes,
    /// directly or through other files; or a path that one of the files read
    /// names and that the table does not know.
    #[verifier::spinoff_prover]
    #[verifier::rlimit(40)]
    fn closure_from(&self, i: usize) -> (r: Result<Vec<usize>, String>)
        requires
            self.wf_base(),
            i < self.files@.len(),
            self.table()[i as int].1.is_some(),
        ensures
            match r {
                Ok(v) => {
                    &&& settled(self.table(), self.table()[i as int].0)
                    &&& idx_set(self.table(), v@) == closure(self.table(), self.table()[i as int].0)
                    &&& forall|j: int| 0 <= j < v@.len() ==> v@[j] < self.files@.len()
                },
                Err(x) => {
                    let f = self.table()[i as int].0;
                    &&& !lists(self.table(), x@)
                    &&& exists|w: Seq<char>|
                        (w == f || closure(self.table(), f).contains(w)) && exists_file(
                            self.table(),
                            w,
                        ) && #[trigger] names(self.table(), w, x@)
                },
            },
    {
        let ghost k = self.table();
        let ghost f = k[i as int].0;
        proof {
            lemma_entry_at(k, i as int);
        }
        let (t0, _nt0) = match self.edges_of(i) {
            Ok(e) => e,
            Err(x) => {
                proof {
                    lemma_entry_at(k, i as int);
                    assert(names(k, f, x@));
                    assert(exists_file(k, f));
                    assert((f == f || closure(k, f).contains(f)) && exists_file(k, f) && names(k, f, x@));
                }
                return Err(x);
            },
        };
        let mut marks: Vec<bool> = Vec::new();
        while marks.len() < self.files.len()
            invariant
                marks@.len() <= self.files@.len(),
                forall|j: int| 0 <= j < marks@.len() ==> !marks@[j],
            decreases self.files@.len() - marks@.len(),
        {
            marks.push(false);
        }
        assert(marked(k, marks@) =~= Set::<Seq<char>>::empty());
        let mut out: Vec<usize> = Vec::new();
        assert(idx_set(k, out@) =~= Set::<Seq<char>>::empty());
        let mut stack = t0;
        proof {
            assert forall|j: int| 0 <= j < stack@.len() implies closure(k, f).contains(
                k[stack@[j] as int].0,
            ) by {
                assert(idx_set(k, stack@).contains(k[stack@[j] as int].0));
                lemma_reach_first(k, f, k[stack@[j] as int].0);
            }
        }
        while stack.len() > 0
            invariant
                self.wf_base(),
                k == self.table(),
                i < self.files@.len(),
                f == k[i as int].0,
                complete(k, f),
                marks@.len() == self.files@.len(),
                forall|j: int|
                    0 <= j < stack@.len() ==> #[trigger] stack@[j] < self.files@.len() && closure(k, f).contains(
                        k[stack@[j] as int].0,
                    ),
                forall|p: Seq<char>| #[trigger]
                    marked(k, marks@).contains(p) ==> closure(k, f).contains(p) && complete(k, p)
                        && t_edges(k, p).subset_of(marked(k, marks@).union(idx_set(k, stack@))),
                t_edges(k, f).subset_of(marked(k, marks@).union(idx_set(k, stack@))),
                idx_set(k, out@) == marked(k, marks@),
                forall|j: int| 0 <= j < out@.len() ==> out@[j] < self.files@.len(),
            decreases count_false(marks@), stack@.len(),
        {
            let ghost m0 = marks@;
            let ghost s0 = stack@;
            let g = match stack.pop() {
                Some(g) => g,
                None => 0,
            };
            let ghost gp = k[g as int].0;
            proof {
                assert(s0 == stack@.push(g));
                assert forall|j: int| 0 <= j < stack@.len() implies #[trigger] stack@[j] < self.files@.len()
                    && closure(k, f).contains(k[stack@[j] as int].0) by {
                    assert(stack@[j] == s0[j]);
                    assert(0 <= j < s0.len());
                    assert(s0[j] < self.files@.len() && closure(k, f).contains(k[s0[j] as int].0));
                }
                assert(idx_set(k, s0) =~= idx_set(k, stack@).insert(gp)) by {
                    assert forall|p: Seq<char>| idx_set(k, s0).contains(p) implies idx_set(
                        k,
                        stack@,
                    ).insert(gp).contains(p) by {
                        let j = choose|j: int| 0 <= j < s0.len() && #[trigger] k[s0[j] as int].0 == p;
                        if j < stack@.len() {
                            assert(k[stack@[j] as int].0 == p);
                        }
                    }
                    assert forall|p: Seq<char>| idx_set(k, stack@).contains(p) implies idx_set(
                        k,
                        s0,
                    ).contains(p) by {
                        let j = choose|j: int| 0 <= j < stack@.len() && #[trigger] k[stack@[j] as int].0 == p;
                        assert(k[s0[j] as int].0 == p);
                    }
                    assert(k[s0[s0.len() - 1] as int].0 == gp);
                }
                assert(closure(k, f).contains(gp));
                lemma_reach_exists(k, f, gp);
                lemma_entry_at(k, g as int);
            }
            if marks[g] {
                proof {
                    assert(marked(k, marks@).contains(gp));
                }
                continue;
            }
            let ghost out0 = out@;
            marks.set(g, true);
            out.push(g);
            proof {
                lemma_count_false_set(m0, g as int);
                lemma_mark(k, m0, g as int);
                lemma_idx_push(k, out0, g);
            }
            match self.find_cached(&self.files[g].path) {
                Some(ci) => {
                    let e = &self.file_cache[ci];
                    proof {
                        assert(cache_entry_ok(k, self.file_cache@[ci as int]@));
                        assert(e.file.path@ == gp);
                    }
                    let ghost m1 = marks@;
                    let mut q: usize = 0;
                    while q < e.transitive.len()
                        invariant
                            self.wf_base(),
                            k == self.table(),
                            marks@.len() == self.files@.len(),
                            q <= e.transitive@.len(),
                            path_set(e.transitive@) == closure(k, gp),
                            settled(k, gp),
                            marked(k, marks@) == marked(k, m1).union(
                                path_set(e.transitive@.subrange(0, q as int)),
                            ),
                            count_false(marks@) <= count_false(m1),
                            idx_set(k, out@) == marked(k, marks@),
                            forall|j: int| 0 <= j < out@.len() ==> out@[j] < self.files@.len(),
                        decreases e.transitive@.len() - q,
                    {
                        let ghost mq = marks@;
                        let ghost oq = out@;
                        let ghost wp = e.transitive@[q as int].path@;
                        proof {
                            assert(paths(e.transitive@)[q as int] == wp);
                            assert(path_set(e.transitive@).contains(wp));
                            assert(complete(k, wp));
                            lemma_path_set_step(e.transitive@, q as int);
                        }
                        match self.find(&e.transitive[q].path) {
                            Some(wi) => {
                                if !marks[wi] {
                                    marks.set(wi, true);
                                    out.push(wi);
                                    proof {
                                        lemma_count_false_set(mq, wi as int);
                                        lemma_mark(k, mq, wi as int);
                                        lemma_idx_push(k, oq, wi);
                                    }
                                } else {
                                    proof {
                                        assert(marked(k, mq).contains(wp));
                                        assert(marked(k, mq).insert(wp) =~= marked(k, mq));
                                    }
                                }
                            },
                            None => {},
                        }
                        q += 1;
                        proof {
                            assert(marked(k, marks@) =~= marked(k, m1).union(
                                path_set(e.transitive@.subrange(0, q as int)),
                            ));
                        }
                    }
                    proof {
                        assert(e.transitive@.subrange(0, e.transitive@.len() as int) =~= e.transitive@);
                        let mk = marked(k, marks@);
                        let sk = idx_set(k, stack@);
                        lemma_reach_first_all(k, gp);
                        assert forall|p: Seq<char>| #[trigger] mk.contains(p) implies closure(k, f).contains(p)
                            && complete(k, p) && t_edges(k, p).subset_of(mk.union(sk)) by {
                            if marked(k, m0).contains(p) {
                                assert(t_edges(k, p).subset_of(marked(k, m0).union(idx_set(k, s0))));
                            } else if p == gp {
                            } else {
                                assert(closure(k, gp).contains(p));
                                lemma_reach_trans_set(k, f, gp, p);
                                lemma_reach_step_all(k, gp, p);
                            }
                        }
                        assert(t_edges(k, f).subset_of(mk.union(sk)));
                    }
                },
                None => {
                    let (tg, _ntg) = match self.edges_of(g) {
                        Ok(e) => e,
                        Err(x) => {
                            proof {
                                assert(names(k, gp, x@));
                                assert(closure(k, f).contains(gp));
                                assert(exists_file(k, gp));
                                assert(!lists(k, x@));
                                assert((gp == f || closure(k, f).contains(gp)) && exists_file(k, gp)
                                    && names(k, gp, x@));
                            }
                            return Err(x);
                        },
                    };
                    let ghost sb = stack@;
                    let mut q: usize = 0;
                    while q < tg.len()
                        invariant
                            k == self.table(),
                            q <= tg@.len(),
                            stack@ == sb + tg@.subrange(0, q as int),
                            forall|j: int| 0 <= j < tg@.len() ==> tg@[j] < self.files@.len(),
                        decreases tg@.len() - q,
                    {
                        stack.push(tg[q]);
                        q += 1;
                        assert(stack@ =~= sb + tg@.subrange(0, q as int));
                    }
                    proof {
                        assert(tg@.subrange(0, tg@.len() as int) =~= tg@);
                        assert(idx_set(k, stack@) =~= idx_set(k, sb).union(t_edges(k, gp))) by {
                            assert forall|p: Seq<char>| idx_set(k, stack@).contains(p) implies idx_set(
                                k,
                                sb,
                            ).union(idx_set(k, tg@)).contains(p) by {
                                let j = choose|j: int| 0 <= j < stack@.len() && #[trigger] k[stack@[j] as int].0 == p;
                                if j < sb.len() {
                                    assert(k[sb[j] as int].0 == p);
                                } else {
                                    assert(k[tg@[j - sb.len()] as int].0 == p);
                                }
                            }
                            assert forall|p: Seq<char>| idx_set(k, sb).union(idx_set(k, tg@)).contains(
                                p,
                            ) implies idx_set(k, stack@).contains(p) by {
                                if idx_set(k, sb).contains(p) {
                                    let j = choose|j: int| 0 <= j < sb.len() && #[trigger] k[sb[j] as int].0 == p;
                                    assert(k[stack@[j] as int].0 == p);
                                } else {
                                    let j = choose|j: int| 0 <= j < tg@.len() && #[trigger] k[tg@[j] as int].0 == p;
                                    assert(k[stack@[sb.len() + j] as int].0 == p);
                                }
                            }
                        }
                        assert forall|j: int| 0 <= j < stack@.len() implies #[trigger] stack@[j] < self.files@.len()
                            && closure(k, f).contains(k[stack@[j] as int].0) by {
                            if j >= sb.len() {
                                let x = k[stack@[j] as int].0;
                                assert(k[tg@[j - sb.len()] as int].0 == x);
                                assert(idx_set(k, tg@).contains(x));
                                lemma_reach_step(k, f, gp, x);
                            } else {
                                assert(stack@[j] == sb[j]);
                            }
                        }
                        let mk = marked(k, marks@);
                        let sk = idx_set(k, stack@);
                        assert forall|p: Seq<char>| #[trigger] mk.contains(p) implies closure(k, f).contains(p)
                            && complete(k, p) && t_edges(k, p).subset_of(mk.union(sk)) by {
                            if marked(k, m0).contains(p) {
                                assert(t_edges(k, p).subset_of(marked(k, m0).union(idx_set(k, s0))));
                            }
                        }
                    }
                },
            }
        }
        proof {
            let mk = marked(k, marks@);
            assert(idx_set(k, stack@) =~= Set::<Seq<char>>::empty());
            assert(mk.union(idx_set(k, stack@)) =~= mk);
            lemma_closed(k, f, mk);
            assert(closure(k, f) =~= mk);
        }
        Ok(out)
    }

    /// Header files for the paths at a list of table positions.
    fn files_at(&self, v: &Vec<usize>) -> (r: Vec<DepFile>)
        requires
            forall|j: int| 0 <= j < v@.len() ==> v@[j] < self.files@.len(),
        ensures
            path_set(r@) == idx_set(self.table(), v@),
    {
        let ghost k = self.table();
        let mut r: Vec<DepFile> = Vec::new();
        let mut q: usize = 0;
        while q < v.len()
            invariant
                k == self.table(),
                q <= v@.len(),
                forall|j: int| 0 <= j < v@.len() ==> v@[j] < self.files@.len(),
                paths(r@) == v@.subrange(0, q as int).map_values(|x: usize| k[x as int].0),
            decreases v@.len() - q,
        {
            let d = DepFile::header(self.files[v[q]].path.clone());
            assert(d.path@ == k[v@[q as int] as int].0);
            let ghost rb = r@;
            let ghost dp = d.path@;
            r.push(d);
            assert(paths(r@) =~= paths(rb).push(dp));
            assert(v@.subrange(0, q + 1).map_values(|x: usize| k[x as int].0) =~= v@.subrange(
                0,
                q as int,
            ).map_values(|x: usize| k[x as int].0).push(k[v@[q as int] as int].0));
            q += 1;
        }
        assert(v@.subrange(0, v@.len() as int) =~= v@);
        assert(path_set(r@) =~= idx_set(k, v@)) by {
            assert forall|p: Seq<char>| path_set(r@).contains(p) implies idx_set(k, v@).contains(p) by {
                let j = choose|j: int| 0 <= j < paths(r@).len() && paths(r@)[j] == p;
                assert(k[v@[j] as int].0 == p);
            }
            assert forall|p: Seq<char>| idx_set(k, v@).contains(p) implies path_set(r@).contains(p) by {
                let j = choose|j: int| 0 <= j < v@.len() && #[trigger] k[v@[j] as int].0 == p;
                assert(paths(r@)[j] == p);
            }
        }
        r
    }

    /// The dependencies of a file, resolved once and then kept, together with
    /// every file that it includes or imports, so that the cache stays
    /// closed. `Unread` names a file whose text is needed first; `NotFound`
    /// says that the file itself does not exist. On an error the cache is
    /// left as it was.
    #[verifier::spinoff_prover]
    #[verifier::rlimit(100)]
    pub fn get_dependencies(&mut self, file: &DepFile) -> (r: Result<Dependency, Error>)
        requires
            old(self).wf(),
        ensures
            final(self).wf(),
            final(self).table() == old(self).table(),
            forall|p: Seq<char>|
                old(self).cached(p) ==> final(self).cached(p) && final(self).cache_entry(p)
                    == old(self).cache_entry(p),
            old(self).cached(file.path@) ==> r is Ok && r->Ok_0@ == old(self).cache_entry(
                file.path@,
            ) && *final(self) == *old(self),
            r is Err ==> forall|p: Seq<char>| final(self).cached(p) == old(self).cached(p),
            r is Err ==> final(self).module_providers() == old(self).module_providers(),
            forall|p: Seq<char>|
                final(self).cached(p) ==> cached_node_ok(
                    final(self).table(),
                    p,
                    final(self).cache_entry(p),
                ),
            extends_providers(final(self).module_providers(), old(self).module_providers()),
            forall|p: Seq<char>|
                #[trigger] final(self).cached(p) && !old(self).cached(p) && final(self).cache_entry(
                    p,
                ).modules.provides is Some ==> final(self).module_providers().contains(
                    (final(self).cache_entry(p).modules.provides->Some_0@, p),
                ),
            exists_file(old(self).table(), file.path@) && table_closed(old(self).table()) ==> r is Ok,
            match r {
                Ok(d) => {
                    &&& d.file.path@ == file.path@
                    &&& final(self).cached(file.path@)
                    &&& final(self).cache_entry(file.path@) == d@
                    &&& (!old(self).cached(file.path@) ==> resolved(old(self).table(), d@) && d.file.typ
                        == promoted(file.typ, d.modules.provides.is_some()))
                },
                Err(Error::Unread(x)) => !lists(old(self).table(), x@) && (x@ == file.path@
                    || named_somewhere(old(self).table(), x@)),
                Err(Error::NotFound(x)) => x@ == file.path@ && lists(old(self).table(), file.path@)
                    && !exists_file(old(self).table(), file.path@),
                Err(_) => false,
            },
    {
        let ghost k = self.table();
        let ghost fc0 = self.file_cache@;
        let ghost mm0 = self.module_map@;
        let mark = self.file_cache.len();
        let mmark = self.module_map.len();
        let was_cached = self.find_cached(&file.path).is_some();
        let d = match self.resolve_one(file) {
            Ok(d) => d,
            Err(e) => {
                proof {
                    if e is Unread {
                        let x = e->Unread_0;
                        if x@ != file.path@ {
                            lemma_wanted_named(k, file.path@, x@);
                        }
                    }
                }
                return Err(e);
            },
        };
        if was_cached {
            return Ok(d);
        }
        let ghost dv = d@;
        proof {
            assert forall|p: Seq<char>|
                #[trigger] self.cached(p) && !old(self).cached(p) && self.cache_entry(p).modules.provides is Some
                implies self.module_providers().contains(
                    (self.cache_entry(p).modules.provides->Some_0@, p),
                ) by {
                assert(p == file.path@);
                let n = old(self).module_providers().len() as int;
                assert(self.module_providers()[n] == (self.cache_entry(p).modules.provides->Some_0@, p));
            }
            assert(extends_providers(self.module_providers(), old(self).module_providers()));
        }
        let mut going = true;
        while going
            invariant
                self.wf_base(),
                self.table() == k,
                k == old(self).table(),
                old(self).wf(),
                !old(self).cached(file.path@),
                forall|p: Seq<char>|
                    old(self).cached(p) ==> self.cached(p) && self.cache_entry(p) == old(self).cache_entry(p),
                self.cached(file.path@),
                self.cache_entry(file.path@) == dv,
                forall|p: Seq<char>| self.cached(p) ==> cached_node_ok(k, p, self.cache_entry(p)),
                self.file_cache@.len() >= mark,
                mark == fc0.len(),
                mmark == mm0.len(),
                fc0 == old(self).file_cache@,
                mm0 == old(self).module_map@,
                self.file_cache@.subrange(0, mark as int) == fc0,
                self.module_map@.len() >= mmark,
                self.module_map@.subrange(0, mmark as int) == mm0,
                self.module_cache == old(self).module_cache,
                self.files == old(self).files,
                extends_providers(self.module_providers(), old(self).module_providers()),
                forall|p: Seq<char>|
                    #[trigger] self.cached(p) && !old(self).cached(p) && self.cache_entry(
                        p,
                    ).modules.provides is Some ==> self.module_providers().contains(
                        (self.cache_entry(p).modules.provides->Some_0@, p),
                    ),
                !going ==> self.cache_closed(),
            decreases k.len() - self.file_cache@.len(), (if going {
                1int
            } else {
                0int
            }),
        {
            proof {
                self.lemma_cache_bound();
            }
            match self.find_uncached_edge() {
                None => {
                    going = false;
                },
                Some(g) => {
                    proof {
                        let i = choose|i: int|
                            0 <= i < self.file_cache@.len() && (path_set(
                                self.file_cache@[i].transitive@,
                            ).contains(g.path@) || path_set(self.file_cache@[i].non_transitive@).contains(
                                g.path@,
                            ));
                        let v = self.file_cache@[i].file.path@;
                        assert(self.cached(v));
                        assert(self.cache_entry(v) == self.file_cache@[i]@) by {
                            let j = choose|j: int| 0 <= j < self.file_cache@.len() && #[trigger] self.file_cache@[j].file.path@ == v;
                            assert(j == i);
                        }
                        lemma_edge_exists(k, v, self.file_cache@[i]@, g.path@);
                    }
                    let ghost before = *self;
                    let ghost pv_before = self.module_providers();
                    match self.resolve_one(&g) {
                        Ok(_) => {
                            proof {
                                self.lemma_cache_bound();
                                assert forall|p: Seq<char>|
                                    #[trigger] self.cached(p) && !old(self).cached(p) && self.cache_entry(
                                        p,
                                    ).modules.provides is Some implies self.module_providers().contains(
                                        (self.cache_entry(p).modules.provides->Some_0@, p),
                                    ) by {
                                    if before.cached(p) {
                                        assert(before.module_providers().contains(
                                            (before.cache_entry(p).modules.provides->Some_0@, p),
                                        ));
                                        let q = choose|q: int| 0 <= q < pv_before.len() && pv_before[q] == (before.cache_entry(p).modules.provides->Some_0@, p);
                                        assert(self.module_providers()[q] == pv_before[q]);
                                    } else {
                                        assert(p == g.path@);
                                        let n = pv_before.len() as int;
                                        assert(self.module_providers()[n] == (self.cache_entry(p).modules.provides->Some_0@, p));
                                    }
                                }
                                assert(self.file_cache@.subrange(0, mark as int) =~= fc0) by {
                                    assert forall|q: int| 0 <= q < mark implies self.file_cache@[q] == fc0[q] by {
                                        assert(self.file_cache@.subrange(0, before.file_cache@.len() as int)[q] == before.file_cache@[q]);
                                        assert(before.file_cache@.subrange(0, mark as int)[q] == fc0[q]);
                                    }
                                }
                                assert(self.module_map@.subrange(0, mmark as int) =~= mm0) by {
                                    assert forall|q: int| 0 <= q < mmark implies self.module_map@[q] == mm0[q] by {
                                        assert(self.module_map@.subrange(0, before.module_map@.len() as int)[q] == before.module_map@[q]);
                                        assert(before.module_map@.subrange(0, mmark as int)[q] == mm0[q]);
                                    }
                                }
                                assert(extends_providers(self.module_providers(), old(self).module_providers())) by {
                                    assert forall|q: int| 0 <= q < old(self).module_providers().len() implies #[trigger] self.module_providers()[q] == old(self).module_providers()[q] by {
                                        assert(pv_before[q] == old(self).module_providers()[q]);
                                        assert(self.module_map@.subrange(0, before.module_map@.len() as int)[q] == before.module_map@[q]);
                                    }
                                }
                            }
                        },
                        Err(e) => {
                            self.file_cache.truncate(mark);
                            self.module_map.truncate(mmark);
                            proof {
                                assert(self.file_cache@ =~= fc0);
                                assert(self.module_map@ =~= mm0);
                                assert(self.table() == k);
                                assert(self.module_providers() =~= old(self).module_providers());
                                assert forall|p: Seq<char>| self.cached(p) == old(self).cached(p) by {}
                                assert(self.wf_base());
                                lemma_closed_same(&*old(self), &*self);
                                if e is Unread {
                                    let x = e->Unread_0;
                                    if x@ != g.path@ {
                                        lemma_wanted_named(k, g.path@, x@);
                                    }
                                }
                            }
                            return Err(e);
                        },
                    }
                },
            }
        }
        Ok(d)
    }

    /// The dependencies of one file, resolved and kept; the files it reaches
    /// are not resolved here.
    fn resolve_one(&mut self, file: &DepFile) -> (r: Result<Dependency, Error>)
        requires
            old(self).wf_base(),
        ensures
            final(self).wf_base(),
            final(self).table() == old(self).table(),
            forall|p: Seq<char>|
                old(self).cached(p) ==> final(self).cached(p) && final(self).cache_entry(p)
                    == old(self).cache_entry(p),
            old(self).cached(file.path@) ==> r is Ok && r->Ok_0@ == old(self).cache_entry(
                file.path@,
            ) && *final(self) == *old(self),
            r is Err ==> *final(self) == *old(self),
            forall|p: Seq<char>| final(self).cached(p) ==> old(self).cached(p) || p == file.path@,
            forall|p: Seq<char>|
                final(self).cached(p) ==> cached_node_ok(
                    final(self).table(),
                    p,
                    final(self).cache_entry(p),
                ),
            final(self).module_cache == old(self).module_cache,
            final(self).files == old(self).files,
            !old(self).cached(file.path@) && r is Ok ==> final(self).file_cache@.len()
                == old(self).file_cache@.len() + 1 && final(self).file_cache@.subrange(
                0,
                old(self).file_cache@.len() as int,
            ) == old(self).file_cache@ && final(self).module_map@.len() >= old(
                self,
            ).module_map@.len() && final(self).module_map@.subrange(
                0,
                old(self).module_map@.len() as int,
            ) == old(self).module_map@,
            !old(self).cached(file.path@) && r is Ok ==> final(self).module_providers() == match r->Ok_0.modules.provides {
                Some(m) => old(self).module_providers().push((m@, file.path@)),
                None => old(self).module_providers(),
            },
            exists_file(old(self).table(), file.path@) && (forall|x: Seq<char>|
                wanted(old(self).table(), file.path@, x) ==> lists(old(self).table(), x))
                ==> r is Ok,
            match r {
                Ok(d) => {
                    &&& d.file.path@ == file.path@
                    &&& final(self).cached(file.path@)
                    &&& final(self).cache_entry(file.path@) == d@
                    &&& (!old(self).cached(file.path@) ==> resolved(old(self).table(), d@) && d.file.typ
                        == promoted(file.typ, d.modules.provides.is_some()))
                },
                Err(Error::Unread(x)) => !lists(old(self).table(), x@) && (x@ == file.path@ || wanted(
                    old(self).table(),
                    file.path@,
                    x@,
                )),
                Err(Error::NotFound(x)) => x@ == file.path@ && lists(old(self).table(), file.path@)
                    && !exists_file(old(self).table(), file.path@),
                Err(_) => false,
            },
    {
        let ghost k = self.table();
        let ghost f = file.path@;
        if let Some(ci) = self.find_cached(&file.path) {
            proof {
                assert(self.cache_entry(f) == self.file_cache@[ci as int]@);
                assert forall|p: Seq<char>| self.cached(p) implies cached_node_ok(self.table(), p, self.cache_entry(p)) by {
                    self.lemma_cached_ok(p);
                }
            }
            return Ok(self.file_cache[ci].duplicate());
        }
        let i = match self.find(&file.path) {
            Some(i) => i,
            None => {
                return Err(Error::Unread(file.path.clone()));
            },
        };
        proof {
            lemma_entry_at(k, i as int);
        }
        let ds = match &self.files[i].text {
            Some(ds) => ds,
            None => {
                return Err(Error::NotFound(file.path.clone()));
            },
        };
        let (_t, nt) = match self.edges_of(i) {
            Ok(e) => e,
            Err(x) => {
                proof {
                    assert(visited(k, f, f));
                    assert(names(k, f, x@));
                }
                return Err(Error::Unread(x));
            },
        };
        let tv = match self.closure_from(i) {
            Ok(v) => v,
            Err(x) => {
                proof {
                    let w = choose|w: Seq<char>|
                        (w == f || closure(k, f).contains(w)) && exists_file(k, w) && #[trigger] names(
                            k,
                            w,
                            x@,
                        );
                    assert(visited(k, f, w));
                }
                return Err(Error::Unread(x));
            },
        };
        let mut ntv: Vec<usize> = Vec::new();
        let mut q: usize = 0;
        while q < nt.len()
            invariant
                self.wf_base(),
                k == self.table(),
                old(self).table() == k,
                !old(self).cached(f),
                f == file.path@,
                f == k[i as int].0,
                q <= nt@.len(),
                idx_set(k, nt@) == nt_edges(k, f),
                forall|j: int| 0 <= j < nt@.len() ==> nt@[j] < self.files@.len(),
                forall|j: int| 0 <= j < ntv@.len() ==> ntv@[j] < self.files@.len(),
                forall|j: int| 0 <= j < q ==> settled(k, #[trigger] k[nt@[j] as int].0),
                idx_set(k, ntv@) == Set::new(
                    |g: Seq<char>|
                        exists|j: int|
                            0 <= j < q && (g == #[trigger] k[nt@[j] as int].0 || closure(
                                k,
                                k[nt@[j] as int].0,
                            ).contains(g)),
                ),
            decreases nt@.len() - q,
        {
            let h = nt[q];
            let ghost hp = k[h as int].0;
            proof {
                assert(idx_set(k, nt@).contains(hp));
                lemma_entry_at(k, h as int);
            }
            let c = match self.closure_from(h) {
                Ok(c) => c,
                Err(x) => {
                    proof {
                        let w = choose|w: Seq<char>|
                            (w == hp || closure(k, hp).contains(w)) && exists_file(k, w)
                                && #[trigger] names(k, w, x@);
                        assert(nt_closure(k, f).contains(w));
                        assert(visited(k, f, w));
                    }
                    return Err(Error::Unread(x));
                },
            };
            let ghost nb = ntv@;
            ntv.push(h);
            let mut z: usize = 0;
            while z < c.len()
                invariant
                    z <= c@.len(),
                    ntv@ == nb.push(h) + c@.subrange(0, z as int),
                    forall|j: int| 0 <= j < c@.len() ==> c@[j] < self.files@.len(),
                    h < self.files@.len(),
                    forall|j: int| 0 <= j < nb.len() ==> nb[j] < self.files@.len(),
                decreases c@.len() - z,
            {
                ntv.push(c[z]);
                z += 1;
                assert(ntv@ =~= nb.push(h) + c@.subrange(0, z as int));
            }
            proof {
                assert(c@.subrange(0, c@.len() as int) =~= c@);
                let target = Set::new(
                    |g: Seq<char>|
                        exists|j: int|
                            0 <= j < q + 1 && (g == #[trigger] k[nt@[j] as int].0 || closure(
                                k,
                                k[nt@[j] as int].0,
                            ).contains(g)),
                );
                assert forall|p: Seq<char>| idx_set(k, ntv@).contains(p) implies target.contains(p) by {
                    let j = choose|j: int| 0 <= j < ntv@.len() && #[trigger] k[ntv@[j] as int].0 == p;
                    if j < nb.len() {
                        assert(k[nb[j] as int].0 == p);
                        assert(idx_set(k, nb).contains(p));
                    } else if j == nb.len() {
                        assert(p == k[nt@[q as int] as int].0);
                    } else {
                        assert(k[c@[j - nb.len() - 1] as int].0 == p);
                        assert(idx_set(k, c@).contains(p));
                        assert(closure(k, k[nt@[q as int] as int].0).contains(p));
                    }
                }
                assert forall|p: Seq<char>| target.contains(p) implies idx_set(k, ntv@).contains(p) by {
                    let j = choose|j: int|
                        0 <= j < q + 1 && (p == #[trigger] k[nt@[j] as int].0 || closure(
                            k,
                            k[nt@[j] as int].0,
                        ).contains(p));
                    if j < q {
                        assert(idx_set(k, nb).contains(p));
                        let j2 = choose|j2: int| 0 <= j2 < nb.len() && #[trigger] k[nb[j2] as int].0 == p;
                        assert(k[ntv@[j2] as int].0 == p);
                    } else if p == hp {
                        assert(k[ntv@[nb.len() as int] as int].0 == p);
                    } else {
                        assert(idx_set(k, c@).contains(p));
                        let j2 = choose|j2: int| 0 <= j2 < c@.len() && #[trigger] k[c@[j2] as int].0 == p;
                        assert(k[ntv@[nb.len() + 1 + j2] as int].0 == p);
                    }
                }
                assert(idx_set(k, ntv@) =~= target);
            }
            q += 1;
        }
        proof {
            assert(idx_set(k, ntv@) =~= nt_closure(k, f)) by {
                assert forall|g: Seq<char>| idx_set(k, ntv@).contains(g) implies nt_closure(k, f).contains(g) by {
                    let j = choose|j: int|
                        0 <= j < nt@.len() && (g == #[trigger] k[nt@[j] as int].0 || closure(
                            k,
                            k[nt@[j] as int].0,
                        ).contains(g));
                    assert(idx_set(k, nt@).contains(k[nt@[j] as int].0));
                }
                assert forall|g: Seq<char>| nt_closure(k, f).contains(g) implies idx_set(k, ntv@).contains(g) by {
                    let h = choose|h: Seq<char>|
                        #[trigger] nt_edges(k, f).contains(h) && (g == h || closure(k, h).contains(g));
                    assert(idx_set(k, nt@).contains(h));
                    let j = choose|j: int| 0 <= j < nt@.len() && #[trigger] k[nt@[j] as int].0 == h;
                    assert(g == k[nt@[j] as int].0 || closure(k, k[nt@[j] as int].0).contains(g));
                }
            }
            assert forall|h: Seq<char>| #[trigger] nt_edges(k, f).contains(h) implies settled(k, h) by {
                assert(idx_set(k, nt@).contains(h));
                let j = choose|j: int| 0 <= j < nt@.len() && #[trigger] k[nt@[j] as int].0 == h;
            }
        }
        let modules = parse_dependencies(&file.path, ds);
        let is_source = match file.typ {
            Some(t) => t.state == FileState::Source,
            None => false,
        };
        let typ = if modules.provides.is_some() && is_source {
            Some(FileType { lang: Language::Cpp, state: FileState::SourceModule })
        } else {
            file.typ
        };
        let dep = Dependency {
            file: DepFile { path: file.path.clone(), typ },
            direct: Vec::new(),
            transitive: self.files_at(&tv),
            non_transitive: self.files_at(&ntv),
            modules,
        };
        let ghost mm0 = self.module_providers();
        if let Some(m) = &dep.modules.provides {
            self.module_map.push((m.clone(), dep.file.duplicate()));
            assert(self.module_providers() =~= mm0.push((m@, f)));
        }
        let ghost fc0 = self.file_cache@;
        self.file_cache.push(dep.duplicate());
        proof {
            assert(cache_entry_ok(k, dep@));
            assert forall|j: int| 0 <= j < self.file_cache@.len() implies cache_entry_ok(
                self.table(),
                #[trigger] self.file_cache@[j]@,
            ) by {
                if j < fc0.len() {
                    assert(self.file_cache@[j] == fc0[j]);
                }
            }
            assert forall|p: Seq<char>| old(self).cached(p) implies self.cached(p) && self.cache_entry(p)
                == old(self).cache_entry(p) by {
                let j = choose|j: int| 0 <= j < fc0.len() && #[trigger] fc0[j].file.path@ == p;
                assert(self.file_cache@[j] == fc0[j]);
                let j2 = choose|j2: int| 0 <= j2 < self.file_cache@.len() && #[trigger] self.file_cache@[j2].file.path@ == p;
                if j2 == fc0.len() {
                    assert(old(self).cached(f));
                }
            }
            assert(self.file_cache@[fc0.len() as int].file.path@ == f);
            assert(self.cached(f));
            assert forall|p: Seq<char>| self.cached(p) implies old(self).cached(p) || p == f by {
                let j = choose|j: int| 0 <= j < self.file_cache@.len() && #[trigger] self.file_cache@[j].file.path@ == p;
                if j < fc0.len() {
                    assert(fc0[j] == self.file_cache@[j]);
                }
            }
            assert forall|p: Seq<char>| self.cached(p) implies cached_node_ok(self.table(), p, self.cache_entry(p)) by {
                self.lemma_cached_ok(p);
            }
        }
        Ok(dep)
    }

    /// Adds to a freshly built node everything that its scanned inputs
    /// (sources and headers) include. A node whose file was resolved already
    /// is refused.
    pub fn fill_dependency(&mut self, dep: &mut Dependency) -> (r: Result<(), Error>)
        requires
            old(self).wf(),
        ensures
            final(self).wf(),
            final(self).table() == old(self).table(),
            forall|p: Seq<char>|
                old(self).cached(p) ==> final(self).cached(p) && final(self).cache_entry(p)
                    == old(self).cache_entry(p),
            r is Ok ==> final(dep).file == old(dep).file && final(dep).direct@ == old(dep).direct@
                && final(dep).non_transitive@ == old(dep).non_transitive@ && final(dep).modules@
                == old(dep).modules@ && path_set(final(dep).transitive@) == path_set(
                old(dep).transitive@,
            ).union(inputs_closure(old(self).table(), old(dep).direct@)),
            r is Err ==> *final(dep) == *old(dep),
            old(self).cached(old(dep).file.path@) <==> (r matches Err(Error::DuplicateDependency)),
            (r matches Err(Error::DuplicateDependency)) ==> *final(self) == *old(self),
            r is Err ==> (r->Err_0 is Unread || r->Err_0 is NotFound || r->Err_0 is DuplicateDependency),
            forall|p: Seq<char>|
                final(self).cached(p) ==> cached_node_ok(
                    final(self).table(),
                    p,
                    final(self).cache_entry(p),
                ),
            !old(self).cached(old(dep).file.path@) && table_closed(old(self).table()) && (forall|i: int|
                0 <= i < old(dep).direct@.len() && scannable(#[trigger] old(dep).direct@[i])
                    ==> exists_file(old(self).table(), old(dep).direct@[i].path@)) ==> r is Ok,
            match r {
                Err(Error::Unread(x)) => !lists(old(self).table(), x@) && (named_somewhere(
                    old(self).table(),
                    x@,
                ) || exists|i: int|
                    0 <= i < old(dep).direct@.len() && scannable(old(dep).direct@[i])
                        && #[trigger] old(dep).direct@[i].path@ == x@),
                Err(Error::NotFound(x)) => exists|i: int|
                    0 <= i < old(dep).direct@.len() && scannable(old(dep).direct@[i])
                        && #[trigger] old(dep).direct@[i].path@ == x@ && !exists_file(
                        old(self).table(),
                        x@,
                    ),
                _ => true,
            },
    {
        let ghost k = self.table();
        if self.find_cached(&dep.file.path).is_some() {
            return Err(Error::DuplicateDependency);
        }
        let mut extra: Vec<DepFile> = Vec::new();
        let mut q: usize = 0;
        while q < dep.direct.len()
            invariant
                self.wf(),
                self.table() == k,
                old(self).table() == k,
                *dep == *old(dep),
                !old(self).cached(dep.file.path@),
                q <= dep.direct@.len(),
                forall|p: Seq<char>|
                    old(self).cached(p) ==> self.cached(p) && self.cache_entry(p)
                        == old(self).cache_entry(p),
                path_set(extra@) == Set::new(
                    |g: Seq<char>|
                        exists|i: int|
                            0 <= i < q && scannable(dep.direct@[i]) && #[trigger] closure(
                                k,
                                dep.direct@[i].path@,
                            ).contains(g),
                ),
            decreases dep.direct@.len() - q,
        {
            let file = &dep.direct[q];
            let scan_it = match file.typ {
                Some(t) => match t.state {
                    FileState::Header | FileState::Source | FileState::SourceModule => true,
                    _ => false,
                },
                None => false,
            };
            let ghost eb = extra@;
            if scan_it {
                let d = match self.get_dependencies(file) {
                    Ok(d) => d,
                    Err(e) => {
                        proof {
                            assert(scannable(dep.direct@[q as int]));
                        }
                        return Err(e);
                    },
                };
                proof {
                    if old(self).cached(file.path@) {
                        let j = choose|j: int| 0 <= j < old(self).file_cache@.len() && #[trigger] old(self).file_cache@[j].file.path@ == file.path@;
                        assert(old(self).cache_entry(file.path@) == old(self).file_cache@[j]@) ;
                        assert(cache_entry_ok(k, old(self).file_cache@[j]@));
                    }
                    assert(path_set(d.transitive@) == closure(k, file.path@));
                }
                let mut z: usize = 0;
                while z < d.transitive.len()
                    invariant
                        z <= d.transitive@.len(),
                        extra@ == eb + d.transitive@.subrange(0, z as int),
                    decreases d.transitive@.len() - z,
                {
                    extra.push(d.transitive[z].duplicate());
                    z += 1;
                    assert(extra@ =~= eb + d.transitive@.subrange(0, z as int));
                }
                proof {
                    assert(d.transitive@.subrange(0, d.transitive@.len() as int) =~= d.transitive@);
                    lemma_path_set_concat(eb, d.transitive@);
                }
            }
            q += 1;
            proof {
                assert(path_set(extra@) =~= Set::new(
                    |g: Seq<char>|
                        exists|i: int|
                            0 <= i < q && scannable(dep.direct@[i]) && #[trigger] closure(
                                k,
                                dep.direct@[i].path@,
                            ).contains(g),
                ));
            }
        }
        let ghost tb = dep.transitive@;
        let mut z: usize = 0;
        while z < extra.len()
            invariant
                z <= extra@.len(),
                dep.file == old(dep).file,
                dep.direct@ == old(dep).direct@,
                dep.non_transitive@ == old(dep).non_transitive@,
                dep.modules@ == old(dep).modules@,
                dep.transitive@ == tb + extra@.subrange(0, z as int),
            decreases extra@.len() - z,
        {
            dep.transitive.push(extra[z].duplicate());
            z += 1;
            assert(dep.transitive@ =~= tb + extra@.subrange(0, z as int));
        }
        proof {
            assert(extra@.subrange(0, extra@.len() as int) =~= extra@);
            lemma_path_set_concat(tb, extra@);
            assert(path_set(extra@) =~= inputs_closure(k, old(dep).direct@));
        }
        Ok(())
    }
}

/// `x` is a path that a directive of `w` names.
pub open spec fn names(k: Seq<KnownView>, w: Seq<char>, x: Seq<char>) -> bool {
    exists|q: int|
        0 <= q < text(k, w).len() && (t_target(w, #[trigger] text(k, w)[q]) == Some(x) || nt_target(
            w,
            text(k, w)[q],
        ) == Some(x))
}

pub proof fn lemma_path_set_concat(a: Seq<DepFile>, b: Seq<DepFile>)
    ensures
        path_set(a + b) == path_set(a).union(path_set(b)),
{
    assert(paths(a + b) =~= paths(a) + paths(b));
    assert forall|p: Seq<char>| path_set(a + b).contains(p) implies path_set(a).union(path_set(b)).contains(p) by {
        let j = choose|j: int| 0 <= j < paths(a + b).len() && paths(a + b)[j] == p;
        if j < a.len() {
            assert(paths(a)[j] == p);
        } else {
            assert(paths(b)[j - a.len()] == p);
        }
    }
    assert forall|p: Seq<char>| path_set(a).union(path_set(b)).contains(p) implies path_set(a + b).contains(p) by {
        if path_set(a).contains(p) {
            let j = choose|j: int| 0 <= j < paths(a).len() && paths(a)[j] == p;
            assert(paths(a + b)[j] == p);
        } else {
            let j = choose|j: int| 0 <= j < paths(b).len() && paths(b)[j] == p;
            assert(paths(a + b)[a.len() + j] == p);
        }
    }
    assert(path_set(a + b) =~= path_set(a).union(path_set(b)));
}

proof fn lemma_reach_exists(k: Seq<KnownView>, f: Seq<char>, g: Seq<char>)
    requires
        reaches(k, f, g),
    ensures
        exists_file(k, g),
{
    let n = choose|n: nat| reach_n(k, f, g, n);
    if n > 0 {
        let h = choose|h: Seq<char>| reach_n(k, f, h, (n - 1) as nat) && #[trigger] t_edges(k, h).contains(g);
    }
}

proof fn lemma_reach_first_all(k: Seq<KnownView>, f: Seq<char>)
    ensures
        t_edges(k, f).subset_of(closure(k, f)),
{
    assert forall|x: Seq<char>| t_edges(k, f).contains(x) implies closure(k, f).contains(x) by {
        lemma_reach_first(k, f, x);
    }
}

proof fn lemma_reach_step_all(k: Seq<KnownView>, f: Seq<char>, g: Seq<char>)
    requires
        closure(k, f).contains(g),
    ensures
        t_edges(k, g).subset_of(closure(k, f)),
{
    assert forall|x: Seq<char>| t_edges(k, g).contains(x) implies closure(k, f).contains(x) by {
        lemma_reach_step(k, f, g, x);
    }
}

proof fn lemma_reach_trans_set(k: Seq<KnownView>, f: Seq<char>, g: Seq<char>, x: Seq<char>)
    requires
        closure(k, f).contains(g),
        closure(k, g).contains(x),
    ensures
        closure(k, f).contains(x),
{
    let n = choose|n: nat| reach_n(k, g, x, n);
    lemma_reach_trans(k, f, g, x, n);
}

proof fn lemma_mark(k: Seq<KnownView>, m: Seq<bool>, j: int)
    requires
        0 <= j < m.len(),
        m.len() == k.len(),
    ensures
        marked(k, m.update(j, true)) == marked(k, m).insert(k[j].0),
{
    let m2 = m.update(j, true);
    assert forall|p: Seq<char>| marked(k, m2).contains(p) implies marked(k, m).insert(k[j].0).contains(p) by {
        let q = choose|q: int| 0 <= q < m2.len() && m2[q] && #[trigger] k[q].0 == p;
        if q != j {
            assert(m[q]);
        }
    }
    assert forall|p: Seq<char>| marked(k, m).insert(k[j].0).contains(p) implies marked(k, m2).contains(p) by {
        if p != k[j].0 {
            let q = choose|q: int| 0 <= q < m.len() && m[q] && #[trigger] k[q].0 == p;
            assert(m2[q]);
        } else {
            assert(m2[j]);
        }
    }
    assert(marked(k, m2) =~= marked(k, m).insert(k[j].0));
}

proof fn lemma_idx_push(k: Seq<KnownView>, v: Seq<usize>, g: usize)
    requires
        g < k.len(),
    ensures
        idx_set(k, v.push(g)) == idx_set(k, v).insert(k[g as int].0),
{
    let v2 = v.push(g);
    assert forall|p: Seq<char>| idx_set(k, v2).contains(p) implies idx_set(k, v).insert(k[g as int].0).contains(p) by {
        let q = choose|q: int| 0 <= q < v2.len() && #[trigger] k[v2[q] as int].0 == p;
        if q < v.len() {
            assert(k[v[q] as int].0 == p);
        }
    }
    assert forall|p: Seq<char>| idx_set(k, v).insert(k[g as int].0).contains(p) implies idx_set(k, v2).contains(p) by {
        if p != k[g as int].0 {
            let q = choose|q: int| 0 <= q < v.len() && #[trigger] k[v[q] as int].0 == p;
            assert(k[v2[q] as int].0 == p);
        } else {
            assert(k[v2[v.len() as int] as int].0 == p);
        }
    }
    assert(idx_set(k, v2) =~= idx_set(k, v).insert(k[g as int].0));
}

proof fn lemma_path_set_step(v: Seq<DepFile>, q: int)
    requires
        0 <= q < v.len(),
    ensures
        path_set(v.subrange(0, q + 1)) == path_set(v.subrange(0, q)).insert(v[q].path@),
{
    let a = v.subrange(0, q + 1);
    let b = v.subrange(0, q);
    assert(paths(a) =~= paths(b).push(v[q].path@));
    assert(paths(a).to_set() =~= paths(b).to_set().insert(v[q].path@)) by {
        assert forall|p: Seq<char>| paths(a).to_set().contains(p) implies paths(b).to_set().insert(v[q].path@).contains(p) by {
            let j = choose|j: int| 0 <= j < paths(a).len() && paths(a)[j] == p;
            if j < q {
                assert(paths(b)[j] == p);
            }
        }
        assert forall|p: Seq<char>| paths(b).to_set().insert(v[q].path@).contains(p) implies paths(a).to_set().contains(p) by {
            if p == v[q].path@ {
                assert(paths(a)[q] == p);
            } else {
                let j = choose|j: int| 0 <= j < paths(b).len() && paths(b)[j] == p;
                assert(paths(a)[j] == p);
            }
        }
    }
}


/// What the file system says of a path's modification time.
#[derive(Debug, Clone, Copy, PartialEq, Eq, Structural)]
pub enum Stamp {
    /// No file at the path.
    Missing,
    /// The file exists; the file system keeps no modification time.
    Unsupported,
    /// The modification time, in a unit the caller chose.
    At(u64),
}

/// Modification times handed in by the caller.
pub struct Timestamps {
    pub entries: Vec<(String, Stamp)>,
}

/// The stamp handed in first for a path, if any.
pub open spec fn stamp_from(ts: Seq<(String, Stamp)>, p: Seq<char>, i: int) -> Option<Stamp>
    decreases ts.len() - i,
{
    if i < 0 || i >= ts.len() {
        None
    } else if ts[i].0@ == p {
        Some(ts[i].1)
    } else {
        stamp_from(ts, p, i + 1)
    }
}

pub open spec fn stamp_of(ts: Seq<(String, Stamp)>, p: Seq<char>) -> Option<Stamp> {
    stamp_from(ts, p, 0)
}

/// Whether inputs are no newer than `t`, in order: `false` at the first
/// newer one, the path of the first whose time is not known.
pub open spec fn inputs_not_newer(ts: Seq<(String, Stamp)>, t: u64, ins: Seq<DepFile>) -> Result<
    bool,
    Seq<char>,
>
    decreases ins.len(),
{
    if ins.len() == 0 {
        Ok(true)
    } else {
        match stamp_of(ts, ins[0].path@) {
            Some(Stamp::At(u)) => if u > t {
                Ok(false)
            } else {
                inputs_not_newer(ts, t, ins.subrange(1, ins.len() as int))
            },
            _ => Err(ins[0].path@),
        }
    }
}

/// Whether a node's file exists and is no older than its inputs, the
/// direct ones first; the path of a file whose time is not known.
pub open spec fn up_to_date(ts: Seq<(String, Stamp)>, d: DependencyView) -> Result<
    bool,
    Seq<char>,
> {
    match stamp_of(ts, d.file.path@) {
        None => Err(d.file.path@),
        Some(Stamp::Missing) => Ok(false),
        Some(Stamp::Unsupported) => Ok(false),
        Some(Stamp::At(t)) => inputs_not_newer(ts, t, d.direct + d.transitive),
    }
}

/// The error for a path whose time is needed and not known: `NoTimestamp`
/// where no stamp was handed in, `NoInput` where the stamp says the input
/// is missing or keeps no time.
pub open spec fn stamp_error(ts: Seq<(String, Stamp)>, p: Seq<char>, e: Error) -> bool {
    match stamp_of(ts, p) {
        None => e matches Error::NoTimestamp(x) && x@ == p,
        Some(_) => e matches Error::NoInput(x) && x@ == p,
    }
}

impl Timestamps {
    pub fn new() -> (r: Timestamps)
        ensures
            r.entries@.len() == 0,
    {
        Timestamps { entries: Vec::new() }
    }

    /// Hands in the stamp of a path; an earlier one for the path stands.
    pub fn add(&mut self, path: String, stamp: Stamp)
        ensures
            final(self).entries@ == old(self).entries@.push((path, stamp)),
    {
        self.entries.push((path, stamp));
    }

    /// The stamp handed in first for a path.
    pub fn get(&self, p: &String) -> (r: Option<Stamp>)
        ensures
            r == stamp_of(self.entries@, p@),
    {
        let mut i: usize = 0;
        while i < self.entries.len()
            invariant
                i <= self.entries@.len(),
                stamp_of(self.entries@, p@) == stamp_from(self.entries@, p@, i as int),
            decreases self.entries@.len() - i,
        {
            if self.entries[i].0 == *p {
                return Some(self.entries[i].1);
            }
            i += 1;
        }
        None
    }
}

impl Dependency {
    /// Whether the node's file exists and is no older than every direct and
    /// transitive input. A file without a modification time is never up to
    /// date; an input without one is an error (`NoInput`), and so is a path
    /// whose stamp was not handed in (`NoTimestamp`).
    pub fn is_up_to_date(&self, ts: &Timestamps) -> (r: Result<bool, Error>)
        ensures
            match up_to_date(ts.entries@, self@) {
                Ok(b) => r == Ok::<bool, Error>(b),
                Err(p) => r is Err && stamp_error(ts.entries@, p, r->Err_0),
            },
    {
        let t = match ts.get(&self.file.path) {
            None => {
                return Err(Error::NoTimestamp(self.file.path.clone()));
            },
            Some(Stamp::Missing) => {
                return Ok(false);
            },
            Some(Stamp::Unsupported) => {
                return Ok(false);
            },
            Some(Stamp::At(t)) => t,
        };
        let ghost tr = self.transitive@;
        assert(self.direct@.subrange(0, self.direct@.len() as int) + tr =~= self.direct@ + tr);
        let mut i: usize = 0;
        while i < self.direct.len()
            invariant
                tr == self.transitive@,
                i <= self.direct@.len(),
                stamp_of(ts.entries@, self.file.path@) == Some(Stamp::At(t)),
                up_to_date(ts.entries@, self@) == inputs_not_newer(
                    ts.entries@,
                    t,
                    self.direct@.subrange(i as int, self.direct@.len() as int) + tr,
                ),
            decreases self.direct@.len() - i,
        {
            let ghost rest = self.direct@.subrange(i as int, self.direct@.len() as int) + tr;
            assert(rest[0] == self.direct@[i as int]);
            assert(rest.subrange(1, rest.len() as int) =~= self.direct@.subrange(
                i + 1,
                self.direct@.len() as int,
            ) + tr);
            match ts.get(&self.direct[i].path) {
                Some(Stamp::At(u)) => {
                    if u > t {
                        return Ok(false);
                    }
                },
                Some(_) => {
                    return Err(Error::NoInput(self.direct[i].path.clone()));
                },
                None => {
                    return Err(Error::NoTimestamp(self.direct[i].path.clone()));
                },
            }
            i += 1;
        }
        assert(self.direct@.subrange(i as int, self.direct@.len() as int) + tr =~= tr);
        assert(tr.subrange(0, tr.len() as int) =~= tr);
        let mut j: usize = 0;
        while j < self.transitive.len()
            invariant
                tr == self.transitive@,
                j <= tr.len(),
                up_to_date(ts.entries@, self@) == inputs_not_newer(
                    ts.entries@,
                    t,
                    tr.subrange(j as int, tr.len() as int),
                ),
            decreases tr.len() - j,
        {
            let ghost rest = tr.subrange(j as int, tr.len() as int);
            assert(rest[0] == tr[j as int]);
            assert(rest.subrange(1, rest.len() as int) =~= tr.subrange(j + 1, tr.len() as int));
            match ts.get(&self.transitive[j].path) {
                Some(Stamp::At(u)) => {
                    if u > t {
                        return Ok(false);
                    }
                },
                Some(_) => {
                    return Err(Error::NoInput(self.transitive[j].path.clone()));
                },
                None => {
                    return Err(Error::NoTimestamp(self.transitive[j].path.clone()));
                },
            }
            j += 1;
        }
        Ok(true)
    }
}


/// Headers that include each other: resolution of either reaches the other,
/// and through it the file itself.
pub proof fn lemma_include_cycle(k: Seq<KnownView>, a: Seq<char>, b: Seq<char>)
    requires
        t_edges(k, a).contains(b),
        t_edges(k, b).contains(a),
    ensures
        closure(k, a).contains(b),
        closure(k, b).contains(a),
        closure(k, a).contains(a),
        closure(k, b).contains(b),
{
    lemma_reach_first(k, a, b);
    lemma_reach_first(k, b, a);
    lemma_reach_step(k, a, b, a);
    lemma_reach_step(k, b, a, b);
}

/// In a file that declares `export module b;`, a later `import :p;`
/// (partition `p` of the module) is recorded as an import of `b:p`.
pub proof fn lemma_partition_import(f: Seq<char>, ds: Seq<Directive>, b: Seq<char>, n: Seq<char>)
    requires
        n.len() > 0,
        n[0] == ':',
    ensures
        modules_of(f, ds.push(Directive::ExpModule(b)).push(Directive::ImpModule(n))).imports.last()
            == b + n,
        modules_of(f, ds.push(Directive::ExpModule(b)).push(Directive::ImpModule(n))).provides
            == Some(b),
{
    let d1 = ds.push(Directive::ExpModule(b));
    let d2 = d1.push(Directive::ImpModule(n));
    assert(d2.drop_last() =~= d1);
    assert(d1.drop_last() =~= ds);
    assert(d2.last() == Directive::ImpModule(n));
    assert(d1.last() == Directive::ExpModule(b));
    let m1 = modules_of(f, d1);
    assert(m1.provides == Some(b));
    let m2 = modules_of(f, d2);
    assert(m2.imports == m1.imports.push(qualified(m1.provides, n)));
    assert(qualified(Some(b), n) == b + n);
}

} // verus!
