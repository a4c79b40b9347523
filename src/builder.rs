//! The build scheduler: queues commands, runs those whose inputs are built,
//! keeps at most a given number of children running, and reaps every child
//! before it reports the end of the build.
//!
//! The scheduler does no I/O: `Builder::step` takes what happened to the
//! children and tells the caller what to do next.
use vstd::prelude::*;
use crate::compiler::gcc::{build_result, has_state, link_inputs, CommandLine, Tools};
use crate::compiler::Compiler;
use crate::dependency::{lemma_path_set_concat, path_set, paths, DepCache, DepFile, Dependency, Timestamps};
use crate::err::Error;
use crate::file_type::{FileState, FileType, Language};
use crate::path::{parent, parent_path};
use crate::text::{str_chars, string_of};

verus! {

/// A command with the files it consumes and the files it produces.
pub struct QCommand {
    pub command: CommandLine,
    pub requires: Vec<DepFile>,
    pub provides: Vec<DepFile>,
}

/// How a child exited: successfully or not, with its exit code if any.
#[derive(Debug, Clone, Copy, PartialEq, Eq, Structural)]
pub struct Exit {
    pub success: bool,
    pub code: Option<i32>,
}

/// What happened since the last step.
pub enum Event {
    /// The build starts, or what the last step asked for was handed in.
    Go,
    /// The child asked for was spawned, or could not be.
    Spawned(Result<(), String>),
    /// The child asked for was polled: still running, or exited.
    Polled(Result<Option<Exit>, String>),
    /// The caller slept a short while.
    Slept,
    /// The child asked for was waited for.
    Waited(Result<Exit, String>),
    /// Every child was waited for (or killed).
    Reaped,
}

/// What the caller is to do next.
pub enum Step {
    /// Create the directories, then spawn the command as the child at
    /// `slot`: a new child where `slot` is the number of children, else in
    /// place of the child there, which has exited.
    Spawn { slot: usize, command: CommandLine, dirs: Vec<String> },
    /// Ask whether the child at `slot` has exited, without blocking.
    Poll { slot: usize },
    /// Sleep a short while.
    Sleep,
    /// Wait for the child at `slot` to exit.
    Wait { slot: usize },
    /// Wait for every child (killing any that cannot be waited for).
    Reap,
    /// The child at `slot` has exited successfully: remove it from the list
    /// as `Vec::swap_remove` does, then step with `Go`.
    Forget { slot: usize },
    /// Hand in the modification time of this path, then step with `Go`.
    Stat(String),
    /// Hand in the text of this file, then step with `Go`.
    Read(String),
    /// The build is over.
    Finish(Result<(), Error>),
}

/// Where the scheduler stands between steps.
pub enum Mode {
    /// About to choose the next command.
    Select,
    /// A command is being spawned at a slot, in place of an exited child or
    /// not.
    Spawning { slot: usize, replace: bool },
    /// Polling the children for a free slot for the pending command.
    Polling { slot: usize },
    /// Polling the children for any that exits, to break a wait on a cycle.
    PollingAny { slot: usize },
    /// Sleeping between two rounds of polls.
    Sleeping { any: bool },
    /// Waiting for the children, the last first, at the end.
    Draining,
    /// Every child is being reaped after a failure.
    Reaping,
    /// Over.
    Done,
}

/// The number of children that may run at once for a machine with
/// `parallelism` hardware threads (`None`: unknown): two fewer, at least one.
pub open spec fn worker_budget(parallelism: Option<usize>) -> usize {
    match parallelism {
        Some(p) => if p > 3 {
            (p - 2) as usize
        } else {
            1
        },
        None => 1,
    }
}

pub fn thread_count_for(parallelism: Option<usize>) -> (r: usize)
    ensures
        r == worker_budget(parallelism),
        r >= 1,
{
    match parallelism {
        Some(p) => if p > 3 {
            p - 2
        } else {
            1
        },
        None => 1,
    }
}

/// The paths that a list of commands produces.
pub open spec fn provided(q: Seq<QCommand>) -> Set<Seq<char>> {
    Set::new(
        |p: Seq<char>|
            exists|i: int| 0 <= i < q.len() && #[trigger] path_set(q[i].provides@).contains(p),
    )
}

/// The language of an executable: C++ where a source is C++.
pub open spec fn exe_language(sources: Seq<String>) -> Language
    decreases sources.len(),
{
    if sources.len() == 0 {
        Language::C
    } else {
        match crate::dependency::type_of_path(sources.last()@) {
            Some(t) => if t.lang == Language::Cpp {
                Language::Cpp
            } else {
                exe_language(sources.drop_last())
            },
            None => exe_language(sources.drop_last()),
        }
    }
}

/// The input file for a source path: its type from its extension.
pub open spec fn source_file(d: DepFile, s: String) -> bool {
    d.path@ == s@ && d.typ == crate::dependency::type_of_path(s@)
}

/// The tools of the compiler for a file of type `t`.
pub open spec fn node_tools(c: &Compiler, t: Option<FileType>) -> Tools {
    match t {
        Some(t) => if t.lang == Language::C {
            c.c.tools()
        } else {
            c.cpp.tools()
        },
        None => c.c.tools(),
    }
}

/// Why turning `node` into a command may fail: the compiler refuses it, a
/// text is needed and not handed in, a source does not exist, a node for
/// an object was resolved before, or a time is needed and not known.
spec fn fetch_failure(b: &Builder, node: Dependency, e: Error) -> bool {
    match e {
        Error::Unread(x) => !crate::dependency::lists(b.cache.table(), x@) && (
        crate::dependency::named_somewhere(b.cache.table(), x@) || exists|
            cmd: CommandLine,
            deps: Vec<Dependency>,
            k: int,
            i: int,
        |
            #[trigger] build_result(
                &node_tools(&b.compiler, node.file.typ),
                node,
                Ok::<(CommandLine, Vec<Dependency>), Error>((cmd, deps)),
            ) && 0 <= k < deps@.len() && 0 <= i < deps@[k].direct@.len() && #[trigger] deps@[k].direct@[i].path@
                == x@),
        Error::NotFound(x) => !crate::dependency::exists_file(b.cache.table(), x@),
        Error::NoTimestamp(x) => crate::dependency::stamp_of(b.stamps.entries@, x@) is None,
        Error::NoInput(x) => crate::dependency::stamp_of(b.stamps.entries@, x@) is Some,
        Error::DuplicateDependency => exists|cmd: CommandLine, deps: Vec<Dependency>, k: int|
            #[trigger] build_result(
                &node_tools(&b.compiler, node.file.typ),
                node,
                Ok::<(CommandLine, Vec<Dependency>), Error>((cmd, deps)),
            ) && 0 <= k < deps@.len() && b.cache.cached(#[trigger] deps@[k].file.path@),
        Error::InvalidFileType(_) | Error::NothingToBuild(_) | Error::StripPrefix { .. } => build_result(
            &node_tools(&b.compiler, node.file.typ),
            node,
            Err(e),
        ),
        _ => false,
    }
}

/// The nodes that a new command requires are pushed on the queue in place
/// of the node it was made from: none was claimed, none is up to date, and
/// all are claimed now.
spec fn pushed_nodes(o: &Builder, n: &Builder, c: QCommand) -> bool {
    let n0 = o.dep_queue@.len() - 1;
    &&& n.dep_queue@.len() == n0 + c.requires@.len()
    &&& n.dep_queue@.subrange(0, n0) == o.dep_queue@.drop_last()
    &&& forall|j: int|
        0 <= j < c.requires@.len() ==> #[trigger] n.dep_queue@[n0 + j].file == c.requires@[j]
            && crate::dependency::up_to_date(n.stamps.entries@, n.dep_queue@[n0 + j]@) == Ok::<
            bool,
            Seq<char>,
        >(false) && !o.claims().contains(c.requires@[j].path@) && !path_set(o.built@).contains(
            c.requires@[j].path@,
        ) && !provided(o.pool@).contains(c.requires@[j].path@)
    &&& n.claims() == o.claims() + paths(c.requires@)
}

/// What a list of claims holds stays held as it grows.
proof fn lemma_extends_set(a: Seq<Seq<char>>, b: Seq<Seq<char>>)
    requires
        extends(a, b),
    ensures
        b.to_set().subset_of(a.to_set()),
{
    assert forall|x: Seq<char>| b.to_set().contains(x) implies a.to_set().contains(x) by {
        let i = choose|i: int| 0 <= i < b.len() && b[i] == x;
        assert(a[i] == b[i]);
    }
}

/// A failure: with children running, they are reaped first and the error
/// is kept for the end; with none, the build ends with it at once.
pub open spec fn fails_with(r: Step, kept: Option<Error>, running: nat, e: Error) -> bool {
    if running > 0 {
        r is Reap && kept == Some(e)
    } else {
        r matches Step::Finish(Err(x)) && x == e
    }
}

/// What each step does, by the mode it starts in and the event it takes.
pub open spec fn step_rule(
    m: Mode,
    ev: Event,
    running: nat,
    budget: nat,
    cmds: Seq<QCommand>,
    nodes: nat,
    built: Seq<DepFile>,
    pending: Option<QCommand>,
    failure: Option<Error>,
    r: Step,
    m2: Mode,
    failure2: Option<Error>,
    pool2: Seq<QCommand>,
) -> bool {
    match (m, ev) {
        (Mode::Select, Event::Go) => choice_rule(cmds, nodes, built, running, budget, r),
        (Mode::Spawning { slot, replace }, Event::Spawned(Ok(()))) => {
            &&& pending is Some
            &&& slot < pool2.len()
            &&& pool2[slot as int] == pending->Some_0
            &&& pool2.len() == if replace {
                running
            } else {
                running + 1
            }
        },
        (Mode::Spawning { .. }, Event::Spawned(Err(msg))) => fails_with(r, failure2, running, Error::Io(msg)),
        (Mode::Polling { slot }, Event::Polled(Ok(Some(e)))) => if e.success {
            r is Spawn && spawn_slot(r) == slot && m2 == Mode::Spawning { slot, replace: true }
        } else {
            fails_with(r, failure2, running, Error::ProcessFailed(e.code))
        },
        (Mode::PollingAny { slot }, Event::Polled(Ok(Some(e)))) => if e.success {
            r == Step::Forget { slot }
        } else {
            fails_with(r, failure2, running, Error::ProcessFailed(e.code))
        },
        (Mode::Polling { slot }, Event::Polled(Ok(None))) => if slot + 1 < running {
            r == Step::Poll { slot: (slot + 1) as usize }
        } else {
            r is Sleep
        },
        (Mode::PollingAny { slot }, Event::Polled(Ok(None))) => if slot + 1 < running {
            r == Step::Poll { slot: (slot + 1) as usize }
        } else {
            r is Sleep
        },
        (Mode::Polling { .. }, Event::Polled(Err(msg))) => fails_with(r, failure2, running, Error::Io(msg)),
        (Mode::PollingAny { .. }, Event::Polled(Err(msg))) => fails_with(r, failure2, running, Error::Io(msg)),
        (Mode::Sleeping { .. }, Event::Slept) => r == Step::Poll { slot: 0 },
        (Mode::Draining, Event::Waited(Ok(e))) => if e.success {
            running > 0 ==> r == Step::Forget { slot: (running - 1) as usize }
        } else {
            fails_with(r, failure2, running, Error::ProcessFailed(e.code))
        },
        (Mode::Draining, Event::Waited(Err(msg))) => fails_with(r, failure2, running, Error::Io(msg)),
        (Mode::Draining, Event::Go) => if running == 0 {
            finishes_ok(r)
        } else {
            r == Step::Wait { slot: (running - 1) as usize }
        },
        (Mode::Reaping, Event::Reaped) => r matches Step::Finish(Err(x)) && failure == Some(x),
        _ => true,
    }
}

/// What happens to a child seen to exit successfully: its outputs join the
/// built files, and it leaves the pool (in place of the child it lets in,
/// or as `Vec::swap_remove` removes it, or from the end while draining).
pub open spec fn retire_rule(
    m: Mode,
    ev: Event,
    pool: Seq<QCommand>,
    built: Seq<DepFile>,
    pool2: Seq<QCommand>,
    built2: Seq<DepFile>,
) -> bool {
    match (m, ev) {
        (Mode::PollingAny { slot }, Event::Polled(Ok(Some(e)))) => e.success && slot < pool.len() ==> {
            &&& pool2 == pool.update(slot as int, pool.last()).drop_last()
            &&& built2 == built + pool[slot as int].provides@
        },
        (Mode::Spawning { slot, replace }, Event::Spawned(Ok(()))) => replace && slot < pool.len()
            ==> built2 == built + pool[slot as int].provides@,
        (Mode::Draining, Event::Waited(Ok(e))) => e.success && pool.len() > 0 ==> {
            &&& pool2 == pool.drop_last()
            &&& built2 == built
        },
        _ => true,
    }
}

/// A step sleeps only after a round of polls found every child running.
pub open spec fn sleeps_after_round(m: Mode, ev: Event, running: nat) -> bool {
    (ev matches Event::Polled(Ok(None))) && match m {
        Mode::Polling { slot } => slot + 1 >= running,
        Mode::PollingAny { slot } => slot + 1 >= running,
        _ => false,
    }
}

pub open spec fn finishes_ok(r: Step) -> bool {
    r matches Step::Finish(Ok(()))
}

pub open spec fn finishes_with_cycle(r: Step) -> bool {
    r matches Step::Finish(Err(Error::DependencyCycle))
}

/// What the scheduler does when it is free to choose: spawn a ready command
/// where a slot is free, else poll for one; end the build when nothing is
/// queued and no child runs, else wait for the last child; on a cycle with
/// no child running, end with `DependencyCycle`.
pub open spec fn choice_rule(
    cmds: Seq<QCommand>,
    nodes: nat,
    built: Seq<DepFile>,
    running: nat,
    budget: nat,
    r: Step,
) -> bool {
    &&& any_ready(cmds, built) && running < budget ==> r is Spawn && spawn_slot(r) == running
    &&& any_ready(cmds, built) && running >= budget ==> r == Step::Poll { slot: 0 }
    &&& nodes == 0 && cmds.len() == 0 && running == 0 ==> finishes_ok(r)
    &&& nodes == 0 && cmds.len() == 0 && running > 0 ==> r == Step::Wait {
        slot: (running - 1) as usize,
    }
    &&& nodes == 0 && cmds.len() > 0 && !any_ready(cmds, built) && running == 0 ==> finishes_with_cycle(r)
    &&& nodes == 0 && cmds.len() > 0 && !any_ready(cmds, built) && running > 0 ==> r == Step::Poll {
        slot: 0,
    }
    &&& nodes > 0 && !any_ready(cmds, built) ==> makes_progress(r)
}

/// A step that moves a queued node on: it spawns or polls for a command, asks
/// for what a lookup lacks, or ends the build with the error of a lookup.
pub open spec fn makes_progress(r: Step) -> bool {
    r is Spawn || r == Step::Poll { slot: 0 } || r is Read || r is Stat || r is Reap || (r is Finish
        && r->Finish_0 is Err)
}

/// A `Read` names a file whose text was not handed in; a `Stat` a path whose
/// time was not handed in.
pub open spec fn asks_only_missing(
    r: Step,
    k: Seq<crate::dependency::KnownView>,
    ts: Seq<(String, crate::dependency::Stamp)>,
) -> bool {
    &&& r is Read ==> !crate::dependency::lists(k, r->Read_0@)
    &&& r is Stat ==> crate::dependency::stamp_of(ts, r->Stat_0@) is None
}

/// Every input of the command is built.
pub open spec fn ready(c: QCommand, built: Seq<DepFile>) -> bool {
    path_set(c.requires@).subset_of(path_set(built))
}

/// Some queued command is ready.
pub open spec fn any_ready(q: Seq<QCommand>, built: Seq<DepFile>) -> bool {
    exists|i: int| 0 <= i < q.len() && ready(#[trigger] q[i], built)
}

/// `c` is the ready command queued last in `q`, and `q2` is `q` without it.
pub open spec fn takes_last_ready(q: Seq<QCommand>, q2: Seq<QCommand>, c: QCommand, built: Seq<DepFile>) -> bool {
    exists|i: int|
        0 <= i < q.len() && #[trigger] q[i] == c && ready(c, built) && q2 == q.remove(i) && forall|j: int|
            i < j < q.len() ==> !ready(#[trigger] q[j], built)
}

/// Why preparing a build may fail: a file whose text is needed and not
/// handed in, a source that does not exist, a target resolved before, or a
/// path whose time is needed and not known.
pub open spec fn build_all_failure(b: &Builder, target: Seq<char>, sources: Seq<String>, e: Error) -> bool {
    match e {
        Error::Unread(x) => !crate::dependency::lists(b.cache_table(), x@) && (
        crate::dependency::named_somewhere(b.cache_table(), x@) || exists|i: int|
            0 <= i < sources.len() && #[trigger] sources[i]@ == x@),
        Error::NotFound(x) => !crate::dependency::exists_file(b.cache_table(), x@),
        Error::DuplicateDependency => b.resolved_file(target),
        Error::NoTimestamp(x) => crate::dependency::stamp_of(b.stamps_view(), x@) is None,
        Error::NoInput(x) => crate::dependency::stamp_of(b.stamps_view(), x@) is Some,
        _ => false,
    }
}

/// The node that links an executable from its sources: its inputs are the
/// sources, it depends on everything they include.
pub open spec fn exe_node(
    d: Dependency,
    target: Seq<char>,
    sources: Seq<String>,
    k: Seq<crate::dependency::KnownView>,
) -> bool {
    &&& d.file.path@ == target
    &&& d.file.typ == Some(FileType { lang: exe_language(sources), state: FileState::Executable })
    &&& d.direct@.len() == sources.len()
    &&& forall|j: int| 0 <= j < sources.len() ==> source_file(#[trigger] d.direct@[j], sources[j])
    &&& path_set(d.transitive@) == crate::dependency::inputs_closure(k, d.direct@)
}

/// `a` is `b` followed by more.
pub open spec fn extends(a: Seq<Seq<char>>, b: Seq<Seq<char>>) -> bool {
    b.len() <= a.len() && forall|i: int| 0 <= i < b.len() ==> #[trigger] a[i] == b[i]
}

/// The work that a queue of nodes can still make: one command per node, and
/// one more per input of an executable.
pub open spec fn work(q: Seq<Dependency>) -> nat
    decreases q.len(),
{
    if q.len() == 0 {
        0
    } else {
        work(q.drop_last()) + weight(q.last())
    }
}

/// The commands that a node can still make: its own, and one per input of
/// an executable.
pub open spec fn weight(d: Dependency) -> nat {
    1 + if has_state(d.file.typ, FileState::Executable) {
        d.direct@.len()
    } else {
        0
    }
}

proof fn lemma_work_push(q: Seq<Dependency>, x: Dependency)
    ensures
        work(q.push(x)) == work(q) + weight(x),
{
    assert(q.push(x).drop_last() =~= q);
}

/// The scheduler.
pub struct Builder {
    thread_count: usize,
    compiler: Compiler,
    print_command: bool,
    built: Vec<DepFile>,
    dep_queue: Vec<Dependency>,
    command_queue: Vec<QCommand>,
    cache: DepCache,
    pool: Vec<QCommand>,
    stamps: Timestamps,
    claimed: Vec<String>,
    pending: Option<QCommand>,
    failure: Option<Error>,
    mode: Mode,
}


/// The sources of a link are no more than its inputs.
proof fn lemma_link_sources_len(t: &Tools, ds: Seq<DepFile>)
    requires
        link_inputs(t, ds) is Ok,
    ensures
        link_inputs(t, ds)->Ok_0.1.len() <= ds.len(),
    decreases ds.len(),
{
    if ds.len() > 0 {
        lemma_link_sources_len(t, ds.drop_last());
    }
}

proof fn lemma_wf_same(a: &Builder, b: &Builder)
    requires
        a.wf(),
        b.cache.wf(),
        a.thread_count == b.thread_count,
        a.pool == b.pool,
        a.built == b.built,
        a.pending is None,
        b.pending is None,
        a.mode == b.mode,
        a.failure == b.failure,
        a.claimed == b.claimed,
        a.command_queue == b.command_queue,
        a.dep_queue@.len() == b.dep_queue@.len(),
        forall|i: int| 0 <= i < a.dep_queue@.len() ==> #[trigger] a.dep_queue@[i].file == b.dep_queue@[i].file,
    ensures
        b.wf(),
{
    assert forall|i: int| 0 <= i < b.dep_queue@.len() implies crate::dependency::texts(
        b.claimed@,
    ).contains(#[trigger] b.dep_queue@[i].file.path@) by {
        assert(a.dep_queue@[i].file == b.dep_queue@[i].file);
        assert(crate::dependency::texts(a.claimed@).contains(a.dep_queue@[i].file.path@));
    }
}

proof fn lemma_push_no_dup(s: Seq<Seq<char>>, x: Seq<char>)
    requires
        s.no_duplicates(),
        !s.contains(x),
    ensures
        s.push(x).no_duplicates(),
{
    assert forall|i: int, j: int| 0 <= i < s.len() + 1 && 0 <= j < s.len() + 1 && i != j implies s.push(
        x,
    )[i] != s.push(x)[j] by {
        if i == s.len() {
            assert(s[j] != x);
        } else if j == s.len() {
            assert(s[i] != x);
        }
    }
}

/// Appends copies of files.
fn extend_files(v: &mut Vec<DepFile>, files: &Vec<DepFile>)
    ensures
        final(v)@ == old(v)@ + files@,
{
    let ghost b0 = v@;
    let mut k: usize = 0;
    while k < files.len()
        invariant
            k <= files@.len(),
            v@ == b0 + files@.subrange(0, k as int),
        decreases files@.len() - k,
    {
        v.push(files[k].duplicate());
        k += 1;
        assert(v@ =~= b0 + files@.subrange(0, k as int));
    }
    assert(files@.subrange(0, files@.len() as int) =~= files@);
}

/// The build of each file is planned once: no file is claimed twice, and
/// every queued node holds the claim of its file. Claims are only ever
/// added (see `Builder::step`), and a node that a command requires is queued
/// only for a file not claimed before, so no such node is queued twice.
pub proof fn lemma_planned_once(b: &Builder)
    requires
        b.wf(),
    ensures
        b.claims().no_duplicates(),
        forall|i: int|
            0 <= i < b.queued().0.len() ==> b.claims().contains(#[trigger] b.queued().0[i].file.path@),
{
}

/// A copy of a command line.
pub fn copy_command(c: &CommandLine) -> (r: CommandLine)
    ensures
        r.program == c.program,
        r.args@ == c.args@,
{
    CommandLine { program: c.program.clone(), args: crate::dependency::copy_strings(&c.args) }
}

/// The directories in which a command's outputs go.
pub fn output_dirs(provides: &Vec<DepFile>) -> (r: Vec<String>)
    ensures
        crate::dependency::texts(r@) == paths(provides@).map_values(|p: Seq<char>| parent(p)),
{
    let mut r: Vec<String> = Vec::new();
    let mut i: usize = 0;
    while i < provides.len()
        invariant
            i <= provides@.len(),
            crate::dependency::texts(r@) == paths(provides@).subrange(0, i as int).map_values(
                |p: Seq<char>| parent(p),
            ),
        decreases provides@.len() - i,
    {
        let d = string_of(&parent_path(&str_chars(provides[i].path.as_str())));
        let ghost rb = r@;
        r.push(d);
        assert(crate::dependency::texts(r@) =~= crate::dependency::texts(rb).push(d@));
        i += 1;
        assert(paths(provides@).subrange(0, i as int).map_values(|p: Seq<char>| parent(p))
            =~= paths(provides@).subrange(0, i - 1).map_values(|p: Seq<char>| parent(p)).push(
            parent(provides@[i - 1].path@),
        ));
    }
    assert(paths(provides@).subrange(0, provides@.len() as int) =~= paths(provides@));
    r
}

fn contains_path(v: &Vec<String>, p: &String) -> (r: bool)
    ensures
        r == crate::dependency::texts(v@).contains(p@),
{
    let mut i: usize = 0;
    while i < v.len()
        invariant
            i <= v@.len(),
            forall|j: int| 0 <= j < i ==> v@[j]@ != p@,
        decreases v@.len() - i,
    {
        if v[i] == *p {
            assert(crate::dependency::texts(v@)[i as int] == p@);
            return true;
        }
        i += 1;
    }
    proof {
        if crate::dependency::texts(v@).contains(p@) {
            let j = choose|j: int| 0 <= j < v@.len() && crate::dependency::texts(v@)[j] == p@;
            assert(v@[j]@ == p@);
        }
    }
    false
}

fn contains_file(v: &Vec<DepFile>, p: &String) -> (r: bool)
    ensures
        r == path_set(v@).contains(p@),
{
    let mut i: usize = 0;
    while i < v.len()
        invariant
            i <= v@.len(),
            forall|j: int| 0 <= j < i ==> v@[j].path@ != p@,
        decreases v@.len() - i,
    {
        if v[i].path == *p {
            assert(paths(v@)[i as int] == p@);
            return true;
        }
        i += 1;
    }
    proof {
        if path_set(v@).contains(p@) {
            let j = choose|j: int| 0 <= j < paths(v@).len() && paths(v@)[j] == p@;
            assert(v@[j].path@ == p@);
        }
    }
    false
}

/// Whether every file in `req` is in `built`.
fn all_built(req: &Vec<DepFile>, built: &Vec<DepFile>) -> (r: bool)
    ensures
        r == path_set(req@).subset_of(path_set(built@)),
{
    let mut i: usize = 0;
    while i < req.len()
        invariant
            i <= req@.len(),
            forall|j: int| 0 <= j < i ==> path_set(built@).contains(#[trigger] req@[j].path@),
        decreases req@.len() - i,
    {
        if !contains_file(built, &req[i].path) {
            assert(paths(req@)[i as int] == req@[i as int].path@);
            return false;
        }
        i += 1;
    }
    proof {
        assert forall|p: Seq<char>| path_set(req@).contains(p) implies path_set(built@).contains(p) by {
            let j = choose|j: int| 0 <= j < paths(req@).len() && paths(req@)[j] == p;
            assert(req@[j].path@ == p);
        }
    }
    true
}

impl Builder {
    /// The number of children that may run at once.
    pub closed spec fn budget(&self) -> nat {
        self.thread_count as nat
    }

    /// The number of children running.
    pub closed spec fn running(&self) -> nat {
        self.pool@.len()
    }

    /// The files whose commands have completed.
    pub closed spec fn built_paths(&self) -> Set<Seq<char>> {
        path_set(self.built@)
    }

    /// The command about to be spawned, if any.
    pub closed spec fn pending_command(&self) -> Option<QCommand> {
        self.pending
    }

    /// The commands of the running children, by slot.
    pub closed spec fn running_commands(&self) -> Seq<QCommand> {
        self.pool@
    }

    /// The files for which a node was queued, in order: the build of each is
    /// planned once.
    pub closed spec fn claims(&self) -> Seq<Seq<char>> {
        crate::dependency::texts(self.claimed@)
    }

    /// Whether the file was resolved and its node kept.
    pub closed spec fn resolved_file(&self, p: Seq<char>) -> bool {
        self.cache.cached(p)
    }

    /// The files handed in, with their directives.
    pub closed spec fn cache_table(&self) -> Seq<crate::dependency::KnownView> {
        self.cache.table()
    }

    /// The modification times handed in.
    pub closed spec fn stamps_view(&self) -> Seq<(String, crate::dependency::Stamp)> {
        self.stamps.entries@
    }

    pub closed spec fn mode_of(&self) -> Mode {
        self.mode
    }

    /// The error that ends the build once the children are reaped.
    pub closed spec fn failure_of(&self) -> Option<Error> {
        self.failure
    }

    /// The files built so far, in order.
    pub closed spec fn built_files(&self) -> Seq<DepFile> {
        self.built@
    }

    /// The queued nodes and commands.
    pub closed spec fn queued(&self) -> (Seq<Dependency>, Seq<QCommand>) {
        (self.dep_queue@, self.command_queue@)
    }

    /// The scheduler's own consistency.
    pub closed spec fn wf(&self) -> bool {
        &&& self.wf_core()
        &&& self.mode_ok()
    }

    /// Consistency whatever the mode.
    pub closed spec fn wf_core(&self) -> bool {
        &&& self.thread_count >= 1
        &&& crate::dependency::texts(self.claimed@).no_duplicates()
        &&& forall|i: int|
            0 <= i < self.dep_queue@.len() ==> crate::dependency::texts(self.claimed@).contains(
                #[trigger] self.dep_queue@[i].file.path@,
            )
        &&& !(self.failure matches Some(Error::DependencyCycle))
        &&& self.pool@.len() <= self.thread_count
        &&& self.cache.wf()
        &&& forall|i: int|
            0 <= i < self.pool@.len() ==> path_set(#[trigger] self.pool@[i].requires@).subset_of(
                path_set(self.built@),
            )
        &&& (self.pending matches Some(c) ==> path_set(c.requires@).subset_of(
            path_set(self.built@),
        ))
        &&& path_set(self.built@).subset_of(self.claims().to_set())
        &&& forall|i: int|
            0 <= i < self.pool@.len() ==> path_set(#[trigger] self.pool@[i].provides@).subset_of(
                self.claims().to_set(),
            )
        &&& forall|i: int|
            0 <= i < self.command_queue@.len() ==> path_set(
                #[trigger] self.command_queue@[i].provides@,
            ).subset_of(self.claims().to_set())
        &&& (self.pending matches Some(c) ==> path_set(c.provides@).subset_of(
            self.claims().to_set(),
        ))
    }

    /// The mode agrees with the pending command and the children.
    pub closed spec fn mode_ok(&self) -> bool {
        match self.mode {
            Mode::Select => self.pending is None,
            Mode::Spawning { slot, replace } => self.pending is Some && (if replace {
                slot < self.pool@.len()
            } else {
                slot == self.pool@.len() && self.pool@.len() < self.thread_count
            }),
            Mode::Polling { slot } => self.pending is Some && slot < self.pool@.len(),
            Mode::PollingAny { slot } => self.pending is None && slot < self.pool@.len(),
            Mode::Sleeping { any } => self.pool@.len() > 0 && (any <==> self.pending is None),
            Mode::Draining => self.pending is None,
            Mode::Reaping => self.pending is None && self.failure is Some,
            Mode::Done => self.pending is None && self.pool@.len() == 0,
        }
    }

    /// A scheduler with the given compilers, at most `thread_count` children
    /// at once (at least one), and nothing queued.
    pub fn new(compiler: Compiler, thread_count: usize, print_command: bool) -> (r: Builder)
        ensures
            r.wf(),
            r.budget() == if thread_count == 0 {
                1
            } else {
                thread_count
            },
            r.running() == 0,
            r.built_paths() == Set::<Seq<char>>::empty(),
            r.mode_of() == Mode::Select,
            r.prints() == print_command,
    {
        let r = Builder {
            thread_count: if thread_count == 0 {
                1
            } else {
                thread_count
            },
            compiler,
            print_command,
            built: Vec::new(),
            dep_queue: Vec::new(),
            command_queue: Vec::new(),
            cache: DepCache::new(),
            pool: Vec::new(),
            stamps: Timestamps::new(),
            claimed: Vec::new(),
            pending: None,
            failure: None,
            mode: Mode::Select,
        };
        assert(path_set(r.built@) =~= Set::<Seq<char>>::empty());
        r
    }

    /// The scheduler for a profile of the configuration, with the C and C++
    /// compilers found for it, for a machine with `parallelism` hardware
    /// threads. Fails where the profile's compiler settings are refused.
    pub fn from_config(
        conf: &crate::config::Config,
        release: bool,
        c: (String, crate::compiler::CompilerType),
        cpp: (String, crate::compiler::CompilerType),
        parallelism: Option<usize>,
    ) -> (r: Result<Builder, Error>)
        ensures
            ({
                let cc = if release {
                    &conf.release_build.compiler_conf
                } else {
                    &conf.debug_build.compiler_conf
                };
                r is Ok <==> crate::compiler::gcc::c_config_error(cc) is None
                    && crate::compiler::gpp::cpp_config_error(cc) is None
            }),
            r is Ok ==> r->Ok_0.wf() && r->Ok_0.budget() == worker_budget(parallelism)
                && r->Ok_0.running() == 0 && r->Ok_0.built_paths() == Set::<Seq<char>>::empty()
                && r->Ok_0.prints(),
    {
        let build = if release {
            &conf.release_build
        } else {
            &conf.debug_build
        };
        let compiler = match Compiler::new(c, cpp, &build.compiler_conf) {
            Ok(x) => x,
            Err(e) => {
                return Err(e);
            },
        };
        Ok(Builder::new(compiler, thread_count_for(parallelism), true))
    }

    /// The number of children running.
    pub fn running_count(&self) -> (r: usize)
        ensures
            r == self.running(),
    {
        self.pool.len()
    }

    /// Whether spawned commands are to be printed.
    pub closed spec fn prints(&self) -> bool {
        self.print_command
    }

    /// Whether spawned commands are to be printed.
    pub fn prints_commands(&self) -> (r: bool)
        ensures
            r == self.prints(),
    {
        self.print_command
    }

    /// Hands in the text of a file (`None`: it does not exist).
    pub fn add_file(&mut self, path: String, text: Option<Vec<char>>)
        requires
            old(self).wf(),
        ensures
            final(self).wf(),
            final(self).stamps_view() == old(self).stamps_view(),
            final(self).queued() == old(self).queued(),
            crate::dependency::lists(old(self).cache_table(), path@) ==> final(self).cache_table()
                == old(self).cache_table(),
            !crate::dependency::lists(old(self).cache_table(), path@) ==> final(self).cache_table()
                == old(self).cache_table().push(
                (
                    path@,
                    match text {
                        Some(t) => Some(crate::include_deps::scan(t@)),
                        None => None,
                    },
                ),
            ),
            final(self).budget() == old(self).budget(),
            final(self).running() == old(self).running(),
            final(self).built_paths() == old(self).built_paths(),
            final(self).mode_of() == old(self).mode_of(),
    {
        self.cache.add_file(path, text);
    }

    /// Hands in the modification time of a path.
    pub fn add_stamp(&mut self, path: String, stamp: crate::dependency::Stamp)
        requires
            old(self).wf(),
        ensures
            final(self).wf(),
            final(self).stamps_view() == old(self).stamps_view().push((path, stamp)),
            final(self).cache_table() == old(self).cache_table(),
            final(self).queued() == old(self).queued(),
            final(self).budget() == old(self).budget(),
            final(self).running() == old(self).running(),
            final(self).built_paths() == old(self).built_paths(),
            final(self).mode_of() == old(self).mode_of(),
    {
        self.stamps.add(path, stamp);
    }

    /// Queues a node unless its file is up to date. Its file is claimed
    /// unless it was claimed before.
    pub fn queue_target(&mut self, target: Dependency) -> (r: Result<(), Error>)
        requires
            old(self).wf(),
        ensures
            final(self).wf(),
            final(self).budget() == old(self).budget(),
            final(self).running() == old(self).running(),
            final(self).built_paths() == old(self).built_paths(),
            final(self).mode_of() == old(self).mode_of(),
            final(self).cache_table() == old(self).cache_table(),
            match crate::dependency::up_to_date(old(self).stamps_view(), target@) {
                Ok(true) => r is Ok && final(self).queued() == old(self).queued(),
                Ok(false) => r is Ok && final(self).queued().0 == old(self).queued().0.push(target)
                    && final(self).queued().1 == old(self).queued().1 && final(self).claims() == if old(
                    self,
                ).claims().contains(target.file.path@) {
                    old(self).claims()
                } else {
                    old(self).claims().push(target.file.path@)
                },
                Err(p) => r is Err && crate::dependency::stamp_error(
                    old(self).stamps_view(),
                    p,
                    r->Err_0,
                ) && final(self).queued() == old(self).queued(),
            },
    {
        match target.is_up_to_date(&self.stamps) {
            Ok(true) => Ok(()),
            Ok(false) => {
                let ghost c0 = self.claimed@;
                let ghost q0 = self.dep_queue@;
                if !contains_path(&self.claimed, &target.file.path) {
                    let p = target.file.path.clone();
                    self.claimed.push(p);
                    assert(crate::dependency::texts(self.claimed@) =~= crate::dependency::texts(c0).push(
                        target.file.path@,
                    ));
                    proof {
                        lemma_push_no_dup(crate::dependency::texts(c0), target.file.path@);
                    }
                }
                assert(crate::dependency::texts(self.claimed@).contains(target.file.path@)) by {
                    if crate::dependency::texts(c0).contains(target.file.path@) {
                    } else {
                        assert(crate::dependency::texts(self.claimed@)[c0.len() as int] == target.file.path@);
                    }
                }
                self.dep_queue.push(target);
                proof {
                    assert(extends(self.claims(), crate::dependency::texts(c0)));
                    lemma_extends_set(self.claims(), crate::dependency::texts(c0));
                    assert forall|i: int| 0 <= i < self.dep_queue@.len() implies crate::dependency::texts(
                        self.claimed@,
                    ).contains(#[trigger] self.dep_queue@[i].file.path@) by {
                        if i < q0.len() {
                            assert(self.dep_queue@[i] == q0[i]);
                            let j = choose|j: int| 0 <= j < crate::dependency::texts(c0).len() && crate::dependency::texts(c0)[j] == q0[i].file.path@;
                            assert(crate::dependency::texts(self.claimed@)[j] == q0[i].file.path@);
                        }
                    }
                }
                Ok(())
            },
            Err(e) => Err(e),
        }
    }

    /// Prepares the build of an executable from its sources: resolves what
    /// the sources include and queues the link unless it is up to date.
    /// `Unread` and `NoTimestamp` name what to hand in before calling again.
    pub fn build_all(&mut self, target: String, sources: &Vec<String>) -> (r: Result<(), Error>)
        requires
            old(self).wf(),
        ensures
            final(self).wf(),
            final(self).budget() == old(self).budget(),
            final(self).running() == old(self).running(),
            final(self).built_paths() == old(self).built_paths(),
            final(self).mode_of() == old(self).mode_of(),
            r is Err ==> final(self).queued() == old(self).queued(),
            final(self).queued().1 == old(self).queued().1,
            final(self).cache_table() == old(self).cache_table(),
            r is Ok ==> exists|node: Dependency|
                exe_node(node, target@, sources@, old(self).cache_table()) && match crate::dependency::up_to_date(
                    old(self).stamps_view(),
                    #[trigger] node@,
                ) {
                    Ok(true) => final(self).queued() == old(self).queued(),
                    Ok(false) => final(self).queued().0 == old(self).queued().0.push(node),
                    Err(_) => false,
                },
            r is Err ==> build_all_failure(old(self), target@, sources@, r->Err_0),
            crate::dependency::table_closed(old(self).cache_table()) && (forall|i: int|
                0 <= i < sources@.len() ==> crate::dependency::exists_file(
                    old(self).cache_table(),
                    #[trigger] sources@[i]@,
                )) && !old(self).resolved_file(target@) ==> r is Ok || r->Err_0 is NoTimestamp
                || r->Err_0 is NoInput,
    {
        let mut lang = Language::C;
        let mut direct: Vec<DepFile> = Vec::new();
        let mut i: usize = 0;
        while i < sources.len()
            invariant
                i <= sources@.len(),
                direct@.len() == i,
                forall|j: int| 0 <= j < i ==> source_file(#[trigger] direct@[j], sources@[j]),
                lang == exe_language(sources@.subrange(0, i as int)),
            decreases sources@.len() - i,
        {
            assert(sources@.subrange(0, i + 1).drop_last() =~= sources@.subrange(0, i as int));
            let ghost d0 = direct@;
            let f = DepFile::new(sources[i].clone());
            assert(f.path@ == sources@[i as int]@);
            let ghost fv = f;
            if let Some(t) = f.typ {
                if t.lang == Language::Cpp {
                    lang = Language::Cpp;
                }
            }
            direct.push(f);
            proof {
                assert forall|j: int| 0 <= j < i + 1 implies source_file(#[trigger] direct@[j], sources@[j]) by {
                    if j < i {
                        assert(direct@[j] == d0[j]);
                    } else {
                        assert(direct@[j] == fv);
                    }
                }
            }
            i += 1;
        }
        assert(sources@.subrange(0, sources@.len() as int) =~= sources@);
        let ghost tv = target@;
        let file = DepFile { path: target, typ: Some(FileType { lang, state: FileState::Executable }) };
        let mut dep = Dependency::new(file, direct, Vec::new());
        let ghost d0 = dep;
        match self.cache.fill_dependency(&mut dep) {
            Ok(()) => {},
            Err(e) => {
                proof {
                    if e is NotFound {
                        let x = e->NotFound_0;
                        assert(!crate::dependency::exists_file(self.cache_table(), x@));
                    }
                    if e is Unread {
                        let x = e->Unread_0;
                        if !crate::dependency::named_somewhere(self.cache_table(), x@) {
                            let i = choose|i: int|
                                0 <= i < d0.direct@.len() && crate::dependency::scannable(d0.direct@[i])
                                    && #[trigger] d0.direct@[i].path@ == x@;
                            assert(source_file(d0.direct@[i], sources@[i]));
                        }
                    }
                }
                return Err(e);
            },
        }
        proof {
            assert(path_set(d0.transitive@) =~= Set::<Seq<char>>::empty());
            assert(path_set(dep.transitive@) =~= crate::dependency::inputs_closure(
                self.cache_table(),
                dep.direct@,
            ));
            assert(exe_node(dep, tv, sources@, self.cache_table()));
        }
        let ghost dv = dep;
        let r = self.queue_target(dep);
        proof {
            if r is Ok {
                assert(exe_node(dv, tv, sources@, old(self).cache_table()) && match crate::dependency::up_to_date(
                    old(self).stamps_view(),
                    dv@,
                ) {
                    Ok(true) => self.queued() == old(self).queued(),
                    Ok(false) => self.queued().0 == old(self).queued().0.push(dv),
                    Err(_) => false,
                });
            } else {
                let p = choose|p: Seq<char>| crate::dependency::up_to_date(old(self).stamps_view(), dv@) == Err::<bool, Seq<char>>(p);
                assert(crate::dependency::stamp_error(old(self).stamps_view(), p, r->Err_0));
            }
        }
        r
    }

    /// Turns the next queued node into a command: the compile or link that
    /// produces it, which requires the nodes that it newly queues. Nodes
    /// whose files are claimed already, or are up to date, are not queued.
    /// On an error nothing is queued or taken from the queue.
    #[verifier::rlimit(60)]
    fn fetch_command(&mut self) -> (r: Result<Option<QCommand>, Error>)
        requires
            old(self).wf(),
            old(self).pending is None,
        ensures
            final(self).wf(),
            final(self).thread_count == old(self).thread_count,
            final(self).pool == old(self).pool,
            final(self).built == old(self).built,
            final(self).mode == old(self).mode,
            final(self).pending is None,
            final(self).command_queue == old(self).command_queue,
            final(self).stamps == old(self).stamps,
            final(self).compiler == old(self).compiler,
            final(self).cache.table() == old(self).cache.table(),
            extends(final(self).claims(), old(self).claims()),
            r is Err ==> work(final(self).dep_queue@) == work(old(self).dep_queue@),
            old(self).dep_queue@.len() > 0 ==> !(r matches Ok(None)),
            old(self).dep_queue@.len() == 0 ==> (r matches Ok(None)),
            r is Err ==> final(self).dep_queue@.len() == old(self).dep_queue@.len()
                && final(self).dep_queue@.drop_last() == old(self).dep_queue@.drop_last()
                && final(self).dep_queue@.last()@ == old(self).dep_queue@.last()@
                && fetch_failure(&*final(self), old(self).dep_queue@.last(), r->Err_0),
            match r {
                Ok(Some(c)) => {
                    &&& path_set(c.provides@).subset_of(final(self).claims().to_set())
                    &&& work(final(self).dep_queue@) < work(old(self).dep_queue@)
                    &&& c.provides@.len() == 1
                    &&& c.provides@[0] == old(self).dep_queue@.last().file
                    &&& exists|deps: Vec<Dependency>|
                        #[trigger] build_result(
                            &node_tools(&old(self).compiler, old(self).dep_queue@.last().file.typ),
                            old(self).dep_queue@.last(),
                            Ok::<(CommandLine, Vec<Dependency>), Error>((c.command, deps)),
                        )
                    &&& pushed_nodes(&*old(self), &*final(self), c)
                },
                Ok(None) => old(self).dep_queue@.len() == 0 && final(self).dep_queue@.len() == 0,
                Err(_) => true,
            },
    {
        let file = match self.dep_queue.pop() {
            Some(f) => f,
            None => {
                return Ok(None);
            },
        };
        let ghost rest = self.dep_queue@;
        assert(old(self).dep_queue@ == rest.push(file));
        let keep = file.duplicate();
        proof {
            lemma_work_push(rest, file);
        }
        let resolved = file.file.duplicate();
        let ghost fv = file;
        let (command, mut deps) = match self.compiler.build(file) {
            Ok(x) => x,
            Err(e) => {
                self.dep_queue.push(keep);
                proof {
                    assert(self.dep_queue@ =~= rest.push(keep));
                    lemma_work_push(rest, keep);
                    lemma_work_push(rest, fv);
                    lemma_wf_same(&*old(self), &*self);
                    assert(self.dep_queue@.drop_last() =~= rest);
                    assert(build_result(&node_tools(&self.compiler, fv.file.typ), fv, Err::<(CommandLine, Vec<Dependency>), Error>(e)));
                }
                return Err(e);
            },
        };
        let ghost cmd_g = command;
        let ghost deps_g = deps;
        // each node the link needs is an object; there are no more of them
        // than the link has inputs
        let ghost budget: nat = if has_state(fv.file.typ, FileState::Executable) {
            fv.direct@.len()
        } else {
            0
        };
        proof {
            let t = fv.file.typ.unwrap();
            let tools = if t.lang == Language::C {
                self.compiler.c.tools()
            } else {
                self.compiler.cpp.tools()
            };
            assert(build_result(&tools, fv, Ok::<(CommandLine, Vec<Dependency>), Error>((command, deps))));
            if has_state(fv.file.typ, FileState::Executable) {
                lemma_link_sources_len(&tools, fv.direct@);
            }
            assert(deps@.len() <= budget);
            assert forall|j: int| 0 <= j < deps@.len() implies !has_state(
                #[trigger] deps@[j].file.typ,
                FileState::Executable,
            ) by {
                assert(has_state(fv.file.typ, FileState::Executable));
                let srcs = link_inputs(&tools, fv.direct@)->Ok_0.1;
                assert(crate::compiler::gcc::object_dep(&tools, srcs[j], deps@[j]@));
            }
        }
        assert(deps_g@.subrange(0, deps@.len() as int) =~= deps@);
        let mut accepted: Vec<Dependency> = Vec::new();
        let mut needs: Vec<DepFile> = Vec::new();
        let mut taken: Vec<String> = Vec::new();
        while deps.len() > 0
            invariant
                self.cache.wf(),
                self.thread_count == old(self).thread_count,
                self.pool == old(self).pool,
                self.built == old(self).built,
                self.mode == old(self).mode,
                self.failure == old(self).failure,
                self.pending is None,
                self.command_queue == old(self).command_queue,
                self.dep_queue@ == rest,
                self.claimed == old(self).claimed,
                keep@ == fv@,
                old(self).dep_queue@ == rest.push(fv),
                old(self).wf(),
                old(self).pending is None,
                accepted@.len() + deps@.len() <= budget,
                taken@.len() == accepted@.len(),
                forall|q: int| 0 <= q < accepted@.len() ==> #[trigger] taken@[q]@ == accepted@[q].file.path@,
                crate::dependency::texts(taken@).no_duplicates(),
                forall|q: int| 0 <= q < taken@.len() ==> !crate::dependency::texts(self.claimed@).contains(#[trigger] taken@[q]@),
                forall|j: int| 0 <= j < deps@.len() ==> !has_state(
                    #[trigger] deps@[j].file.typ,
                    FileState::Executable,
                ),
                forall|j: int| 0 <= j < accepted@.len() ==> !has_state(
                    #[trigger] accepted@[j].file.typ,
                    FileState::Executable,
                ),
                needs@.len() == accepted@.len(),
                forall|q: int| 0 <= q < accepted@.len() ==> #[trigger] needs@[q] == accepted@[q].file,
                forall|q: int|
                    0 <= q < accepted@.len() ==> crate::dependency::up_to_date(
                        self.stamps.entries@,
                        #[trigger] accepted@[q]@,
                    ) == Ok::<bool, Seq<char>>(false),
                self.stamps == old(self).stamps,
                self.compiler == old(self).compiler,
                self.cache.table() == old(self).cache.table(),
                deps@.len() <= deps_g@.len(),
                deps@ == deps_g@.subrange(0, deps@.len() as int),
                deps_g@.len() <= budget,
                build_result(
                    &node_tools(&self.compiler, fv.file.typ),
                    fv,
                    Ok::<(CommandLine, Vec<Dependency>), Error>((cmd_g, deps_g)),
                ),
            decreases deps@.len(),
        {
            let ghost dps = deps@;
            assert(forall|j: int| 0 <= j < accepted@.len() ==> !has_state(
                    #[trigger] accepted@[j].file.typ,
                    FileState::Executable,
                ));
            let mut d = match deps.pop() {
                Some(d) => d,
                None => {
                    break;
                },
            };
            proof {
                assert(dps.last() == d);
                assert(dps == deps_g@.subrange(0, dps.len() as int));
                assert(deps@ == dps.drop_last());
                assert(deps@ =~= deps_g@.subrange(0, deps@.len() as int));
                assert(d == dps[dps.len() - 1]);
                assert(d == deps_g@[deps@.len() as int]);
                assert forall|j: int| 0 <= j < deps@.len() implies !has_state(
                    #[trigger] deps@[j].file.typ,
                    FileState::Executable,
                ) by {
                    assert(deps@[j] == dps[j]);
                }
            }
            assert(!has_state(d.file.typ, FileState::Executable));
            if contains_path(&self.claimed, &d.file.path) || contains_path(&taken, &d.file.path) {
                continue;
            }
            let ghost d0 = d;
            let ghost kd = deps@.len() as int;
            let filled = self.cache.fill_dependency(&mut d);
            match filled {
                Ok(()) => {},
                Err(e) => {
                    self.dep_queue.push(keep);
                    proof {
                        assert(self.dep_queue@ =~= rest.push(keep));
                        assert(self.dep_queue@.drop_last() =~= rest);
                        lemma_work_push(rest, keep);
                        lemma_work_push(rest, fv);
                        lemma_wf_same(&*old(self), &*self);
                        if e is NotFound {
                            let x = e->NotFound_0;
                            assert(!crate::dependency::exists_file(self.cache.table(), x@));
                        }
                        if e is Unread {
                            let x = e->Unread_0;
                            if !crate::dependency::named_somewhere(self.cache.table(), x@) {
                                assert(build_result(
                                    &node_tools(&self.compiler, fv.file.typ),
                                    fv,
                                    Ok::<(CommandLine, Vec<Dependency>), Error>((cmd_g, deps_g)),
                                ));
                                let i2 = choose|i2: int|
                                    0 <= i2 < d0.direct@.len() && crate::dependency::scannable(d0.direct@[i2])
                                        && #[trigger] d0.direct@[i2].path@ == x@;
                                assert(deps_g@[kd].direct@[i2].path@ == x@);
                            }
                        }
                        if e is DuplicateDependency {
                            assert(self.cache.cached(deps_g@[kd].file.path@));
                            assert(build_result(
                                &node_tools(&self.compiler, fv.file.typ),
                                fv,
                                Ok::<(CommandLine, Vec<Dependency>), Error>((cmd_g, deps_g)),
                            ));
                        }
                    }
                    return Err(e);
                },
            }
            assert(d.file == d0.file);
            match d.is_up_to_date(&self.stamps) {
                Ok(true) => {
                    assert(forall|j: int| 0 <= j < accepted@.len() ==> !has_state(
                    #[trigger] accepted@[j].file.typ,
                    FileState::Executable,
                ));
                },
                Ok(false) => {
                    let ghost t0 = taken@;
                    let ghost a0 = accepted@;
                    taken.push(d.file.path.clone());
                    proof {
                        assert(crate::dependency::texts(taken@) =~= crate::dependency::texts(t0).push(d.file.path@));
                        lemma_push_no_dup(crate::dependency::texts(t0), d.file.path@);
                    }
                    needs.push(d.file.duplicate());
                    let ghost dv = d;
                    accepted.push(d);
                    proof {
                        assert forall|q: int| 0 <= q < accepted@.len() implies !has_state(
                            #[trigger] accepted@[q].file.typ,
                            FileState::Executable,
                        ) by {
                            if q < a0.len() {
                                assert(accepted@[q] == a0[q]);
                                assert(!has_state(a0[q].file.typ, FileState::Executable));
                            } else {
                                assert(accepted@[q] == dv);
                                assert(dv.file == d0.file);
                                assert(!has_state(d0.file.typ, FileState::Executable));
                            }
                        }
                        assert forall|q: int| 0 <= q < accepted@.len() implies #[trigger] taken@[q]@
                            == accepted@[q].file.path@ by {
                            if q < a0.len() {
                                assert(taken@[q] == t0[q]);
                                assert(accepted@[q] == a0[q]);
                            }
                        }
                        assert forall|q: int| 0 <= q < taken@.len() implies !crate::dependency::texts(self.claimed@).contains(
                            #[trigger] taken@[q]@,
                        ) by {
                            if q < t0.len() {
                                assert(taken@[q] == t0[q]);
                            }
                        }
                    }
                },
                Err(e) => {
                    self.dep_queue.push(keep);
                    proof {
                        assert(self.dep_queue@ =~= rest.push(keep));
                        assert(self.dep_queue@.drop_last() =~= rest);
                        lemma_work_push(rest, keep);
                        lemma_work_push(rest, fv);
                        lemma_wf_same(&*old(self), &*self);
                        let p = choose|p: Seq<char>| crate::dependency::up_to_date(self.stamps.entries@, d@) == Err::<bool, Seq<char>>(p);
                        assert(crate::dependency::stamp_error(self.stamps.entries@, p, e));
                    }
                    return Err(e);
                },
            }
        }
        let ghost c0 = crate::dependency::texts(self.claimed@);
        let mut j: usize = 0;
        assert(crate::dependency::texts(taken@).subrange(0, 0) =~= Seq::<Seq<char>>::empty());
        assert(c0 + crate::dependency::texts(taken@).subrange(0, 0) =~= c0);
        while j < accepted.len()
            invariant
                j <= accepted@.len(),
                accepted@.len() <= budget,
                taken@.len() == accepted@.len(),
                forall|q: int| 0 <= q < accepted@.len() ==> #[trigger] taken@[q]@ == accepted@[q].file.path@,
                crate::dependency::texts(taken@).no_duplicates(),
                forall|q: int| 0 <= q < taken@.len() ==> !c0.contains(#[trigger] taken@[q]@),
                crate::dependency::texts(self.claimed@) == c0 + crate::dependency::texts(taken@).subrange(0, j as int),
                c0 == old(self).claims(),
                crate::dependency::texts(self.claimed@).no_duplicates(),
                forall|i: int|
                    0 <= i < self.dep_queue@.len() ==> crate::dependency::texts(self.claimed@).contains(
                        #[trigger] self.dep_queue@[i].file.path@,
                    ),
                work(self.dep_queue@) == work(rest) + j,
                forall|q: int| 0 <= q < accepted@.len() ==> !has_state(
                    #[trigger] accepted@[q].file.typ,
                    FileState::Executable,
                ),
                self.cache.wf(),
                self.thread_count == old(self).thread_count,
                self.pool == old(self).pool,
                self.built == old(self).built,
                self.mode == old(self).mode,
                self.failure == old(self).failure,
                self.pending is None,
                self.command_queue == old(self).command_queue,
                self.stamps == old(self).stamps,
                self.compiler == old(self).compiler,
                needs@.len() == accepted@.len(),
                forall|q: int| 0 <= q < accepted@.len() ==> #[trigger] needs@[q] == accepted@[q].file,
                forall|q: int|
                    0 <= q < accepted@.len() ==> crate::dependency::up_to_date(
                        self.stamps.entries@,
                        #[trigger] accepted@[q]@,
                    ) == Ok::<bool, Seq<char>>(false),
                self.dep_queue@.len() == rest.len() + j,
                self.cache.table() == old(self).cache.table(),
                self.dep_queue@.subrange(0, rest.len() as int) == rest,
                forall|q: int| 0 <= q < j ==> #[trigger] self.dep_queue@[rest.len() + q]@ == accepted@[q]@,
            decreases accepted@.len() - j,
        {
            let ghost before = self.dep_queue@;
            let ghost cb = crate::dependency::texts(self.claimed@);
            let ghost x = accepted@[j as int].file.path@;
            proof {
                assert(taken@[j as int]@ == x);
                assert(!c0.contains(x));
                assert(!crate::dependency::texts(taken@).subrange(0, j as int).contains(x)) by {
                    if crate::dependency::texts(taken@).subrange(0, j as int).contains(x) {
                        let q = choose|q: int| 0 <= q < j && crate::dependency::texts(taken@).subrange(0, j as int)[q] == x;
                        assert(crate::dependency::texts(taken@)[q] == crate::dependency::texts(taken@)[j as int]);
                    }
                }
                assert(!cb.contains(x)) by {
                    if cb.contains(x) {
                        let q = choose|q: int| 0 <= q < cb.len() && cb[q] == x;
                        if q < c0.len() {
                            assert(c0[q] == x);
                        } else {
                            assert(crate::dependency::texts(taken@).subrange(0, j as int)[q - c0.len()] == x);
                        }
                    }
                }
                lemma_push_no_dup(cb, x);
            }
            self.claimed.push(accepted[j].file.path.clone());
            let dj = accepted[j].duplicate();
            let ghost djv = dj;
            self.dep_queue.push(dj);
            proof {
                assert(crate::dependency::texts(self.claimed@) =~= cb.push(x));
                assert(self.dep_queue@ =~= before.push(djv));
                assert(self.dep_queue@.subrange(0, rest.len() as int) =~= before.subrange(0, rest.len() as int));
                assert forall|q: int| 0 <= q < j + 1 implies #[trigger] self.dep_queue@[rest.len() + q]@ == accepted@[q]@ by {
                    if q < j {
                        assert(self.dep_queue@[rest.len() + q] == before[rest.len() + q]);
                    }
                }
                lemma_work_push(before, djv);
                assert(!has_state(accepted@[j as int].file.typ, FileState::Executable));
                assert(crate::dependency::texts(taken@).subrange(0, j + 1) =~= crate::dependency::texts(taken@).subrange(0, j as int).push(x));
                assert forall|i: int| 0 <= i < self.dep_queue@.len() implies crate::dependency::texts(self.claimed@).contains(
                    #[trigger] self.dep_queue@[i].file.path@,
                ) by {
                    if i < before.len() {
                        assert(self.dep_queue@[i] == before[i]);
                        assert(cb.contains(before[i].file.path@));
                        let q = choose|q: int| 0 <= q < cb.len() && cb[q] == before[i].file.path@;
                        assert(crate::dependency::texts(self.claimed@)[q] == cb[q]);
                    } else {
                        assert(crate::dependency::texts(self.claimed@)[cb.len() as int] == x);
                    }
                }
            }
            j += 1;
        }
        proof {
            assert forall|i: int| 0 <= i < c0.len() implies #[trigger] crate::dependency::texts(
                self.claimed@,
            )[i] == c0[i] by {
                assert((c0 + crate::dependency::texts(taken@).subrange(0, j as int))[i] == c0[i]);
            }
        }
        let ghost provides_seq = seq![resolved];
        let provides = vec![resolved];
        assert(provides@ =~= provides_seq);
        let c = QCommand { command, requires: needs, provides };
        proof {
            assert(build_result(
                &node_tools(&old(self).compiler, old(self).dep_queue@.last().file.typ),
                old(self).dep_queue@.last(),
                Ok::<(CommandLine, Vec<Dependency>), Error>((c.command, deps_g)),
            ));
            assert(crate::dependency::texts(taken@) =~= paths(c.requires@));
            assert(crate::dependency::texts(taken@).subrange(0, j as int) =~= crate::dependency::texts(taken@));
            assert(self.dep_queue@.subrange(0, rest.len() as int) == old(self).dep_queue@.drop_last());
            assert forall|q: int| 0 <= q < c.requires@.len() implies #[trigger] self.dep_queue@[rest.len() + q].file
                == c.requires@[q] && crate::dependency::up_to_date(
                self.stamps.entries@,
                self.dep_queue@[rest.len() + q]@,
            ) == Ok::<bool, Seq<char>>(false) && !old(self).claims().contains(c.requires@[q].path@) by {
                assert(self.dep_queue@[rest.len() + q]@ == accepted@[q]@);
                assert(taken@[q]@ == accepted@[q].file.path@);
            }
            assert forall|q: int| 0 <= q < c.requires@.len() implies !path_set(old(self).built@).contains(
                c.requires@[q].path@,
            ) && !provided(old(self).pool@).contains(c.requires@[q].path@) by {
                let p = c.requires@[q].path@;
                assert(c.requires@[q] == accepted@[q].file);
                assert(taken@[q]@ == accepted@[q].file.path@);
                assert(!old(self).claims().contains(p));
                if provided(old(self).pool@).contains(p) {
                    let i = choose|i: int| 0 <= i < old(self).pool@.len() && #[trigger] path_set(old(self).pool@[i].provides@).contains(p);
                    assert(path_set(old(self).pool@[i].provides@).subset_of(old(self).claims().to_set()));
                }
            }
            assert(pushed_nodes(&*old(self), &*self, c));
            lemma_extends_set(self.claims(), old(self).claims());
            assert(old(self).claims().contains(fv.file.path@)) by {
                assert(old(self).dep_queue@[old(self).dep_queue@.len() - 1] == fv);
            }
            assert(paths(c.provides@) =~= seq![fv.file.path@]);
            assert(path_set(c.provides@).subset_of(self.claims().to_set())) by {
                assert forall|x: Seq<char>| path_set(c.provides@).contains(x) implies self.claims().to_set().contains(x) by {
                    assert(paths(c.provides@)[0] == fv.file.path@);
                    assert(old(self).claims().to_set().contains(fv.file.path@));
                }
            }
        }
        Ok(Some(c))
    }

    /// Takes the most recently queued command whose inputs are all built.
    fn take_ready(&mut self) -> (r: Option<QCommand>)
        ensures
            final(self).thread_count == old(self).thread_count,
            final(self).pool == old(self).pool,
            final(self).built == old(self).built,
            final(self).mode == old(self).mode,
            final(self).failure == old(self).failure,
            final(self).pending == old(self).pending,
            final(self).dep_queue == old(self).dep_queue,
            final(self).claimed == old(self).claimed,
            final(self).cache == old(self).cache,
            final(self).stamps == old(self).stamps,
            final(self).compiler == old(self).compiler,
            match r {
                Some(c) => takes_last_ready(old(self).command_queue@, final(self).command_queue@, c, old(self).built@),
                None => final(self).command_queue == old(self).command_queue && !any_ready(
                    old(self).command_queue@,
                    old(self).built@,
                ),
            },
    {
        let mut i: usize = self.command_queue.len();
        while i > 0
            invariant
                i <= self.command_queue@.len(),
                *self == *old(self),
                forall|j: int| i <= j < self.command_queue@.len() ==> !ready(#[trigger] self.command_queue@[j], self.built@),
            decreases i,
        {
            i -= 1;
            if all_built(&self.command_queue[i].requires, &self.built) {
                let c = self.command_queue.remove(i);
                return Some(c);
            }
        }
        None
    }

    /// Chooses the next command to run: the most recently queued one whose
    /// inputs are built, else the next node of the queue turned into a
    /// command. `DependencyCycle` where commands wait, none is ready and no
    /// node is left to turn into one.
    fn select_command(&mut self) -> (r: Result<Option<QCommand>, Error>)
        requires
            old(self).wf(),
            old(self).pending is None,
        ensures
            final(self).wf(),
            final(self).thread_count == old(self).thread_count,
            final(self).pool == old(self).pool,
            final(self).built == old(self).built,
            final(self).mode == old(self).mode,
            final(self).pending is None,
            final(self).stamps == old(self).stamps,
            final(self).compiler == old(self).compiler,
            extends(final(self).claims(), old(self).claims()),
            any_ready(old(self).command_queue@, old(self).built@) ==> r is Ok && r->Ok_0 is Some
                && takes_last_ready(
                old(self).command_queue@,
                final(self).command_queue@,
                r->Ok_0->Some_0,
                old(self).built@,
            ) && final(self).dep_queue == old(self).dep_queue,
            old(self).dep_queue@.len() == 0 && old(self).command_queue@.len() == 0 ==> r matches Ok(None),
            old(self).dep_queue@.len() > 0 ==> !(r matches Ok(None)),
            final(self).cache.table() == old(self).cache.table(),
            old(self).dep_queue@.len() == 0 && old(self).command_queue@.len() > 0 && !any_ready(
                old(self).command_queue@,
                old(self).built@,
            ) ==> r matches Err(Error::DependencyCycle),
            match r {
                Ok(Some(c)) => ready(c, final(self).built@) && path_set(c.provides@).subset_of(
                    final(self).claims().to_set(),
                ),
                Ok(None) => final(self).dep_queue@.len() == 0 && final(self).command_queue@.len()
                    == 0,
                Err(Error::DependencyCycle) => final(self).dep_queue@.len() == 0
                    && final(self).command_queue@.len() > 0 && !any_ready(
                    final(self).command_queue@,
                    final(self).built@,
                ),
                Err(e) => final(self).dep_queue@.len() > 0 && exists|node: Dependency|
                    node@ == final(self).dep_queue@.last()@ && #[trigger] fetch_failure(
                        &*final(self),
                        node,
                        e,
                    ),
            },
    {
        if let Some(c) = self.take_ready() {
            proof {
                let i = choose|i: int|
                    0 <= i < old(self).command_queue@.len() && #[trigger] old(self).command_queue@[i] == c
                        && ready(c, old(self).built@) && self.command_queue@ == old(self).command_queue@.remove(i)
                        && forall|j: int| i < j < old(self).command_queue@.len() ==> !ready(#[trigger] old(self).command_queue@[j], old(self).built@);
                assert(path_set(old(self).command_queue@[i].provides@).subset_of(old(self).claims().to_set()));
                assert forall|k: int| 0 <= k < self.command_queue@.len() implies path_set(
                    #[trigger] self.command_queue@[k].provides@,
                ).subset_of(self.claims().to_set()) by {
                    if k < i {
                        assert(self.command_queue@[k] == old(self).command_queue@[k]);
                    } else {
                        assert(self.command_queue@[k] == old(self).command_queue@[k + 1]);
                    }
                }
            }
            return Ok(Some(c));
        }
        let mut more = true;
        while more
            invariant
                self.wf(),
                self.pending is None,
                self.thread_count == old(self).thread_count,
                self.pool == old(self).pool,
                self.built == old(self).built,
                self.mode == old(self).mode,
                self.stamps == old(self).stamps,
                self.compiler == old(self).compiler,
                !more ==> self.dep_queue@.len() == 0,
                !any_ready(old(self).command_queue@, old(self).built@),
                extends(self.claims(), old(self).claims()),
                old(self).dep_queue@.len() == 0 ==> self.command_queue == old(self).command_queue
                    && self.dep_queue@.len() == 0,
                old(self).dep_queue@.len() > 0 ==> (more && self.dep_queue@.len() > 0) || self.command_queue@.len() > 0,
                self.cache.table() == old(self).cache.table(),
            decreases work(self.dep_queue@), (if more {
                1int
            } else {
                0int
            }),
        {
            let ghost last = self.dep_queue@.last();
            match self.fetch_command() {
                Err(e) => {
                    proof {
                        assert(last@ == self.dep_queue@.last()@);
                        assert(fetch_failure(&*self, last, e));
                    }
                    return Err(e);
                },
                Ok(None) => {
                    more = false;
                },
                Ok(Some(c)) => {
                    if c.requires.len() == 0 {
                        assert(path_set(c.requires@) =~= Set::<Seq<char>>::empty());
                        return Ok(Some(c));
                    }
                    self.command_queue.push(c);
                },
            }
        }
        let ghost q0 = self.command_queue@;
        if let Some(c) = self.take_ready() {
            proof {
                let i = choose|i: int|
                    0 <= i < q0.len() && #[trigger] q0[i] == c && ready(c, self.built@) && self.command_queue@
                        == q0.remove(i) && forall|j: int| i < j < q0.len() ==> !ready(#[trigger] q0[j], self.built@);
                assert(path_set(q0[i].provides@).subset_of(self.claims().to_set()));
                assert forall|k: int| 0 <= k < self.command_queue@.len() implies path_set(
                    #[trigger] self.command_queue@[k].provides@,
                ).subset_of(self.claims().to_set()) by {
                    if k < i {
                        assert(self.command_queue@[k] == q0[k]);
                    } else {
                        assert(self.command_queue@[k] == q0[k + 1]);
                    }
                }
            }
            return Ok(Some(c));
        }
        if self.command_queue.len() == 0 {
            Ok(None)
        } else {
            Err(Error::DependencyCycle)
        }
    }

    /// Ends the build with an error, reaping the children first if any run.
    fn fail(&mut self, e: Error) -> (r: Step)
        requires
            old(self).wf_core(),
            old(self).pending is None,
            !(e matches Error::DependencyCycle),
        ensures
            final(self).wf(),
            final(self).thread_count == old(self).thread_count,
            final(self).pool == old(self).pool,
            final(self).built == old(self).built,
            final(self).claimed == old(self).claimed,
            old(self).pool@.len() > 0 ==> r is Reap && final(self).mode == Mode::Reaping,
            old(self).pool@.len() == 0 ==> r is Finish && r->Finish_0 is Err && final(self).mode
                == Mode::Done,
            !(r matches Step::Finish(Err(Error::DependencyCycle))),
            fails_with(r, final(self).failure, old(self).pool@.len(), e),
            !(r is Sleep),
    {
        if self.pool.len() > 0 {
            self.failure = Some(e);
            self.mode = Mode::Reaping;
            Step::Reap
        } else {
            self.mode = Mode::Done;
            Step::Finish(Err(e))
        }
    }

    /// Chooses what to do next when no command is pending.
    fn next_command_step(&mut self) -> (r: Step)
        requires
            old(self).wf(),
            old(self).pending is None,
        ensures
            final(self).wf(),
            final(self).thread_count == old(self).thread_count,
            final(self).pool == old(self).pool,
            final(self).built == old(self).built,
            extends(final(self).claims(), old(self).claims()),
            slots_in_range(r, final(self).pool@.len()),
            r is Finish ==> final(self).pool@.len() == 0,
            spawns(r, final(self).pending) && (r is Spawn ==> final(self).mode
                == Mode::Spawning { slot: spawn_slot(r), replace: false }),
            r matches Step::Finish(Err(Error::DependencyCycle)) ==> old(self).pool@.len() == 0
                && final(self).dep_queue@.len() == 0 && final(self).command_queue@.len() > 0,
            !(r is Sleep),
            asks_only_missing(r, old(self).cache.table(), old(self).stamps.entries@),
            choice_rule(
                old(self).command_queue@,
                old(self).dep_queue@.len(),
                old(self).built@,
                old(self).pool@.len(),
                old(self).thread_count as nat,
                r,
            ),
    {
        match self.select_command() {
            Ok(Some(cmd)) => {
                if self.pool.len() < self.thread_count {
                    let slot = self.pool.len();
                    let command = copy_command(&cmd.command);
                    let dirs = output_dirs(&cmd.provides);
                    self.pending = Some(cmd);
                    self.mode = Mode::Spawning { slot, replace: false };
                    Step::Spawn { slot, command, dirs }
                } else {
                    self.pending = Some(cmd);
                    self.mode = Mode::Polling { slot: 0 };
                    Step::Poll { slot: 0 }
                }
            },
            Ok(None) => {
                if self.pool.len() == 0 {
                    self.mode = Mode::Done;
                    Step::Finish(Ok(()))
                } else {
                    self.mode = Mode::Draining;
                    Step::Wait { slot: self.pool.len() - 1 }
                }
            },
            Err(Error::DependencyCycle) => {
                if self.pool.len() == 0 {
                    self.mode = Mode::Done;
                    Step::Finish(Err(Error::DependencyCycle))
                } else {
                    self.mode = Mode::PollingAny { slot: 0 };
                    Step::Poll { slot: 0 }
                }
            },
            Err(Error::Unread(p)) => {
                self.mode = Mode::Select;
                Step::Read(p)
            },
            Err(Error::NoTimestamp(p)) => {
                self.mode = Mode::Select;
                Step::Stat(p)
            },
            Err(e) => self.fail(e),
        }
    }

    /// Takes what happened and tells what to do next. The caller keeps its
    /// children in a list that it changes only as the steps say: a spawn at
    /// the end or in place, and a removal as `Vec::swap_remove` does it on a
    /// `Forget`.
    pub fn step(&mut self, ev: Event) -> (r: Step)
        requires
            old(self).wf(),
        ensures
            final(self).wf(),
            final(self).running() <= final(self).budget(),
            final(self).budget() == old(self).budget(),
            old(self).built_paths().subset_of(final(self).built_paths()),
            final(self).built_paths().subset_of(old(self).built_paths().union(
                newly_built(old(self).mode_of(), ev, old(self).running_commands()),
            )),
            spawns(r, final(self).pending_command()),
            r is Spawn ==> path_set(final(self).pending_command()->Some_0.requires@).subset_of(
                final(self).built_paths(),
            ),
            r is Finish ==> final(self).running() == 0,
            step_rule(
                old(self).mode_of(),
                ev,
                old(self).running(),
                old(self).budget(),
                old(self).queued().1,
                old(self).queued().0.len(),
                old(self).built_files(),
                old(self).pending_command(),
                old(self).failure_of(),
                r,
                final(self).mode_of(),
                final(self).failure_of(),
                final(self).running_commands(),
            ),
            r is Sleep ==> sleeps_after_round(old(self).mode_of(), ev, old(self).running()),
            asks_only_missing(r, old(self).cache_table(), old(self).stamps_view()),
            retire_rule(
                old(self).mode_of(),
                ev,
                old(self).running_commands(),
                old(self).built_files(),
                final(self).running_commands(),
                final(self).built_files(),
            ),
            slots_in_range(r, final(self).running()),
            extends(final(self).claims(), old(self).claims()),
            r matches Step::Finish(Err(Error::DependencyCycle)) ==> old(self).running() == 0
                && final(self).queued().0.len() == 0 && final(self).queued().1.len() > 0,
    {
        let ghost old_built = self.built@;
        match (&self.mode, ev) {
            (Mode::Select, Event::Go) => {
                assert(self.pending is None);
                self.next_command_step()
            },
            (Mode::Spawning { slot, replace }, Event::Spawned(Ok(()))) => {
                let slot = *slot;
                let replace = *replace;
                let cmd = match self.pending.take() {
                    Some(c) => c,
                    None => {
                        return self.fail(Error::DoesNotHappen(String::from_str("no pending command")));
                    },
                };
                if replace {
                    let ghost pool0 = self.pool@;
                    let ghost cmdv = cmd;
                    assert(path_set(cmdv.requires@).subset_of(path_set(self.built@)));
                    self.pool.push(cmd);
                    let old_cmd = self.pool.swap_remove(slot);
                    assert(self.pool@.len() == pool0.len());
                    assert(self.pool@[slot as int] == cmdv);
                    let ghost b0 = self.built@;
                    extend_files(&mut self.built, &old_cmd.provides);
                    proof {
                        lemma_path_set_concat(b0, old_cmd.provides@);
                        assert(old_cmd == pool0[slot as int]);
                        assert forall|i: int| 0 <= i < self.pool@.len() implies path_set(
                            #[trigger] self.pool@[i].requires@,
                        ).subset_of(path_set(self.built@)) by {
                            if i != slot {
                                assert(self.pool@[i] == pool0[i]);
                                assert(path_set(pool0[i].requires@).subset_of(path_set(b0)));
                            }
                        }
                    }
                } else {
                    self.pool.push(cmd);
                    proof {
                        assert forall|i: int| 0 <= i < self.pool@.len() implies path_set(
                            #[trigger] self.pool@[i].requires@,
                        ).subset_of(path_set(self.built@)) by {
                            if i < self.pool@.len() - 1 {
                                assert(self.pool@[i] == old(self).pool@[i]);
                            }
                        }
                    }
                }
                self.mode = Mode::Select;
                self.next_command_step()
            },
            (Mode::Spawning { .. }, Event::Spawned(Err(e))) => {
                self.pending = None;
                self.fail(Error::Io(e))
            },
            (Mode::Polling { slot }, Event::Polled(Ok(Some(exit)))) => {
                let slot = *slot;
                if !exit.success {
                    self.pending = None;
                    return self.fail(Error::ProcessFailed(exit.code));
                }
                let (command, dirs) = match &self.pending {
                    Some(c) => (copy_command(&c.command), output_dirs(&c.provides)),
                    None => {
                        return self.fail(Error::DoesNotHappen(String::from_str("no pending command")));
                    },
                };
                self.mode = Mode::Spawning { slot, replace: true };
                Step::Spawn { slot, command, dirs }
            },
            (Mode::Polling { slot }, Event::Polled(Ok(None))) => {
                let slot = *slot;
                if slot + 1 < self.pool.len() {
                    self.mode = Mode::Polling { slot: slot + 1 };
                    Step::Poll { slot: slot + 1 }
                } else {
                    self.mode = Mode::Sleeping { any: false };
                    Step::Sleep
                }
            },
            (Mode::PollingAny { slot }, Event::Polled(Ok(Some(exit)))) => {
                let slot = *slot;
                if !exit.success {
                    return self.fail(Error::ProcessFailed(exit.code));
                }
                let ghost pool0 = self.pool@;
                let done = self.pool.swap_remove(slot);
                let ghost b0 = self.built@;
                extend_files(&mut self.built, &done.provides);
                proof {
                    lemma_path_set_concat(b0, done.provides@);
                    assert forall|i: int| 0 <= i < self.pool@.len() implies path_set(
                        #[trigger] self.pool@[i].requires@,
                    ).subset_of(path_set(self.built@)) by {
                        if i == slot {
                            assert(self.pool@[i] == pool0[pool0.len() - 1]);
                        } else {
                            assert(self.pool@[i] == pool0[i]);
                        }
                    }
                }
                self.mode = Mode::Select;
                Step::Forget { slot }
            },
            (Mode::PollingAny { slot }, Event::Polled(Ok(None))) => {
                let slot = *slot;
                if slot + 1 < self.pool.len() {
                    self.mode = Mode::PollingAny { slot: slot + 1 };
                    Step::Poll { slot: slot + 1 }
                } else {
                    self.mode = Mode::Sleeping { any: true };
                    Step::Sleep
                }
            },
            (Mode::Polling { .. }, Event::Polled(Err(e))) => {
                self.pending = None;
                self.fail(Error::Io(e))
            },
            (Mode::PollingAny { .. }, Event::Polled(Err(e))) => self.fail(Error::Io(e)),
            (Mode::Sleeping { any }, Event::Slept) => {
                if *any {
                    self.mode = Mode::PollingAny { slot: 0 };
                } else {
                    self.mode = Mode::Polling { slot: 0 };
                }
                Step::Poll { slot: 0 }
            },
            (Mode::Draining, Event::Waited(Ok(exit))) => {
                if !exit.success {
                    return self.fail(Error::ProcessFailed(exit.code));
                }
                if self.pool.len() == 0 {
                    return self.fail(Error::DoesNotHappen(String::from_str("no child to wait for")));
                }
                let slot = self.pool.len() - 1;
                let ghost pool0 = self.pool@;
                self.pool.pop();
                proof {
                    assert forall|i: int| 0 <= i < self.pool@.len() implies path_set(
                        #[trigger] self.pool@[i].requires@,
                    ).subset_of(path_set(self.built@)) by {
                        assert(self.pool@[i] == pool0[i]);
                    }
                }
                Step::Forget { slot }
            },
            (Mode::Draining, Event::Go) => {
                if self.pool.len() == 0 {
                    self.mode = Mode::Done;
                    Step::Finish(Ok(()))
                } else {
                    Step::Wait { slot: self.pool.len() - 1 }
                }
            },
            (Mode::Draining, Event::Waited(Err(e))) => self.fail(Error::Io(e)),
            (Mode::Reaping, Event::Reaped) => {
                self.pool.clear();
                self.mode = Mode::Done;
                let e = match self.failure.take() {
                    Some(e) => e,
                    None => Error::DoesNotHappen(String::from_str("no failure to report")),
                };
                Step::Finish(Err(e))
            },
            (Mode::Done, _) => Step::Finish(
                Err(Error::DoesNotHappen(String::from_str("the build is over"))),
            ),
            (_, _) => {
                self.pending = None;
                self.fail(Error::DoesNotHappen(String::from_str("an event out of order")))
            },
        }
    }
}

/// The slots that a step names are those of the caller's children: a spawn
/// replaces one or adds one at the end, a poll or a wait names a running
/// child, and a removal names one of the children before it.
pub open spec fn slots_in_range(r: Step, running: nat) -> bool {
    match r {
        Step::Spawn { slot, .. } => slot <= running,
        Step::Poll { slot } => slot < running,
        Step::Wait { slot } => slot < running,
        Step::Forget { slot } => slot <= running,
        _ => true,
    }
}

/// A spawn step hands out the pending command.
pub open spec fn spawns(r: Step, pending: Option<QCommand>) -> bool {
    match r {
        Step::Spawn { slot, command, dirs } => pending is Some && command.program
            == pending->Some_0.command.program && command.args@ == pending->Some_0.command.args@
            && crate::dependency::texts(dirs@) == paths(pending->Some_0.provides@).map_values(
            |p: Seq<char>| parent(p),
        ),
        _ => true,
    }
}

pub open spec fn spawn_slot(r: Step) -> usize {
    match r {
        Step::Spawn { slot, .. } => slot,
        _ => 0,
    }
}

/// The files that a step adds to the built ones: those of the command whose
/// child was seen to exit successfully, at the slot it ran in.
pub open spec fn newly_built(m: Mode, ev: Event, pool: Seq<QCommand>) -> Set<Seq<char>> {
    match (m, ev) {
        (Mode::Spawning { slot, replace }, Event::Spawned(Ok(()))) => if replace && slot
            < pool.len() {
            path_set(pool[slot as int].provides@)
        } else {
            Set::empty()
        },
        (Mode::PollingAny { slot }, Event::Polled(Ok(Some(exit)))) => if exit.success && slot
            < pool.len() {
            path_set(pool[slot as int].provides@)
        } else {
            Set::empty()
        },
        _ => Set::empty(),
    }
}

} // verus!
