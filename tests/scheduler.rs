use ccpp::builder::{Builder, Event, Exit, Step};
use ccpp::compiler::config::{Config, Optimization, Std};
use ccpp::compiler::{Compiler, CompilerType};
use ccpp::dependency::Stamp;
use ccpp::err::Error;

fn conf() -> Config {
    Config {
        bin_root: "bin".to_string(),
        src_root: "src".to_string(),
        optimization: Optimization::Disabled,
        asan: false,
        dbg_symbols: false,
        c_std: Std::Number(17),
        cpp_std: Std::Number(20),
        defines: vec![],
        warn: vec![],
        no_warn: vec![],
        args: vec![],
    }
}

fn builder(w: usize) -> Builder {
    let c = Compiler::new(
        ("gcc".to_string(), CompilerType::Gcc),
        ("g++".to_string(), CompilerType::Gpp),
        &conf(),
    )
    .unwrap();
    Builder::new(c, w, false)
}

struct Run {
    result: Result<(), Error>,
    commands: Vec<Vec<String>>,
    max_alive: usize,
    reaped: bool,
}

/// Drives a build against a file system of (path, text, time) entries; the
/// command whose output contains `fail` exits with code 2.
fn run(fs: &[(&str, &str, u64)], w: usize, srcs: &[&str], fail: Option<&str>) -> Run {
    let mut b = builder(w);
    let sources: Vec<String> = srcs.iter().map(|s| s.to_string()).collect();
    let lookup = |p: &str| fs.iter().find(|f| f.0 == p);
    loop {
        match b.build_all("bin/app".to_string(), &sources) {
            Err(Error::Unread(p)) => {
                let t = lookup(&p).map(|f| f.1.chars().collect());
                b.add_file(p, t);
            },
            Err(Error::NoTimestamp(p)) => {
                let s = lookup(&p).map_or(Stamp::Missing, |f| Stamp::At(f.2));
                b.add_stamp(p, s);
            },
            Ok(()) => break,
            Err(e) => panic!("{e:?}"),
        }
    }
    let mut children: Vec<Vec<String>> = vec![];
    let mut commands = vec![];
    let mut max_alive = 0;
    let mut reaped = false;
    let mut ev = Event::Go;
    let exit_of = |c: &Vec<String>| {
        let bad = fail.map_or(false, |f| c.iter().any(|a| a.contains(f)));
        Exit { success: !bad, code: Some(if bad { 2 } else { 0 }) }
    };
    for _ in 0..10000 {
        match b.step(ev) {
            Step::Spawn { slot, command, .. } => {
                assert!(b.running_count() <= w);
                let mut line = vec![command.program.clone()];
                line.extend(command.args.iter().cloned());
                commands.push(line.clone());
                if slot == children.len() {
                    children.push(line);
                } else {
                    children[slot] = line;
                }
                max_alive = max_alive.max(children.len());
                ev = Event::Spawned(Ok(()));
            },
            Step::Poll { slot } => ev = Event::Polled(Ok(Some(exit_of(&children[slot])))),
            Step::Sleep => ev = Event::Slept,
            Step::Wait { slot } => ev = Event::Waited(Ok(exit_of(&children[slot]))),
            Step::Forget { slot } => {
                children.swap_remove(slot);
                ev = Event::Go;
            },
            Step::Reap => {
                children.clear();
                reaped = true;
                ev = Event::Reaped;
            },
            Step::Stat(p) => {
                let s = lookup(&p).map_or(Stamp::Missing, |f| Stamp::At(f.2));
                b.add_stamp(p, s);
                ev = Event::Go;
            },
            Step::Read(p) => {
                let t = lookup(&p).map(|f| f.1.chars().collect());
                b.add_file(p, t);
                ev = Event::Go;
            },
            Step::Finish(result) => {
                assert_eq!(b.running_count(), 0);
                return Run { result, commands, max_alive, reaped };
            },
        }
    }
    panic!("the build did not end");
}

fn compiles(r: &Run) -> Vec<String> {
    r.commands.iter().filter(|c| c.contains(&"-c".to_string())).map(|c| c[3].clone()).collect()
}

fn links(r: &Run) -> usize {
    r.commands.iter().filter(|c| !c.contains(&"-c".to_string())).count()
}

#[test]
fn hello_world_builds_once() {
    let fs = [("src/main.c", "#include <stdio.h>\nint main(void) {}\n", 10)];
    let r = run(&fs, 4, &["src/main.c"], None);
    assert!(r.result.is_ok());
    assert_eq!(r.commands.len(), 2);
    assert_eq!(r.commands[0][..4], ["gcc", "-c", "-o", "bin/project/main.c.o"]);
    assert_eq!(r.commands[0][4], "src/main.c");
    assert_eq!(r.commands[1], vec!["gcc", "-o", "bin/app", "bin/project/main.c.o"]);
    let fs2 = [
        ("src/main.c", "#include <stdio.h>\nint main(void) {}\n", 10),
        ("bin/project/main.c.o", "", 20),
        ("bin/app", "", 30),
    ];
    let r2 = run(&fs2, 4, &["src/main.c"], None);
    assert!(r2.result.is_ok());
    assert!(r2.commands.is_empty());
}

#[test]
fn header_edit_rebuilds_both_users() {
    let fs = [
        ("src/a.c", "#include \"x.h\"\n", 10),
        ("src/b.c", "#include \"x.h\"\n", 10),
        ("src/x.h", "", 40),
        ("bin/project/a.c.o", "", 20),
        ("bin/project/b.c.o", "", 20),
        ("bin/app", "", 30),
    ];
    let r = run(&fs, 4, &["src/a.c", "src/b.c"], None);
    assert!(r.result.is_ok());
    let mut c = compiles(&r);
    c.sort();
    assert_eq!(c, vec!["bin/project/a.c.o", "bin/project/b.c.o"]);
    assert_eq!(links(&r), 1);
}

#[test]
fn transitive_header_edit_rebuilds() {
    let fs = [
        ("src/a.c", "#include \"x.h\"\n", 10),
        ("src/x.h", "#include \"y.h\"\n", 10),
        ("src/y.h", "", 40),
        ("bin/project/a.c.o", "", 20),
        ("bin/app", "", 30),
    ];
    let r = run(&fs, 4, &["src/a.c"], None);
    assert!(r.result.is_ok());
    assert_eq!(compiles(&r), vec!["bin/project/a.c.o"]);
}

#[test]
fn include_cycle_builds_once() {
    let fs = [
        ("src/main.c", "#include \"a.h\"\nint main(){}\n", 10),
        ("src/a.h", "#include \"b.h\"\n", 10),
        ("src/b.h", "#include \"a.h\"\n", 10),
    ];
    let r = run(&fs, 4, &["src/main.c"], None);
    assert!(r.result.is_ok());
    assert_eq!(compiles(&r).len(), 1);
    assert_eq!(links(&r), 1);
}

#[test]
fn ten_sources_four_workers() {
    let names: Vec<String> = (0..10).map(|i| format!("src/f{i}.c")).collect();
    let fs: Vec<(&str, &str, u64)> = names.iter().map(|n| (n.as_str(), "int f;\n", 10)).collect();
    let srcs: Vec<&str> = names.iter().map(|n| n.as_str()).collect();
    let r = run(&fs, 4, &srcs, None);
    assert!(r.result.is_ok());
    assert_eq!(r.max_alive, 4);
    assert_eq!(compiles(&r).len(), 10);
    assert_eq!(links(&r), 1);
    assert!(r.commands.last().unwrap().contains(&"-o".to_string()));
    assert!(!r.commands.last().unwrap().contains(&"-c".to_string()));
}

#[test]
fn compiler_failure_stops_the_build() {
    let fs = [("src/a.c", "", 10), ("src/b.c", "", 10), ("src/c.c", "", 10)];
    let r = run(&fs, 2, &["src/a.c", "src/b.c", "src/c.c"], Some("b.c.o"));
    assert!(matches!(r.result, Err(Error::ProcessFailed(Some(2)))));
    assert_eq!(links(&r), 0);
    assert!(r.reaped);
}

#[test]
fn worker_budget_leaves_two_threads() {
    assert_eq!(ccpp::builder::thread_count_for(Some(8)), 6);
    assert_eq!(ccpp::builder::thread_count_for(Some(3)), 1);
    assert_eq!(ccpp::builder::thread_count_for(Some(2)), 1);
    assert_eq!(ccpp::builder::thread_count_for(None), 1);
}

#[test]
fn single_worker_runs_one_at_a_time() {
    let fs = [("src/a.c", "", 10), ("src/b.c", "", 10)];
    let r = run(&fs, 1, &["src/a.c", "src/b.c"], None);
    assert!(r.result.is_ok());
    assert_eq!(r.max_alive, 1);
    assert_eq!(r.commands.len(), 3);
}

#[test]
fn step_after_finish_reports_misuse() {
    let fs = [("src/a.c", "", 10), ("bin/project/a.c.o", "", 20), ("bin/app", "", 30)];
    let mut b = builder(2);
    let sources = vec!["src/a.c".to_string()];
    loop {
        match b.build_all("bin/app".to_string(), &sources) {
            Err(Error::Unread(p)) => {
                let t = fs.iter().find(|f| f.0 == p).map(|f| f.1.chars().collect());
                b.add_file(p, t);
            },
            Err(Error::NoTimestamp(p)) => {
                let s = fs.iter().find(|f| f.0 == p).map_or(Stamp::Missing, |f| Stamp::At(f.2));
                b.add_stamp(p, s);
            },
            r => break r.unwrap(),
        }
    }
    assert!(matches!(b.step(Event::Go), Step::Finish(Ok(()))));
    assert!(matches!(b.step(Event::Go), Step::Finish(Err(Error::DoesNotHappen(_)))));
}

#[test]
fn a_source_listed_twice_is_compiled_once() {
    let fs = [("src/a.c", "", 10)];
    let r = run(&fs, 4, &["src/a.c", "src/a.c"], None);
    assert!(r.result.is_ok());
    assert_eq!(compiles(&r), vec!["bin/project/a.c.o"]);
    assert_eq!(links(&r), 1);
}

#[test]
fn link_waits_for_every_object() {
    let fs = [("src/a.c", "", 10), ("src/b.c", "", 10), ("src/c.c", "", 10)];
    let r = run(&fs, 2, &["src/a.c", "src/b.c", "src/c.c"], None);
    assert!(r.result.is_ok());
    let link_at = r.commands.iter().position(|c| !c.contains(&"-c".to_string())).unwrap();
    assert_eq!(link_at, 3);
}
