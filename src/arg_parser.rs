//! The command line: one action and a few flags.
use vstd::prelude::*;
use crate::dependency::texts;
use crate::err::Error;

verus! {

/// What is wrong with the command line.
#[derive(Debug)]
pub enum ArgError {
    InvalidValue { value: String, arg: String, expl: String },
    MissingArgument(String),
    UnknownArgument(String),
    NoAction,
}

/// The action asked for.
#[derive(Debug)]
pub enum Action {
    /// No action was given.
    Nothing,
    Clean,
    Build,
    Run,
    Help,
    /// A new project in this directory.
    New(String),
}

/// The action as text.
pub enum ActionView {
    Nothing,
    Clean,
    Build,
    Run,
    Help,
    New(Seq<char>),
}

impl View for Action {
    type V = ActionView;

    open spec fn view(&self) -> ActionView {
        match self {
            Action::Nothing => ActionView::Nothing,
            Action::Clean => ActionView::Clean,
            Action::Build => ActionView::Build,
            Action::Run => ActionView::Run,
            Action::Help => ActionView::Help,
            Action::New(d) => ActionView::New(d@),
        }
    }
}

/// The parsed command line.
#[derive(Debug)]
pub struct Args {
    pub action: Action,
    pub release: bool,
    pub app_args: Vec<String>,
}

/// Why a command line is refused: an argument that needs a value and has
/// none, or an unknown argument.
pub enum ArgFault {
    Missing(Seq<char>),
    Unknown(Seq<char>),
}

pub open spec fn is_help_word(a: Seq<char>) -> bool {
    a == "help"@ || a == "h"@ || a == "-h"@ || a == "-?"@ || a == "--help"@
}

/// The command line from position `i` on, after the action and the release
/// flag that came before: the last action given wins, and everything after
/// `--` goes to the program that `run` starts.
pub open spec fn parse_from(args: Seq<Seq<char>>, i: int, action: ActionView, release: bool) -> Result<
    (ActionView, bool, Seq<Seq<char>>),
    ArgFault,
>
    decreases args.len() - i,
{
    if i < 0 || i >= args.len() {
        Ok((action, release, seq![]))
    } else {
        let a = args[i];
        if a == "clean"@ {
            parse_from(args, i + 1, ActionView::Clean, release)
        } else if a == "build"@ {
            parse_from(args, i + 1, ActionView::Build, release)
        } else if a == "run"@ {
            parse_from(args, i + 1, ActionView::Run, release)
        } else if is_help_word(a) {
            parse_from(args, i + 1, ActionView::Help, release)
        } else if a == "new"@ {
            if i + 1 >= args.len() {
                Err(ArgFault::Missing(a))
            } else {
                parse_from(args, i + 2, ActionView::New(args[i + 1]), release)
            }
        } else if a == "-r"@ || a == "--release"@ {
            parse_from(args, i + 1, action, true)
        } else if a == "--"@ {
            Ok((action, release, args.subrange(i + 1, args.len() as int)))
        } else {
            Err(ArgFault::Unknown(a))
        }
    }
}

/// The outcome of parsing a command line.
pub open spec fn parse_spec(args: Seq<Seq<char>>) -> Result<(ActionView, bool, Seq<Seq<char>>), ArgFault> {
    parse_from(args, 0, ActionView::Nothing, false)
}

fn word(s: &String, w: &str) -> (r: bool)
    ensures
        r == (s@ == w@),
{
    *s == String::from_str(w)
}

impl Args {
    pub open spec fn parts(&self) -> (ActionView, bool, Seq<Seq<char>>) {
        (self.action@, self.release, texts(self.app_args@))
    }

    /// Parses the arguments after the program name. A directory given to
    /// `new` is taken as it is written.
    pub fn parse(args: &Vec<String>) -> (r: Result<Args, Error>)
        ensures
            match parse_spec(texts(args@)) {
                Ok(p) => r is Ok && r->Ok_0.parts() == p,
                Err(ArgFault::Missing(a)) => r matches Err(Error::Arg(ArgError::MissingArgument(x)))
                    && x@ == a,
                Err(ArgFault::Unknown(a)) => r matches Err(Error::Arg(ArgError::UnknownArgument(x)))
                    && x@ == a,
            },
    {
        let ghost t = texts(args@);
        let mut action = Action::Nothing;
        let mut release = false;
        let mut i: usize = 0;
        while i < args.len()
            invariant
                t == texts(args@),
                i <= args@.len(),
                parse_spec(t) == parse_from(t, i as int, action@, release),
            decreases args@.len() - i,
        {
            let a = &args[i];
            assert(t[i as int] == a@);
            if word(a, "clean") {
                action = Action::Clean;
            } else if word(a, "build") {
                action = Action::Build;
            } else if word(a, "run") {
                action = Action::Run;
            } else if word(a, "help") || word(a, "h") || word(a, "-h") || word(a, "-?") || word(
                a,
                "--help",
            ) {
                action = Action::Help;
            } else if word(a, "new") {
                if i + 1 >= args.len() {
                    return Err(Error::Arg(ArgError::MissingArgument(a.clone())));
                }
                assert(t[i + 1] == args@[i + 1]@);
                action = Action::New(args[i + 1].clone());
                i += 1;
            } else if word(a, "-r") || word(a, "--release") {
                release = true;
            } else if word(a, "--") {
                let mut rest: Vec<String> = Vec::new();
                let mut j: usize = i + 1;
                while j < args.len()
                    invariant
                        t == texts(args@),
                        i < j <= args@.len(),
                        texts(rest@) == t.subrange(i + 1, j as int),
                    decreases args@.len() - j,
                {
                    let ghost before = rest@;
                    rest.push(args[j].clone());
                    assert(texts(rest@) =~= texts(before).push(t[j as int]));
                    j += 1;
                    assert(t.subrange(i + 1, j as int) =~= t.subrange(i + 1, j - 1).push(t[j - 1]));
                }
                return Ok(Args { action, release, app_args: rest });
            } else {
                return Err(Error::Arg(ArgError::UnknownArgument(a.clone())));
            }
            i += 1;
        }
        let r = Args { action, release, app_args: Vec::new() };
        assert(texts(r.app_args@) =~= Seq::<Seq<char>>::empty());
        Ok(r)
    }

    /// No action, debug profile, no arguments for the program.
    pub fn empty() -> (r: Args)
        ensures
            r.parts() == (ActionView::Nothing, false, Seq::<Seq<char>>::empty()),
    {
        let r = Args { action: Action::Nothing, release: false, app_args: Vec::new() };
        assert(texts(r.app_args@) =~= Seq::<Seq<char>>::empty());
        r
    }
}

impl Default for Args {
    fn default() -> (r: Args)
        ensures
            r.parts() == (ActionView::Nothing, false, Seq::<Seq<char>>::empty()),
    {
        Args::empty()
    }
}

} // verus!
