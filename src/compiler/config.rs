use vstd::prelude::*;
use crate::text::{decimal, int_text};

verus! {

/// The optimization level of a build.
#[derive(Debug, Clone, Copy, PartialEq, Eq, Structural)]
pub enum Optimization {
    Disabled,
    All,
    Level(i32),
}

impl Optimization {
    /// Whether this is `None`, `All`, or a level from `lo` to `hi` inclusive.
    pub fn in_range(&self, lo: i32, hi: i32) -> (r: bool)
        ensures
            r == opt_in_range(*self, lo, hi),
    {
        match self {
            Optimization::Level(l) => lo <= *l && *l <= hi,
            _ => true,
        }
    }

    /// The level as text: `None`, `All`, or the number.
    pub fn to_text(&self) -> (r: String)
        ensures
            r@ == opt_text(*self),
    {
        match self {
            Optimization::Disabled => String::from_str("None"),
            Optimization::All => String::from_str("All"),
            Optimization::Level(n) => int_text(*n),
        }
    }
}

/// `None`, `All`, or a level from `lo` to `hi` inclusive.
pub open spec fn opt_in_range(o: Optimization, lo: i32, hi: i32) -> bool {
    match o {
        Optimization::Level(l) => lo <= l <= hi,
        _ => true,
    }
}

pub open spec fn opt_text(o: Optimization) -> Seq<char> {
    match o {
        Optimization::Disabled => "None"@,
        Optimization::All => "All"@,
        Optimization::Level(n) => decimal(n as int),
    }
}

/// A language standard: a year number, or a name passed on as it is.
#[derive(Debug)]
pub enum Std {
    Number(i32),
    Name(String),
}

impl Std {
    /// A C standard number that the compilers know: 99, 11 or 17.
    pub fn is_c_num(&self) -> (r: bool)
        ensures
            r == match self {
                Std::Number(n) => *n == 99 || *n == 11 || *n == 17,
                Std::Name(_) => false,
            },
    {
        match self {
            Std::Number(n) => *n == 99 || *n == 11 || *n == 17,
            Std::Name(_) => false,
        }
    }

    /// A C++ standard number that the compilers know: 98, 3, 11, 14, 17 or 20.
    pub fn is_cpp_num(&self) -> (r: bool)
        ensures
            r == match self {
                Std::Number(n) => *n == 98 || *n == 3 || *n == 11 || *n == 14 || *n == 17 || *n
                    == 20,
                Std::Name(_) => false,
            },
    {
        match self {
            Std::Number(n) => *n == 98 || *n == 3 || *n == 11 || *n == 14 || *n == 17 || *n == 20,
            Std::Name(_) => false,
        }
    }

    /// A copy of this standard.
    pub fn duplicate(&self) -> (r: Std)
        ensures
            r == *self,
    {
        match self {
            Std::Number(n) => Std::Number(*n),
            Std::Name(s) => Std::Name(s.clone()),
        }
    }
}

/// The settings that turn into compiler and linker flags.
#[derive(Debug)]
pub struct Config {
    pub bin_root: String,
    pub src_root: String,
    pub optimization: Optimization,
    pub asan: bool,
    pub dbg_symbols: bool,
    pub c_std: Std,
    pub cpp_std: Std,
    pub defines: Vec<(String, Option<String>)>,
    pub warn: Vec<String>,
    pub no_warn: Vec<String>,
    pub args: Vec<String>,
}

} // verus!
