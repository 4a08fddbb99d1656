//! The sources of paths to watch.

pub mod exact_explorer;
pub mod glob_explorer;

use vstd::prelude::*;

pub use exact_explorer::ExactExplorer;
pub use glob_explorer::GlobExplorer;

verus! {

/// A source of paths that is made from one command line argument.
pub trait Explorer: Sized {
    /// The arguments from which an explorer of this kind can be made.
    spec fn accepts(arg: Seq<char>) -> bool;

    /// What an explorer made from `arg` asks the file system for.
    spec fn targets(arg: Seq<char>) -> Set<Seq<char>>;

    /// What this explorer asks the file system for.
    spec fn looks_for(&self) -> Set<Seq<char>>;

    /// Construct an instance of a particular file system explorer given the cli argument
    fn from_cli_arg(arg: &str) -> (r: Self)
        requires
            Self::accepts(arg@),
        ensures
            r.looks_for() == Self::targets(arg@),
    ;
}

/// One explorer of either kind.
#[derive(Debug)]
pub enum PathExplorer {
    Exact(ExactExplorer),
    Glob(GlobExplorer),
}

} // verus!
