//! Watching one path that is named exactly.

use vstd::prelude::*;

use crate::explorers::Explorer;

verus! {

/// A file system explorer that looks for a simple path on the file system.
#[derive(Debug)]
pub struct ExactExplorer {
    path: String,
}

impl View for ExactExplorer {
    type V = Seq<char>;

    /// The path that is looked for.
    closed spec fn view(&self) -> Seq<char> {
        self.path@
    }
}

impl ExactExplorer {
    /// The path to look for, as it was given.
    pub fn path(&self) -> (r: &String)
        ensures
            r@ == self@,
    {
        &self.path
    }
}

impl Explorer for ExactExplorer {
    /// Every argument is taken as a path; whether it exists is not asked here.
    open spec fn accepts(arg: Seq<char>) -> bool {
        true
    }

    open spec fn targets(arg: Seq<char>) -> Set<Seq<char>> {
        set![arg]
    }

    open spec fn looks_for(&self) -> Set<Seq<char>> {
        set![self@]
    }

    fn from_cli_arg(arg: &str) -> (r: Self)
        ensures
            r@ == arg@,
    {
        Self { path: arg.to_owned() }
    }
}

} // verus!
