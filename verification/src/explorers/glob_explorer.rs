//! Watching the paths that match an extended glob pattern.

pub mod explorer;
pub mod extend;
pub mod grammar;
pub mod laws;

use vstd::prelude::*;

pub use explorer::GlobExplorer;

use crate::text::distinct_of;
use extend::ExtendError;
use extend::ExtendedGlobPatternBuilder;
use grammar::expansion_list;
use grammar::expansions;
use grammar::well_nested;

verus! {

/// A helper function which takes an extended glob pattern and returns an equivalent set of
/// basic glob patterns, each of them once.
///
/// Fails where some `}` in the pattern closes a group that was never opened.
pub fn extend_glob_pattern(pattern: &str) -> (r: Result<Vec<String>, ExtendError>)
    ensures
        r is Ok <==> well_nested(pattern@),
        match r {
            Ok(list) => list.deep_view() == distinct_of(expansion_list(pattern@))
                && list.deep_view().no_duplicates() && list.deep_view().to_set() == expansions(
                pattern@,
            ),
            Err(e) => e == ExtendError::UnmatchedClose,
        },
{
    match ExtendedGlobPatternBuilder::from_pattern(pattern) {
        Ok(builder) => Ok(builder.build()),
        Err(e) => Err(e),
    }
}

} // verus!
