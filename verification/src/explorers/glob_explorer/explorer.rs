//! The explorer that is made from an extended glob pattern.

use vstd::prelude::*;

use super::extend::ExtendError;
use super::extend_glob_pattern;
use super::grammar::expansion_list;
use super::grammar::expansions;
use super::grammar::well_nested;
use crate::explorers::Explorer;
use crate::text::distinct_of;

verus! {

/// `glob::PatternError`, what `glob::Pattern::new` gives for a pattern that does not compile.
/// Nothing of it is read here.
#[verifier::external_type_specification]
#[verifier::external_body]
pub struct ExPatternError(glob::PatternError);

/// Whether `glob::Pattern::new` takes `pattern` as a basic glob pattern: `?`, `*`, a `**`
/// that is a whole path component, `[...]` and `[!...]`, and characters that stand for
/// themselves. What separates path components is the platform's to say.
pub uninterp spec fn glob_syntax_ok(pattern: Seq<char>) -> bool;

/// Compiles `pattern` with `glob::Pattern::new` and drops the compiled pattern.
///
/// Trusted: the call succeeds exactly on the patterns that `glob_syntax_ok` names. It
/// reads nothing but its argument and returns for every string.
#[verifier::external_body]
fn check_glob_syntax(pattern: &str) -> (r: Result<(), glob::PatternError>)
    ensures
        r is Ok <==> glob_syntax_ok(pattern@),
{
    match glob::Pattern::new(pattern) {
        Ok(_) => Ok(()),
        Err(e) => Err(e),
    }
}

/// What `glob::PatternError` prints of itself: where the pattern is wrong and why.
///
/// Trusted: nothing is claimed of the text.
#[verifier::external_body]
fn describe_pattern_error(error: &glob::PatternError) -> String {
    error.to_string()
}

/// Why an argument is not an extended glob pattern.
#[derive(Debug, PartialEq)]
pub enum GlobArgError {
    /// The braces of the argument do not nest.
    Braces(ExtendError),
    /// One of the basic patterns that the argument expands to is none.
    Syntax { pattern: String, reason: String },
}

/// An explorer that uses extended glob patterns to find paths on the file system.
///
/// > ? matches any single character.
/// > * matches any (possibly empty) sequence of characters.
/// > ** matches the current directory and arbitrary subdirectories. This sequence must form a
/// >    single path component, so both **a and b** are invalid and will result in an error. A
/// >    sequence of more than two consecutive * characters is also invalid.
/// > [...] matches any character inside the brackets. Character sequences can also specify
/// >    ranges of characters, as ordered by Unicode, so e.g. [0-9] specifies any character
/// >    between 0 and 9 inclusive. An unclosed bracket is invalid.
/// > [!...] is the negation of [...], i.e. it matches any characters not in the brackets.
///
/// There is also extended support for disjunctive subpatterns using {sub1,sub2} syntax.
#[derive(Debug)]
pub struct GlobExplorer {
    patterns: Vec<String>,
}

impl View for GlobExplorer {
    type V = Seq<Seq<char>>;

    /// The basic patterns that are looked for.
    closed spec fn view(&self) -> Seq<Seq<char>> {
        self.patterns.deep_view()
    }
}

/// The basic patterns that `arg` expands to, in the order in which they are built and each
/// of them once.
pub open spec fn basic_patterns(arg: Seq<char>) -> Seq<Seq<char>> {
    distinct_of(expansion_list(arg))
}

/// The first of `patterns` that is no basic glob pattern.
pub open spec fn first_refused(patterns: Seq<Seq<char>>) -> Option<Seq<char>>
    decreases patterns.len(),
{
    if patterns.len() == 0 {
        None
    } else if !glob_syntax_ok(patterns.first()) {
        Some(patterns.first())
    } else {
        first_refused(patterns.drop_first())
    }
}

/// The first refused pattern is the one before which every pattern is a basic glob pattern.
pub proof fn lemma_first_refused_at(patterns: Seq<Seq<char>>, k: int)
    requires
        0 <= k < patterns.len(),
        forall|j: int| 0 <= j < k ==> glob_syntax_ok(#[trigger] patterns[j]),
        !glob_syntax_ok(patterns[k]),
    ensures
        first_refused(patterns) == Some(patterns[k]),
    decreases k,
{
    if k > 0 {
        let rest = patterns.drop_first();
        assert(forall|j: int| 0 <= j < k - 1 ==> rest[j] == patterns[j + 1]);
        lemma_first_refused_at(rest, k - 1);
    }
}

/// Every string of `patterns` is a basic glob pattern.
pub open spec fn all_glob_syntax_ok(patterns: Set<Seq<char>>) -> bool {
    forall|p: Seq<char>| #[trigger] patterns.contains(p) ==> glob_syntax_ok(p)
}

impl GlobExplorer {
    /// The basic patterns to look for, each of them once.
    pub fn patterns(&self) -> (r: &Vec<String>)
        ensures
            r.deep_view() == self@,
    {
        &self.patterns
    }

    /// Makes an explorer from `arg` where that can be done, and says why where it cannot:
    /// the braces of `arg` do not nest, or one of the patterns that it expands to is no
    /// basic glob pattern.
    pub fn try_from_cli_arg(arg: &str) -> (r: Result<Self, GlobArgError>)
        ensures
            r is Ok <==> Self::accepts(arg@),
            match r {
                Ok(explorer) => explorer@ == basic_patterns(arg@),
                Err(GlobArgError::Braces(e)) => !well_nested(arg@) && e
                    == ExtendError::UnmatchedClose,
                Err(GlobArgError::Syntax { pattern, reason }) => well_nested(arg@)
                    && first_refused(basic_patterns(arg@)) == Some(pattern@),
            },
    {
        let patterns = match extend_glob_pattern(arg) {
            Ok(patterns) => patterns,
            Err(e) => {
                return Err(GlobArgError::Braces(e));
            },
        };
        let mut i: usize = 0;
        while i < patterns.len()
            invariant
                i <= patterns.len(),
                patterns.deep_view() == basic_patterns(arg@),
                patterns.deep_view().to_set() == expansions(arg@),
                forall|k: int| 0 <= k < i ==> glob_syntax_ok(#[trigger] patterns.deep_view()[k]),
            decreases patterns.len() - i,
        {
            assert(patterns.deep_view()[i as int] == patterns[i as int]@);
            assert(patterns.deep_view().to_set().contains(patterns.deep_view()[i as int]));
            match check_glob_syntax(patterns[i].as_str()) {
                Ok(_) => {},
                Err(error) => {
                    proof {
                        lemma_first_refused_at(patterns.deep_view(), i as int);
                    }
                    let reason = describe_pattern_error(&error);
                    return Err(GlobArgError::Syntax { pattern: patterns[i].clone(), reason });
                },
            }
            i += 1;
        }
        assert(all_glob_syntax_ok(expansions(arg@))) by {
            assert forall|p: Seq<char>| #[trigger] expansions(arg@).contains(p) implies glob_syntax_ok(p) by {
                let k = choose|k: int| 0 <= k < patterns.len() && patterns.deep_view()[k] == p;
                assert(glob_syntax_ok(patterns.deep_view()[k]));
            }
        }
        Ok(Self::from_cli_arg(arg))
    }
}

impl Explorer for GlobExplorer {
    /// The braces of the argument nest and everything it expands to is a basic glob
    /// pattern.
    open spec fn accepts(arg: Seq<char>) -> bool {
        well_nested(arg) && all_glob_syntax_ok(expansions(arg))
    }

    open spec fn targets(arg: Seq<char>) -> Set<Seq<char>> {
        expansions(arg)
    }

    open spec fn looks_for(&self) -> Set<Seq<char>> {
        self@.to_set()
    }

    fn from_cli_arg(arg: &str) -> (r: Self)
        ensures
            r@ == basic_patterns(arg@),
    {
        Self { patterns: extend_glob_pattern(arg).unwrap() }
    }
}

} // verus!
