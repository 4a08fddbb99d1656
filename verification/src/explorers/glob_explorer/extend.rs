//! A builder that reads an extended glob pattern one character at a time and hands
//! out the basic glob patterns it stands for.

use vstd::prelude::*;

use super::grammar::cross;
use super::grammar::expansion_list;
use super::grammar::expansions;
use super::grammar::flatten;
use super::grammar::lemma_alternatives_shorter;
use super::grammar::lemma_scan_push;
use super::grammar::lemma_well_nested_prefix;
use super::grammar::product;
use super::grammar::reachable;
use super::grammar::scan;
use super::grammar::scan_plain;
use super::grammar::scan_start;
use super::grammar::scan_step;
use super::grammar::suffixed;
use super::grammar::well_nested;
use super::grammar::Scan;
use super::grammar::Token;
use crate::text::distinct;
use crate::text::distinct_of;
use crate::text::push_char;

verus! {

/// Why a character cannot be taken into a pattern.
#[derive(Debug, Clone, Copy, PartialEq, Eq, Structural)]
pub enum ExtendError {
    /// A `}` closes a group that was never opened.
    UnmatchedClose,
    /// More groups are open than the machine can count.
    TooDeep,
}

/// After `text`, the unescaped `{` that `c` is would open one group more than `usize` counts.
pub open spec fn too_deep(text: Seq<char>, c: char) -> bool {
    scan(text) matches Some(st) && !st.escaped && c == '{' && st.depth == usize::MAX
}

/// A piece of the pattern that is complete.
enum ExtendGlobToken {
    /// A simple top-level character. E.g., 'a'
    Literal(char),
    /// A closed group, already expanded. E.g., '{a,b,{00,11}!}' as ["a", "b", "00!", "11!"].
    Subpatterns(Vec<String>),
}

impl ExtendGlobToken {
    spec fn token(self) -> Token {
        match self {
            ExtendGlobToken::Literal(c) => Token::Literal(c),
            ExtendGlobToken::Subpatterns(list) => Token::Subpatterns(list.deep_view()),
        }
    }
}

spec fn tokens_of(v: Seq<ExtendGlobToken>) -> Seq<Token> {
    Seq::new(v.len(), |i: int| v[i].token())
}

/// A builder-flavoured struct that helps convert extended glob patterns into a collection of
/// basic glob patterns.
pub struct ExtendedGlobPatternBuilder {
    /// the pieces of the pattern that are complete
    tokens: Vec<ExtendGlobToken>,
    /// the alternatives of the group being read that a comma has ended
    open: Vec<String>,
    /// the alternative being read
    current: String,
    /// the current parsing depth (tracks nested {}); only the outermost group is taken apart
    /// here, nested ones are left to the expansion of its alternatives
    depth: usize,
    /// flags whether the previous character was a backslash (\) or not
    escaped: bool,
    /// every character taken so far
    text: Ghost<Seq<char>>,
}

impl View for ExtendedGlobPatternBuilder {
    type V = Seq<char>;

    /// The characters taken so far.
    closed spec fn view(&self) -> Seq<char> {
        self.text@
    }
}

/// `a` followed by `b`.
fn followed_by(a: &String, b: &String) -> (r: String)
    ensures
        r@ == a@ + b@,
{
    let mut r = a.clone();
    r.append(b.as_str());
    r
}

/// Every string of `a` followed by every string of `b`.
fn cross_strings(a: &Vec<String>, b: &Vec<String>) -> (r: Vec<String>)
    ensures
        r.deep_view() == cross(a.deep_view(), b.deep_view()),
{
    let mut r: Vec<String> = Vec::new();
    let mut i: usize = 0;
    while i < a.len()
        invariant
            i <= a.len(),
            r.deep_view() == cross(a.deep_view().take(i as int), b.deep_view()),
        decreases a.len() - i,
    {
        let ghost before = r.deep_view();
        let mut j: usize = 0;
        while j < b.len()
            invariant
                i < a.len(),
                j <= b.len(),
                r.deep_view() == before + suffixed(a.deep_view()[i as int], b.deep_view()).take(
                    j as int,
                ),
            decreases b.len() - j,
        {
            let word = followed_by(&a[i], &b[j]);
            let ghost inner = r.deep_view();
            r.push(word);
            assert(r.deep_view() =~= inner.push(word@));
            assert(r.deep_view() =~= before + suffixed(a.deep_view()[i as int], b.deep_view()).take(
                j + 1,
            ));
            j += 1;
        }
        proof {
            let full = suffixed(a.deep_view()[i as int], b.deep_view());
            assert(full.take(b.len() as int) =~= full);
            assert(a.deep_view().take(i + 1).drop_last() =~= a.deep_view().take(i as int));
        }
        i += 1;
    }
    assert(a.deep_view().take(a.len() as int) =~= a.deep_view());
    r
}

/// Appends `c` to every string of `list`.
fn push_to_each(list: &mut Vec<String>, c: char)
    ensures
        final(list).deep_view() == cross(old(list).deep_view(), seq![seq![c]]),
{
    let ghost start = list.deep_view();
    let mut i: usize = 0;
    while i < list.len()
        invariant
            i <= list.len(),
            list.len() == start.len(),
            list.deep_view().take(i as int) == cross(start.take(i as int), seq![seq![c]]),
            list.deep_view().skip(i as int) == start.skip(i as int),
        decreases list.len() - i,
    {
        let ghost before = list.deep_view();
        push_char(&mut list[i], c);
        proof {
            let head = start[i as int];
            assert(before[i as int] == before.skip(i as int)[0]);
            assert(list.deep_view() =~= before.update(i as int, head.push(c)));
            assert(head.push(c) =~= head + seq![c]);
            assert(list.deep_view().take(i + 1) =~= before.take(i as int) + suffixed(
                head,
                seq![seq![c]],
            ));
            assert(start.take(i + 1).drop_last() =~= start.take(i as int));
            assert forall|k: int| i < k < start.len() implies list.deep_view()[k] == start[k] by {
                assert(before[k] == before.skip(i as int)[k - i]);
                assert(start[k] == start.skip(i as int)[k - i]);
            }
            assert(list.deep_view().skip(i + 1) =~= start.skip(i + 1));
        }
        i += 1;
    }
    assert(start.take(start.len() as int) =~= start);
    assert(list.deep_view().take(list.len() as int) =~= list.deep_view());
}

impl ExtendedGlobPatternBuilder {
    /// The state of the reader that the fields stand for.
    closed spec fn shape(&self) -> Scan {
        Scan {
            tokens: tokens_of(self.tokens@),
            open: if self.depth == 0 {
                Seq::empty()
            } else {
                self.open.deep_view().push(self.current@)
            },
            depth: self.depth as nat,
            escaped: self.escaped,
        }
    }

    /// Outside a group nothing is kept of the last one.
    closed spec fn tidy(&self) -> bool {
        self.depth == 0 ==> self.open@.len() == 0 && self.current@.len() == 0
    }

    /// The fields hold what a reader holds after the characters taken so far.
    pub closed spec fn wf(&self) -> bool {
        &&& scan(self.text@) == Some(self.shape())
        &&& self.tidy()
    }

    /// Construct a new empty extended glob pattern builder. Helpful when calling `::character`
    /// directly, but it's generally more friendly to use `::from_pattern` instead.
    pub fn new() -> (r: Self)
        ensures
            r.wf(),
            r@ == Seq::<char>::empty(),
    {
        let r = Self {
            tokens: Vec::new(),
            open: Vec::new(),
            current: String::new(),
            depth: 0,
            escaped: false,
            text: Ghost(Seq::empty()),
        };
        assert(r.shape().tokens =~= scan_start().tokens);
        r
    }

    /// A character which lies inside a group. It is read again when the alternative that
    /// holds it is expanded.
    fn push_subpattern_character(&mut self, c: char)
        requires
            old(self).depth > 0,
        ensures
            final(self).shape() == scan_plain(old(self).shape(), c),
            final(self).text == old(self).text,
            final(self).depth == old(self).depth,
            final(self).tidy(),
    {
        push_char(&mut self.current, c);
        assert(self.shape().open =~= scan_plain(old(self).shape(), c).open);
    }

    fn normal_character(&mut self, c: char)
        requires
            old(self).tidy(),
        ensures
            final(self).shape() == scan_plain(old(self).shape(), c),
            final(self).text == old(self).text,
            final(self).depth == old(self).depth,
            final(self).tidy(),
    {
        if self.depth == 0 {
            self.tokens.push(ExtendGlobToken::Literal(c));
            assert(self.shape().tokens =~= scan_plain(old(self).shape(), c).tokens);
        } else {
            self.push_subpattern_character(c);
        }
    }

    fn comma(&mut self)
        requires
            old(self).tidy(),
            !old(self).escaped,
        ensures
            Some(final(self).shape()) == scan_step(old(self).shape(), ',', 0),
            final(self).text == old(self).text,
            final(self).tidy(),
    {
        if self.depth == 1 {
            // delimits two alternatives of the outermost group; prepare for the next one
            let mut ended = String::new();
            std::mem::swap(&mut ended, &mut self.current);
            self.open.push(ended);
            assert(self.shape().open =~= old(self).shape().open.push(Seq::empty()));
        } else {
            self.normal_character(',');
        }
    }

    fn open_parenthesis(&mut self) -> (r: Result<(), ExtendError>)
        requires
            old(self).tidy(),
            !old(self).escaped,
        ensures
            final(self).text == old(self).text,
            final(self).tidy(),
            match r {
                Ok(_) => Some(final(self).shape()) == scan_step(old(self).shape(), '{', 0),
                Err(e) => e == ExtendError::TooDeep && old(self).depth == usize::MAX
                    && *final(self) == *old(self),
            },
    {
        if self.depth == usize::MAX {
            return Err(ExtendError::TooDeep);
        }
        if self.depth == 0 {
            // prepare for the alternatives of an outermost group
            self.depth = 1;
            assert(self.current@ =~= Seq::<char>::empty());
            assert(self.shape().open =~= seq![Seq::<char>::empty()]);
        } else {
            self.push_subpattern_character('{');
            self.depth = self.depth + 1;
        }
        Ok(())
    }

    fn close_parenthesis(&mut self) -> (r: Result<(), ExtendError>)
        requires
            old(self).wf(),
            !old(self).escaped,
        ensures
            final(self).text == old(self).text,
            final(self).tidy(),
            match r {
                Ok(_) => Some(final(self).shape()) == scan_step(
                    old(self).shape(),
                    '}',
                    old(self).text@.len() + 1,
                ),
                Err(e) => e == ExtendError::UnmatchedClose && old(self).depth == 0
                    && *final(self) == *old(self),
            },
        decreases old(self)@.len(), 0nat,
    {
        if self.depth == 0 {
            return Err(ExtendError::UnmatchedClose);
        }
        if self.depth == 1 {
            // closing the outermost group: expand its alternatives recursively
            let ghost alts = self.shape().open;
            let ghost bound = self.text@.len() + 1;
            proof {
                lemma_alternatives_shorter(self.text@);
                assert(reachable(self.shape(), self.text@.len()));
            }
            let mut extended: Vec<String> = Vec::new();
            let mut k: usize = 0;
            while k < self.open.len()
                invariant
                    k <= self.open.len(),
                    alts == self.open.deep_view().push(self.current@),
                    reachable(self.shape(), self.text@.len()),
                    self.shape().open == alts,
                    bound == self.text@.len() + 1,
                    extended.deep_view() == flatten(alts.take(k as int), bound),
                decreases self.open.len() - k,
            {
                assert(alts[k as int] == self.open[k as int]@);
                let mut list = Self::expand_all(self.open[k].as_str()).unwrap();
                let ghost before = extended.deep_view();
                let ghost added = list.deep_view();
                extended.append(&mut list);
                proof {
                    assert(extended.deep_view() =~= before + added);
                    assert(alts.take(k + 1).drop_last() =~= alts.take(k as int));
                }
                k += 1;
            }
            assert(alts.last() == self.current@);
            let mut list = Self::expand_all(self.current.as_str()).unwrap();
            let ghost before = extended.deep_view();
            let ghost added = list.deep_view();
            extended.append(&mut list);
            proof {
                assert(extended.deep_view() =~= before + added);
                assert(alts.drop_last() =~= alts.take(self.open.len() as int));
                assert(extended.deep_view() == flatten(alts, bound));
            }
            self.tokens.push(ExtendGlobToken::Subpatterns(extended));
            self.open = Vec::new();
            self.current = String::new();
            self.depth = 0;
            proof {
                let after = scan_step(old(self).shape(), '}', bound).unwrap();
                assert(self.shape().tokens =~= after.tokens);
                assert(self.shape().open =~= after.open);
            }
        } else {
            self.push_subpattern_character('}');
            self.depth = self.depth - 1;
        }
        Ok(())
    }

    /// Parse a single additional character from the (potentially) extended glob pattern.
    ///
    /// The character is refused, and the builder left as it was, where it is a `}` that
    /// closes nothing or a `{` that opens one group too many for `usize`.
    pub fn character(&mut self, c: char) -> (r: Result<(), ExtendError>)
        requires
            old(self).wf(),
        ensures
            final(self).wf(),
            match r {
                Ok(_) => final(self)@ == old(self)@.push(c),
                Err(_) => final(self)@ == old(self)@,
            },
            r is Ok <==> well_nested(old(self)@.push(c)) && !too_deep(old(self)@, c),
            r == Err::<(), ExtendError>(ExtendError::UnmatchedClose) <==> !well_nested(
                old(self)@.push(c),
            ),
            r == Err::<(), ExtendError>(ExtendError::TooDeep) <==> too_deep(old(self)@, c),
        decreases old(self)@.len(), 1nat,
    {
        proof {
            lemma_scan_push(self.text@, c);
        }
        if self.escaped {
            self.escaped = false;
            self.normal_character(c);
        } else if c == '{' {
            match self.open_parenthesis() {
                Ok(_) => {},
                Err(e) => {
                    return Err(e);
                },
            }
        } else if c == '}' {
            match self.close_parenthesis() {
                Ok(_) => {},
                Err(e) => {
                    return Err(e);
                },
            }
        } else if c == ',' {
            self.comma();
        } else if c == '\\' {
            self.escaped = true;
            self.normal_character(c);
        } else {
            self.normal_character(c);
        }
        self.text = Ghost(self.text@.push(c));
        Ok(())
    }

    /// Reads a whole pattern.
    ///
    /// Fails where some `}` in it closes a group that was never opened.
    pub fn from_pattern(pattern: &str) -> (r: Result<Self, ExtendError>)
        ensures
            r is Ok <==> well_nested(pattern@),
            match r {
                Ok(builder) => builder.wf() && builder@ == pattern@,
                Err(e) => e == ExtendError::UnmatchedClose,
            },
        decreases pattern@.len(), 2nat,
    {
        // no more groups can be open than there are characters
        let n = pattern.unicode_len();
        let mut builder = Self::new();
        for c in it: pattern.chars()
            invariant
                it.seq() == pattern@,
                n == pattern@.len(),
                builder.wf(),
                builder@ == pattern@.take(it.index() as int),
        {
            proof {
                lemma_alternatives_shorter(builder@);
                assert(pattern@.take(it.index() + 1) =~= pattern@.take(it.index() as int).push(c));
            }
            match builder.character(c) {
                Ok(_) => {},
                Err(e) => {
                    proof {
                        if well_nested(pattern@) {
                            lemma_well_nested_prefix(pattern@, it.index() + 1);
                        }
                    }
                    return Err(e);
                },
            }
        }
        assert(pattern@.take(pattern@.len() as int) =~= pattern@);
        Ok(builder)
    }

    /// The basic patterns that `pattern` expands to, in the order in which they are built.
    fn expand_all(pattern: &str) -> (r: Result<Vec<String>, ExtendError>)
        ensures
            r is Ok <==> well_nested(pattern@),
            r matches Ok(list) ==> list.deep_view() == expansion_list(pattern@),
        decreases pattern@.len(), 3nat,
    {
        match Self::from_pattern(pattern) {
            Ok(builder) => Ok(builder.list()),
            Err(e) => Err(e),
        }
    }

    /// Every way through the pieces read so far.
    fn list(&self) -> (r: Vec<String>)
        requires
            self.wf(),
        ensures
            r.deep_view() == expansion_list(self@),
    {
        let mut basic_glob_patterns: Vec<String> = Vec::new();
        basic_glob_patterns.push(String::new());
        assert(basic_glob_patterns.deep_view() =~= seq![Seq::<char>::empty()]);
        let ghost tokens = tokens_of(self.tokens@);
        let mut i: usize = 0;
        while i < self.tokens.len()
            invariant
                i <= self.tokens.len(),
                tokens == tokens_of(self.tokens@),
                basic_glob_patterns.deep_view() == product(tokens.take(i as int)),
            decreases self.tokens.len() - i,
        {
            proof {
                assert(tokens.take(i + 1).drop_last() =~= tokens.take(i as int));
                assert(tokens.take(i + 1).last() == self.tokens[i as int].token());
            }
            match &self.tokens[i] {
                ExtendGlobToken::Literal(c) => {
                    push_to_each(&mut basic_glob_patterns, *c);
                },
                ExtendGlobToken::Subpatterns(subpatterns) => {
                    basic_glob_patterns = cross_strings(&basic_glob_patterns, subpatterns);
                },
            }
            i += 1;
        }
        assert(tokens.take(tokens.len() as int) =~= tokens);
        if self.depth > 0 {
            // the pattern ends inside a group: its alternatives are taken as they stand
            let mut alternatives = self.open.clone();
            alternatives.push(self.current.clone());
            assert(alternatives.deep_view() =~= self.shape().open);
            basic_glob_patterns = cross_strings(&basic_glob_patterns, &alternatives);
        }
        basic_glob_patterns
    }

    /// Converts the tokenized extended glob pattern into a collection of basic glob patterns:
    /// each pattern that the characters taken so far expand to, once.
    pub fn build(self) -> (r: Vec<String>)
        requires
            self.wf(),
        ensures
            r.deep_view() == distinct_of(expansion_list(self@)),
            r.deep_view().no_duplicates(),
            r.deep_view().to_set() == expansions(self@),
    {
        distinct(self.list())
    }
}

} // verus!
