//! The meaning of an extended glob pattern.
//!
//! An extended pattern is read once from left to right. Outside any brace group every
//! character stands for itself. `{` opens a group of alternatives that are separated by
//! `,` and closed by the matching `}`; each alternative is itself an extended pattern.
//! A backslash takes the special meaning from the character that follows it; both
//! characters stay in the text. The pattern stands for every string that is obtained by
//! choosing one expansion of one alternative in each group.

use vstd::prelude::*;

verus! {

/// One piece of a pattern, as read outside any brace group.
pub enum Token {
    /// A character that stands for itself.
    Literal(char),
    /// A closed group: everything that any of its alternatives expands to.
    Subpatterns(Seq<Seq<char>>),
}

/// The piece that the character `c` is where it stands for itself.
pub open spec fn literal(c: char) -> Token {
    Token::Literal(c)
}

/// What a reader knows after a prefix of a pattern.
pub struct Scan {
    /// The pieces that are complete.
    pub tokens: Seq<Token>,
    /// The alternatives of the group being read, as written; the last one is still
    /// growing. Empty outside a group.
    pub open: Seq<Seq<char>>,
    /// How many groups are open.
    pub depth: nat,
    /// Whether the last character was a backslash that escapes the next one.
    pub escaped: bool,
}

/// Every string of `a` followed by every string of `b`, the strings of `a` varying slowest.
pub open spec fn cross(a: Seq<Seq<char>>, b: Seq<Seq<char>>) -> Seq<Seq<char>>
    decreases a.len(),
{
    if a.len() == 0 {
        Seq::empty()
    } else {
        cross(a.drop_last(), b) + suffixed(a.last(), b)
    }
}

/// `head` followed by each string of `b` in turn.
pub open spec fn suffixed(head: Seq<char>, b: Seq<Seq<char>>) -> Seq<Seq<char>> {
    Seq::new(b.len(), |j: int| head + b[j])
}

/// The state before any character is read.
pub open spec fn scan_start() -> Scan {
    Scan { tokens: Seq::empty(), open: Seq::empty(), depth: 0, escaped: false }
}

/// The state after a character that stands for itself.
pub open spec fn scan_plain(st: Scan, c: char) -> Scan {
    if st.depth == 0 {
        Scan { tokens: st.tokens.push(literal(c)), ..st }
    } else {
        Scan { open: st.open.update(st.open.len() - 1, st.open.last().push(c)), ..st }
    }
}

/// The expansions of each alternative in turn, one list after the other.
///
/// `bound` only witnesses termination: an alternative is always shorter than the pattern
/// it was cut from (see `lemma_alternatives_shorter`).
pub open spec fn flatten(alts: Seq<Seq<char>>, bound: nat) -> Seq<Seq<char>>
    decreases bound, 0nat, alts.len(),
{
    if alts.len() == 0 {
        Seq::empty()
    } else {
        flatten(alts.drop_last(), bound) + if alts.last().len() < bound {
            expansion_list(alts.last())
        } else {
            Seq::empty()
        }
    }
}

/// The state after reading `c` as the character number `bound` of a pattern, or `None`
/// where `c` closes a group that was never opened.
pub open spec fn scan_step(st: Scan, c: char, bound: nat) -> Option<Scan>
    decreases bound, 1nat,
{
    if st.escaped {
        Some(scan_plain(Scan { escaped: false, ..st }, c))
    } else if c == '\\' {
        Some(scan_plain(Scan { escaped: true, ..st }, c))
    } else if c == '{' {
        if st.depth == 0 {
            Some(Scan { open: seq![Seq::empty()], depth: 1, ..st })
        } else {
            Some(Scan { depth: st.depth + 1, ..scan_plain(st, c) })
        }
    } else if c == '}' {
        if st.depth == 0 {
            None
        } else if st.depth == 1 {
            Some(
                Scan {
                    tokens: st.tokens.push(Token::Subpatterns(flatten(st.open, bound))),
                    open: Seq::empty(),
                    depth: 0,
                    ..st
                },
            )
        } else {
            Some(Scan { depth: (st.depth - 1) as nat, ..scan_plain(st, c) })
        }
    } else if c == ',' && st.depth == 1 {
        Some(Scan { open: st.open.push(Seq::empty()), ..st })
    } else {
        Some(scan_plain(st, c))
    }
}

/// The state after reading all of `s`, or `None` where some `}` in it closes nothing.
pub open spec fn scan(s: Seq<char>) -> Option<Scan>
    decreases s.len(), 2nat,
{
    if s.len() == 0 {
        Some(scan_start())
    } else {
        match scan(s.drop_last()) {
            None => None,
            Some(st) => scan_step(st, s.last(), s.len()),
        }
    }
}

/// What one piece stands for.
pub open spec fn token_list(t: Token) -> Seq<Seq<char>> {
    match t {
        Token::Literal(c) => seq![seq![c]],
        Token::Subpatterns(list) => list,
    }
}

/// Every way to pick one string from each piece, joined in the order of the pieces.
pub open spec fn product(tokens: Seq<Token>) -> Seq<Seq<char>>
    decreases tokens.len(),
{
    if tokens.len() == 0 {
        seq![Seq::empty()]
    } else {
        cross(product(tokens.drop_last()), token_list(tokens.last()))
    }
}

/// What a state stands for when the pattern ends there: a group that is still open
/// contributes its alternatives as they were written.
pub open spec fn scan_list(st: Scan) -> Seq<Seq<char>> {
    if st.depth == 0 {
        product(st.tokens)
    } else {
        cross(product(st.tokens), st.open)
    }
}

/// The basic patterns that `s` expands to, in the order in which they are built and with
/// repetitions. Empty where `s` is not well nested.
pub open spec fn expansion_list(s: Seq<char>) -> Seq<Seq<char>>
    decreases s.len(), 3nat,
{
    match scan(s) {
        None => Seq::empty(),
        Some(st) => scan_list(st),
    }
}

/// No `}` in `s` closes a group that was never opened.
pub open spec fn well_nested(s: Seq<char>) -> bool {
    scan(s) is Some
}

/// The set of basic patterns that `s` expands to.
pub open spec fn expansions(s: Seq<char>) -> Set<Seq<char>> {
    expansion_list(s).to_set()
}

/// An alternative that a `,` has ended: it is well nested, with every group closed and
/// no escape pending.
pub open spec fn finished(alt: Seq<char>) -> bool {
    scan(alt) matches Some(x) && x.depth == 0 && !x.escaped
}

/// The alternative that `st` is still reading: it is well nested and lies one level
/// below the state that holds it.
pub open spec fn growing(alt: Seq<char>, st: Scan) -> bool {
    scan(alt) matches Some(x) && x.depth + 1 == st.depth && x.escaped == st.escaped
}

/// What holds of every state that `scan` reaches after `n` characters.
pub open spec fn reachable(st: Scan, n: nat) -> bool {
    &&& st.depth <= n
    &&& (st.depth == 0 <==> st.open.len() == 0)
    &&& forall|k: int| 0 <= k < st.open.len() ==> (#[trigger] st.open[k]).len() < n
    &&& forall|k: int| 0 <= k < st.open.len() - 1 ==> finished(#[trigger] st.open[k])
    &&& st.depth > 0 ==> growing(st.open.last(), st)
}

/// Reading one more character is one step from the state before it.
pub proof fn lemma_scan_push(s: Seq<char>, c: char)
    ensures
        scan(s.push(c)) == match scan(s) {
            None => None,
            Some(st) => scan_step(st, c, s.len() + 1),
        },
{
    assert(s.push(c).drop_last() =~= s);
}

/// A pattern is well nested only if each of its prefixes is.
pub proof fn lemma_well_nested_prefix(s: Seq<char>, k: int)
    requires
        0 <= k <= s.len(),
        well_nested(s),
    ensures
        well_nested(s.take(k)),
    decreases s.len() - k,
{
    if k < s.len() {
        lemma_well_nested_prefix(s, k + 1);
        assert(s.take(k + 1).drop_last() =~= s.take(k));
    } else {
        assert(s.take(k) =~= s);
    }
}

/// Every state that `scan` reaches is `reachable`. In particular each alternative of an
/// open group is shorter than the text read so far and is itself well nested.
pub proof fn lemma_alternatives_shorter(s: Seq<char>)
    ensures
        scan(s) matches Some(st) ==> reachable(st, s.len()),
    decreases s.len(),
{
    if s.len() > 0 {
        let p = s.drop_last();
        let c = s.last();
        lemma_alternatives_shorter(p);
        if let Some(st0) = scan(p) {
            if let Some(st) = scan_step(st0, c, s.len()) {
                if st0.depth > 0 {
                    let a = st0.open.last();
                    lemma_scan_push(a, c);
                    if st.open.len() == st0.open.len() + 1 {
                        assert(forall|k: int|
                            0 <= k < st.open.len() - 1 ==> st.open[k] == st0.open[k]);
                    } else if st.open.len() == st0.open.len() {
                        assert(st.open.last() == a.push(c));
                        assert(forall|k: int|
                            0 <= k < st.open.len() - 1 ==> st.open[k] == st0.open[k]);
                    }
                }
            }
        }
    }
}

/// The pieces of a pattern in which every character stands for itself.
pub open spec fn literals(s: Seq<char>) -> Seq<Token>
    decreases s.len(),
{
    if s.len() == 0 {
        Seq::empty()
    } else {
        literals(s.drop_last()).push(literal(s.last()))
    }
}

/// Whether `s` holds a brace anywhere, escaped or not.
pub open spec fn has_brace(s: Seq<char>) -> bool {
    s.contains('{') || s.contains('}')
}

proof fn lemma_product_of_literals(s: Seq<char>)
    ensures
        product(literals(s)) == seq![s],
    decreases s.len(),
{
    if s.len() == 0 {
        assert(s =~= Seq::empty());
    } else {
        let p = s.drop_last();
        let last = seq![seq![s.last()]];
        lemma_product_of_literals(p);
        assert(literals(s).drop_last() =~= literals(p));
        assert(seq![p].drop_last() =~= Seq::<Seq<char>>::empty());
        assert(p + seq![s.last()] =~= s);
        assert(cross(Seq::<Seq<char>>::empty(), last) =~= Seq::<Seq<char>>::empty());
        assert(suffixed(p, last) =~= seq![s]);
        assert(cross(seq![p], last) =~= seq![s]);
    }
}

proof fn lemma_scan_without_braces(s: Seq<char>)
    requires
        !has_brace(s),
    ensures
        scan(s) matches Some(st) && st.depth == 0 && st.tokens == literals(s),
    decreases s.len(),
{
    if s.len() > 0 {
        let p = s.drop_last();
        assert forall|c: char| p.contains(c) implies s.contains(c) by {
            let i = choose|i: int| 0 <= i < p.len() && p[i] == c;
            assert(s[i] == c);
        }
        lemma_scan_without_braces(p);
        assert(s.contains(s[s.len() - 1]));
        let st0 = scan(p).unwrap();
        assert(scan(s) == scan_step(st0, s.last(), s.len()));
    }
}

/// A pattern without braces is well nested and expands to itself and to nothing else.
pub proof fn lemma_plain_pattern_expands_to_itself(s: Seq<char>)
    requires
        !has_brace(s),
    ensures
        well_nested(s),
        expansion_list(s) == seq![s],
        expansions(s) == set![s],
{
    lemma_scan_without_braces(s);
    lemma_product_of_literals(s);
    assert(seq![s].to_set() =~= set![s]) by {
        assert(seq![s][0] == s);
    }
}

} // verus!
