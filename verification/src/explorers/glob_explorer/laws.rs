//! What expansion does to patterns that are put together from smaller ones.
//!
//! Patterns written one after the other expand to every expansion of the first followed by
//! every expansion of the second; a group expands to the expansions of its alternatives,
//! one list after the other.

use vstd::prelude::*;

use super::grammar::cross;
use super::grammar::expansion_list;
use super::grammar::finished;
use super::grammar::flatten;
use super::grammar::lemma_alternatives_shorter;
use super::grammar::lemma_scan_push;
use super::grammar::lemma_well_nested_prefix;
use super::grammar::product;
use super::grammar::scan;
use super::grammar::scan_list;
use super::grammar::scan_step;
use super::grammar::suffixed;
use super::grammar::token_list;
use super::grammar::well_nested;
use super::grammar::Scan;
use super::grammar::Token;
use crate::text::joined;

verus! {

/// Nothing followed by anything is nothing.
pub proof fn lemma_cross_of_none(b: Seq<Seq<char>>)
    ensures
        cross(Seq::empty(), b) == Seq::<Seq<char>>::empty(),
{
}

/// One string followed by every string of `b`.
pub proof fn lemma_cross_of_one(head: Seq<char>, b: Seq<Seq<char>>)
    ensures
        cross(seq![head], b) == suffixed(head, b),
{
    assert(seq![head].drop_last() =~= Seq::<Seq<char>>::empty());
    lemma_cross_of_none(b);
    assert(cross(seq![head], b) =~= suffixed(head, b));
}

/// Followed by the empty string alone, every string stays as it is.
pub proof fn lemma_cross_with_empty_string(a: Seq<Seq<char>>)
    ensures
        cross(a, seq![Seq::<char>::empty()]) == a,
    decreases a.len(),
{
    let unit = seq![Seq::<char>::empty()];
    if a.len() > 0 {
        lemma_cross_with_empty_string(a.drop_last());
        assert(a.last() + Seq::<char>::empty() =~= a.last());
        assert(suffixed(a.last(), unit) =~= seq![a.last()]);
        assert(a.drop_last() + seq![a.last()] =~= a);
    }
}

/// The empty string alone followed by every string of `b` gives `b`.
pub proof fn lemma_cross_after_empty_string(b: Seq<Seq<char>>)
    ensures
        cross(seq![Seq::<char>::empty()], b) == b,
{
    lemma_cross_of_one(Seq::<char>::empty(), b);
    assert forall|j: int| 0 <= j < b.len() implies suffixed(Seq::<char>::empty(), b)[j] == b[j] by {
        assert(Seq::<char>::empty() + b[j] =~= b[j]);
    }
    assert(suffixed(Seq::<char>::empty(), b) =~= b);
}

/// Two lists in a row, each followed by `c`.
pub proof fn lemma_cross_of_lists(p: Seq<Seq<char>>, q: Seq<Seq<char>>, c: Seq<Seq<char>>)
    ensures
        cross(p + q, c) == cross(p, c) + cross(q, c),
    decreases q.len(),
{
    if q.len() == 0 {
        assert(p + q =~= p);
        assert(cross(p, c) + cross(q, c) =~= cross(p, c));
    } else {
        lemma_cross_of_lists(p, q.drop_last(), c);
        assert((p + q).drop_last() =~= p + q.drop_last());
        assert((p + q).last() == q.last());
        assert(cross(p + q, c) =~= cross(p, c) + cross(q, c));
    }
}

/// A head may be put before the strings of `b` before or after they are followed by `c`.
pub proof fn lemma_cross_of_suffixed(head: Seq<char>, b: Seq<Seq<char>>, c: Seq<Seq<char>>)
    ensures
        cross(suffixed(head, b), c) == suffixed(head, cross(b, c)),
    decreases b.len(),
{
    if b.len() == 0 {
        assert(suffixed(head, b) =~= Seq::<Seq<char>>::empty());
        assert(suffixed(head, cross(b, c)) =~= Seq::<Seq<char>>::empty());
    } else {
        let front = b.drop_last();
        lemma_cross_of_suffixed(head, front, c);
        assert(suffixed(head, b).drop_last() =~= suffixed(head, front));
        assert(suffixed(head, b).last() == head + b.last());
        let inner = suffixed(b.last(), c);
        assert forall|j: int| 0 <= j < c.len() implies suffixed(head + b.last(), c)[j] == suffixed(
            head,
            inner,
        )[j] by {
            assert((head + b.last()) + c[j] =~= head + (b.last() + c[j]));
        }
        assert(suffixed(head + b.last(), c) =~= suffixed(head, inner));
        assert(suffixed(head, cross(front, c) + inner) =~= suffixed(head, cross(front, c))
            + suffixed(head, inner));
    }
}

/// Three lists may be joined from the left or from the right.
pub proof fn lemma_cross_associative(a: Seq<Seq<char>>, b: Seq<Seq<char>>, c: Seq<Seq<char>>)
    ensures
        cross(cross(a, b), c) == cross(a, cross(b, c)),
    decreases a.len(),
{
    if a.len() > 0 {
        lemma_cross_associative(a.drop_last(), b, c);
        lemma_cross_of_lists(cross(a.drop_last(), b), suffixed(a.last(), b), c);
        lemma_cross_of_suffixed(a.last(), b, c);
    }
}

/// The pieces of two patterns in a row give every way through the first followed by every
/// way through the second.
pub proof fn lemma_product_of_pieces(first: Seq<Token>, second: Seq<Token>)
    ensures
        product(first + second) == cross(product(first), product(second)),
    decreases second.len(),
{
    if second.len() == 0 {
        assert(first + second =~= first);
        lemma_cross_with_empty_string(product(first));
    } else {
        let front = second.drop_last();
        lemma_product_of_pieces(first, front);
        assert((first + second).drop_last() =~= first + front);
        assert((first + second).last() == second.last());
        lemma_cross_associative(product(first), product(front), token_list(second.last()));
    }
}

/// The expansions of each alternative in turn, one list after the other.
pub open spec fn expanded_alternatives(alts: Seq<Seq<char>>) -> Seq<Seq<char>>
    decreases alts.len(),
{
    if alts.len() == 0 {
        Seq::empty()
    } else {
        expanded_alternatives(alts.drop_last()) + expansion_list(alts.last())
    }
}

/// A bound that every alternative stays under makes no difference to `flatten`.
pub proof fn lemma_flatten_within_bound(alts: Seq<Seq<char>>, bound: nat)
    requires
        forall|k: int| 0 <= k < alts.len() ==> (#[trigger] alts[k]).len() < bound,
    ensures
        flatten(alts, bound) == expanded_alternatives(alts),
    decreases alts.len(),
{
    if alts.len() > 0 {
        let front = alts.drop_last();
        assert(forall|k: int| 0 <= k < front.len() ==> front[k] == alts[k]);
        lemma_flatten_within_bound(front, bound);
        assert(alts.last() == alts[alts.len() - 1]);
    }
}

/// After a pattern in which every group is closed, a second pattern is read as if it stood
/// alone; its pieces follow those of the first.
pub proof fn lemma_scan_sequence(first: Seq<char>, second: Seq<char>)
    requires
        finished(first),
        well_nested(second),
    ensures
        scan(first + second) == Some(
            Scan {
                tokens: scan(first).unwrap().tokens + scan(second).unwrap().tokens,
                ..scan(second).unwrap()
            },
        ),
    decreases second.len(),
{
    let whole = first + second;
    let head = scan(first).unwrap();
    if second.len() == 0 {
        assert(whole =~= first);
        lemma_alternatives_shorter(first);
        assert(head.tokens + scan(second).unwrap().tokens =~= head.tokens);
        assert(head.open =~= scan(second).unwrap().open);
    } else {
        let front = second.drop_last();
        let c = second.last();
        assert(second =~= front.push(c));
        assert(whole =~= (first + front).push(c));
        lemma_scan_push(front, c);
        lemma_scan_push(first + front, c);
        lemma_scan_sequence(first, front);
        lemma_alternatives_shorter(front);
        let alone = scan(front).unwrap();
        let after = scan(first + front).unwrap();
        lemma_flatten_within_bound(alone.open, (front.len() + 1) as nat);
        lemma_flatten_within_bound(alone.open, (first.len() + front.len() + 1) as nat);
        let alone_next = scan_step(alone, c, (front.len() + 1) as nat).unwrap();
        let after_next = scan_step(after, c, (first.len() + front.len() + 1) as nat).unwrap();
        assert(after_next.tokens =~= head.tokens + alone_next.tokens);
        assert(after_next.open =~= alone_next.open);
    }
}

/// Patterns written one after the other expand to every expansion of the first followed by
/// every expansion of the second, where every group of the first is closed and it does not
/// end in a backslash that escapes what follows.
pub proof fn lemma_expand_sequence(first: Seq<char>, second: Seq<char>)
    requires
        finished(first),
        well_nested(second),
    ensures
        well_nested(first + second),
        finished(second) ==> finished(first + second),
        expansion_list(first + second) == cross(expansion_list(first), expansion_list(second)),
{
    lemma_scan_sequence(first, second);
    let head = scan(first).unwrap();
    let tail = scan(second).unwrap();
    lemma_product_of_pieces(head.tokens, tail.tokens);
    if tail.depth > 0 {
        lemma_cross_associative(product(head.tokens), product(tail.tokens), tail.open);
    }
}

/// No comma of `alt` would end it as an alternative: each one is escaped or lies in a group
/// of `alt`.
pub open spec fn no_separator(alt: Seq<char>) -> bool {
    forall|k: int|
        0 <= k < alt.len() && alt[k] == ',' ==> match scan(#[trigger] alt.take(k)) {
            Some(st) => st.depth > 0 || st.escaped,
            None => true,
        }
}

/// A text that can stand as one alternative of a group: its own groups are closed, it does
/// not end in a backslash that escapes what follows, and no comma ends it early.
pub open spec fn whole_alternative(alt: Seq<char>) -> bool {
    finished(alt) && no_separator(alt)
}

/// The group with the alternatives `alts`, as it is written.
pub open spec fn group(alts: Seq<Seq<char>>) -> Seq<char> {
    seq!['{'] + joined(alts, seq![',']) + seq!['}']
}

/// In an outermost group a text without a separator goes to the alternative that is being
/// read, and is read there as it would be alone.
proof fn lemma_scan_inside(before: Seq<char>, alt: Seq<char>)
    requires
        scan(before) matches Some(st) && st.depth == 1 && !st.escaped,
        well_nested(alt),
        no_separator(alt),
    ensures
        scan(before + alt) == Some(
            Scan {
                tokens: scan(before).unwrap().tokens,
                open: scan(before).unwrap().open.drop_last().push(
                    scan(before).unwrap().open.last() + alt,
                ),
                depth: 1 + scan(alt).unwrap().depth,
                escaped: scan(alt).unwrap().escaped,
            },
        ),
    decreases alt.len(),
{
    let outer = scan(before).unwrap();
    lemma_alternatives_shorter(before);
    if alt.len() == 0 {
        assert(before + alt =~= before);
        assert(outer.open.last() + alt =~= outer.open.last());
        assert(outer.open.drop_last().push(outer.open.last()) =~= outer.open);
    } else {
        let front = alt.drop_last();
        let c = alt.last();
        assert(alt =~= front.push(c));
        assert(front =~= alt.take(front.len() as int));
        lemma_well_nested_prefix(alt, front.len() as int);
        assert(no_separator(front)) by {
            assert forall|k: int| 0 <= k < front.len() && front[k] == ',' implies match scan(
                #[trigger] front.take(k),
            ) {
                Some(st) => st.depth > 0 || st.escaped,
                None => true,
            } by {
                assert(front.take(k) =~= alt.take(k));
                assert(alt[k] == front[k]);
            }
        }
        lemma_scan_inside(before, front);
        assert(before + alt =~= (before + front).push(c));
        lemma_scan_push(before + front, c);
        lemma_scan_push(front, c);
        let inner = scan(front).unwrap();
        let reached = scan(before + front).unwrap();
        let n = (before.len() + front.len() + 1) as nat;
        let next = scan_step(reached, c, n).unwrap();
        assert(alt[front.len() as int] == c);
        assert(next.open =~= outer.open.drop_last().push(outer.open.last() + alt)) by {
            assert((outer.open.last() + front).push(c) =~= outer.open.last() + alt);
        }
    }
}

/// After the brace that opens an outermost group and the alternatives written with commas
/// between them, the reader holds just these alternatives.
proof fn lemma_scan_alternatives(alts: Seq<Seq<char>>)
    requires
        alts.len() > 0,
        forall|i: int| 0 <= i < alts.len() ==> whole_alternative(#[trigger] alts[i]),
    ensures
        scan(seq!['{'] + joined(alts, seq![','])) == Some(
            Scan { tokens: Seq::empty(), open: alts, depth: 1, escaped: false },
        ),
    decreases alts.len(),
{
    let open = seq!['{'];
    let comma = seq![','];
    let last = alts.last();
    assert(whole_alternative(alts[alts.len() - 1]));
    if alts.len() == 1 {
        assert(open =~= Seq::<char>::empty().push('{'));
        lemma_scan_push(Seq::<char>::empty(), '{');
        lemma_scan_inside(open, last);
        assert(joined(alts, comma) == alts[0]);
        let start = scan(open).unwrap();
        assert(start.open.drop_last().push(start.open.last() + last) =~= alts) by {
            assert(Seq::<char>::empty() + last =~= last);
        }
    } else {
        let front = alts.drop_last();
        assert(forall|i: int| 0 <= i < front.len() ==> front[i] == alts[i]);
        lemma_scan_alternatives(front);
        let read = open + joined(front, comma);
        lemma_scan_push(read, ',');
        let separated = read.push(',');
        lemma_scan_inside(separated, last);
        assert(open + joined(alts, comma) =~= separated + last);
        let start = scan(separated).unwrap();
        assert(start.open =~= front.push(Seq::<char>::empty()));
        assert(start.open.drop_last().push(start.open.last() + last) =~= alts) by {
            assert(Seq::<char>::empty() + last =~= last);
        }
    }
}

/// A group expands to the expansions of its alternatives, one list after the other.
pub proof fn lemma_expand_group(alts: Seq<Seq<char>>)
    requires
        alts.len() > 0,
        forall|i: int| 0 <= i < alts.len() ==> whole_alternative(#[trigger] alts[i]),
    ensures
        finished(group(alts)),
        expansion_list(group(alts)) == expanded_alternatives(alts),
{
    let body = seq!['{'] + joined(alts, seq![',']);
    lemma_scan_alternatives(alts);
    lemma_alternatives_shorter(body);
    assert(group(alts) =~= body.push('}'));
    lemma_scan_push(body, '}');
    lemma_flatten_within_bound(alts, (body.len() + 1) as nat);
    let list = expanded_alternatives(alts);
    let pieces = Seq::<Token>::empty().push(Token::Subpatterns(list));
    assert(pieces.drop_last() =~= Seq::<Token>::empty());
    assert(product(pieces) == cross(product(pieces.drop_last()), token_list(pieces.last())));
    lemma_cross_after_empty_string(list);
}

/// A character that is neither a brace nor a backslash expands to itself.
pub proof fn lemma_expand_character(c: char)
    requires
        c != '{',
        c != '}',
        c != '\\',
    ensures
        finished(seq![c]),
        expansion_list(seq![c]) == seq![seq![c]],
{
    let text = seq![c];
    assert(text =~= Seq::<char>::empty().push(c));
    lemma_scan_push(Seq::<char>::empty(), c);
    let pieces = scan(text).unwrap().tokens;
    assert(pieces.drop_last() =~= Seq::<Token>::empty());
    assert(product(pieces) == cross(product(pieces.drop_last()), token_list(pieces.last())));
    lemma_cross_after_empty_string(seq![seq![c]]);
}

/// A backslash and the character after it expand to themselves, whatever the character is.
pub proof fn lemma_expand_escaped(c: char)
    ensures
        finished(seq!['\\', c]),
        expansion_list(seq!['\\', c]) == seq![seq!['\\', c]],
{
    let escape = seq!['\\'];
    let text = seq!['\\', c];
    assert(escape =~= Seq::<char>::empty().push('\\'));
    assert(text =~= escape.push(c));
    lemma_scan_push(Seq::<char>::empty(), '\\');
    lemma_scan_push(escape, c);
    let pieces = scan(text).unwrap().tokens;
    let front = pieces.drop_last();
    assert(front.drop_last() =~= Seq::<Token>::empty());
    assert(product(front) == cross(product(front.drop_last()), token_list(front.last())));
    lemma_cross_after_empty_string(seq![escape]);
    assert(product(pieces) == cross(product(front), token_list(pieces.last())));
    lemma_cross_of_one(escape, seq![seq![c]]);
    assert(suffixed(escape, seq![seq![c]]) =~= seq![text]) by {
        assert(escape + seq![c] =~= text);
    }
}

} // verus!
