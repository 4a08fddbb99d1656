//! Small operations on strings and lists of strings.

use vstd::hash_set::StringHashSet;
use vstd::prelude::*;

verus! {

/// Appends one character to `s`.
///
/// Wraps `String::push`: the string afterwards is the string before followed by `c`.
#[verifier::external_body]
pub(crate) fn push_char(s: &mut String, c: char)
    ensures
        final(s)@ == old(s)@.push(c),
{
    s.push(c);
}

/// The strings of `list` in the order of their first occurrence, each of them once.
pub open spec fn distinct_of(list: Seq<Seq<char>>) -> Seq<Seq<char>>
    decreases list.len(),
{
    if list.len() == 0 {
        Seq::empty()
    } else {
        let before = distinct_of(list.drop_last());
        if before.contains(list.last()) {
            before
        } else {
            before.push(list.last())
        }
    }
}

/// `distinct_of` keeps every string of the list and none of them twice.
pub proof fn lemma_distinct_of(list: Seq<Seq<char>>)
    ensures
        distinct_of(list).no_duplicates(),
        distinct_of(list).to_set() == list.to_set(),
    decreases list.len(),
{
    if list.len() == 0 {
        assert(distinct_of(list).to_set() =~= list.to_set());
    } else {
        let front = list.drop_last();
        let before = distinct_of(front);
        lemma_distinct_of(front);
        assert(list =~= front.push(list.last()));
        front.lemma_push_to_set_commute(list.last());
        if before.contains(list.last()) {
            assert(before.to_set().contains(list.last()));
            assert(front.to_set().insert(list.last()) =~= front.to_set());
        } else {
            before.lemma_push_to_set_commute(list.last());
        }
    }
}

/// The strings of `list` in the order of their first occurrence, each of them once.
pub fn distinct(list: Vec<String>) -> (r: Vec<String>)
    ensures
        r.deep_view() == distinct_of(list.deep_view()),
        r.deep_view().no_duplicates(),
        r.deep_view().to_set() == list.deep_view().to_set(),
{
    let mut seen = StringHashSet::new();
    let mut r: Vec<String> = Vec::new();
    let ghost all = list.deep_view();
    assert(r.deep_view() =~= Seq::<Seq<char>>::empty());
    assert(r.deep_view().to_set() =~= Set::<Seq<char>>::empty());
    for word in it: list
        invariant
            it.seq().len() == all.len(),
            forall|k: int| 0 <= k < all.len() ==> (#[trigger] it.seq()[k])@ == all[k],
            seen@ == r.deep_view().to_set(),
            r.deep_view() == distinct_of(all.take(it.index() as int)),
    {
        let ghost before = r.deep_view();
        proof {
            assert(all.take(it.index() + 1).drop_last() =~= all.take(it.index() as int));
            assert(all.take(it.index() + 1).last() == word@);
            before.lemma_push_to_set_commute(word@);
        }
        if seen.insert(word.clone()) {
            r.push(word);
            assert(r.deep_view() =~= before.push(word@));
        } else {
            assert(seen@ =~= before.to_set());
        }
    }
    proof {
        assert(all.take(all.len() as int) =~= all);
        lemma_distinct_of(all);
    }
    r
}

/// The characters of `s`, one by one.
pub fn chars_of(s: &str) -> (r: Vec<char>)
    ensures
        r@ == s@,
{
    let mut r: Vec<char> = Vec::new();
    for c in it: s.chars()
        invariant
            it.seq() == s@,
            r@ == s@.take(it.index() as int),
    {
        r.push(c);
        assert(s@.take(it.index() + 1) =~= s@.take(it.index() as int).push(c));
    }
    assert(s@.take(s@.len() as int) =~= s@);
    r
}

/// Appends the characters of `text` from `from` up to `to`.
pub fn append_chars(out: &mut String, text: &Vec<char>, from: usize, to: usize)
    requires
        from <= to <= text.len(),
    ensures
        final(out)@ == old(out)@ + text@.subrange(from as int, to as int),
{
    let mut i: usize = from;
    while i < to
        invariant
            from <= i <= to <= text.len(),
            out@ == old(out)@ + text@.subrange(from as int, i as int),
        decreases to - i,
    {
        push_char(out, text[i]);
        assert(text@.subrange(from as int, i + 1) =~= text@.subrange(from as int, i as int).push(
            text@[i as int],
        ));
        i += 1;
    }
}

/// The strings of `words` with `between` between each two of them.
pub open spec fn joined(words: Seq<Seq<char>>, between: Seq<char>) -> Seq<char>
    decreases words.len(),
{
    if words.len() == 0 {
        Seq::empty()
    } else if words.len() == 1 {
        words[0]
    } else {
        joined(words.drop_last(), between) + between + words.last()
    }
}

/// Joins the strings of `words` with `between` between each two of them.
pub fn join(words: &Vec<String>, between: &str) -> (r: String)
    ensures
        r@ == joined(words.deep_view(), between@),
{
    let mut r = String::new();
    let ghost all = words.deep_view();
    let mut i: usize = 0;
    while i < words.len()
        invariant
            i <= words.len(),
            all == words.deep_view(),
            r@ == joined(all.take(i as int), between@),
        decreases words.len() - i,
    {
        proof {
            assert(all.take(i + 1).drop_last() =~= all.take(i as int));
            assert(all.take(i + 1).last() == words[i as int]@);
        }
        if i > 0 {
            r.append(between);
        }
        r.append(words[i].as_str());
        proof {
            if i == 0 {
                assert(r@ =~= words[0]@);
                assert(all.take(1)[0] == words[0]@);
            }
        }
        i += 1;
    }
    assert(all.take(all.len() as int) =~= all);
    r
}

} // verus!
