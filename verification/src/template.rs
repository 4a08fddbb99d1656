//! The command template and what is put in the place of its placeholders.
//!
//! A template holds placeholders of three names, each written `$name` or `${name}`. A
//! placeholder is replaced by the value of its name; where no value is at hand it stays
//! as it is written. A backslash directly before a placeholder is dropped and the
//! placeholder is left as it is written. Everything else is copied.

use vstd::prelude::*;

use crate::text::append_chars;
use crate::text::chars_of;
use crate::text::push_char;

verus! {

/// What a placeholder asks for.
#[derive(Debug, Clone, Copy, PartialEq, Eq, Structural)]
pub enum Placeholder {
    /// The kind of the difference: `new`, `modified` or `deleted`.
    Diff,
    /// The path that changed.
    Path,
    /// When the path was last modified.
    Mtime,
}

/// The name that stands for `p` in a template.
pub open spec fn name_of(p: Placeholder) -> Seq<char> {
    match p {
        Placeholder::Diff => seq!['d', 'i', 'f', 'f'],
        Placeholder::Path => seq!['p', 'a', 't', 'h'],
        Placeholder::Mtime => seq!['m', 't', 'i', 'm', 'e'],
    }
}

/// The placeholder `$name`.
pub open spec fn plain_form(p: Placeholder) -> Seq<char> {
    seq!['$'] + name_of(p)
}

/// The placeholder `${name}`.
pub open spec fn braced_form(p: Placeholder) -> Seq<char> {
    seq!['$', '{'] + name_of(p) + seq!['}']
}

/// `word` is written in `text` from position `at` on.
pub open spec fn stands_at(text: Seq<char>, at: int, word: Seq<char>) -> bool {
    &&& 0 <= at
    &&& at + word.len() <= text.len()
    &&& forall|k: int| 0 <= k < word.len() ==> text[at + k] == #[trigger] word[k]
}

/// `p` is written at `at` in one of its two forms; the result is the length of the form.
pub open spec fn form_at(text: Seq<char>, at: int, p: Placeholder) -> Option<nat> {
    if stands_at(text, at, braced_form(p)) {
        Some(braced_form(p).len())
    } else if stands_at(text, at, plain_form(p)) {
        Some(plain_form(p).len())
    } else {
        None
    }
}

/// The placeholder that is written at `at`, with the number of characters it takes.
pub open spec fn placeholder_at(text: Seq<char>, at: int) -> Option<(Placeholder, nat)> {
    if form_at(text, at, Placeholder::Diff) is Some {
        Some((Placeholder::Diff, form_at(text, at, Placeholder::Diff).unwrap()))
    } else if form_at(text, at, Placeholder::Path) is Some {
        Some((Placeholder::Path, form_at(text, at, Placeholder::Path).unwrap()))
    } else if form_at(text, at, Placeholder::Mtime) is Some {
        Some((Placeholder::Mtime, form_at(text, at, Placeholder::Mtime).unwrap()))
    } else {
        None
    }
}

/// The values at hand for a substitution.
pub struct Values {
    pub diff: Seq<char>,
    pub path: Seq<char>,
    /// `None` where no time is known.
    pub mtime: Option<Seq<char>>,
}

/// The value that `p` asks for, where there is one.
pub open spec fn value_of(p: Placeholder, values: Values) -> Option<Seq<char>> {
    match p {
        Placeholder::Diff => Some(values.diff),
        Placeholder::Path => Some(values.path),
        Placeholder::Mtime => values.mtime,
    }
}

/// What becomes of the template from position `at` on.
pub open spec fn substituted_from(template: Seq<char>, at: int, values: Values) -> Seq<char>
    decreases template.len() - at,
{
    if at < 0 || at >= template.len() {
        Seq::empty()
    } else if template[at] == '\\' && placeholder_at(template, at + 1) is Some {
        let n = placeholder_at(template, at + 1).unwrap().1;
        template.subrange(at + 1, at + 1 + n) + substituted_from(template, at + 1 + n, values)
    } else {
        match placeholder_at(template, at) {
            Some((p, n)) => (match value_of(p, values) {
                Some(value) => value,
                None => template.subrange(at, at + n),
            }) + substituted_from(template, at + n, values),
            None => seq![template[at]] + substituted_from(template, at + 1, values),
        }
    }
}

/// The template with a value in the place of each placeholder.
pub open spec fn substituted(template: Seq<char>, values: Values) -> Seq<char> {
    substituted_from(template, 0, values)
}

/// A word that is written in two parts is written where the first part is and the second
/// follows it.
pub proof fn lemma_stands_at_parts(text: Seq<char>, at: int, a: Seq<char>, b: Seq<char>)
    ensures
        stands_at(text, at, a + b) <==> stands_at(text, at, a) && stands_at(text, at + a.len(), b),
{
    let word = a + b;
    if stands_at(text, at, word) {
        assert forall|k: int| 0 <= k < a.len() implies text[at + k] == #[trigger] a[k] by {
            assert(word[k] == a[k]);
        }
        assert forall|k: int| 0 <= k < b.len() implies text[at + a.len() + k] == #[trigger] b[k] by {
            assert(word[a.len() + k] == b[k]);
        }
    }
    if stands_at(text, at, a) && stands_at(text, at + a.len(), b) {
        assert forall|k: int| 0 <= k < word.len() implies text[at + k] == #[trigger] word[k] by {
            if k < a.len() {
                assert(word[k] == a[k]);
            } else {
                assert(word[k] == b[k - a.len()]);
            }
        }
    }
}

/// The number of characters of the name of `p`.
fn name_len(p: Placeholder) -> (n: usize)
    ensures
        n == name_of(p).len(),
        4 <= n <= 5,
{
    match p {
        Placeholder::Diff => 4,
        Placeholder::Path => 4,
        Placeholder::Mtime => 5,
    }
}

/// The name that is written at `at`, where one is.
fn name_at(text: &Vec<char>, at: usize) -> (r: Option<Placeholder>)
    requires
        at <= text.len(),
    ensures
        forall|p: Placeholder| stands_at(text@, at as int, #[trigger] name_of(p)) <==> r == Some(p),
{
    let left = text.len() - at;
    let r = if left >= 4 && text[at] == 'd' && text[at + 1] == 'i' && text[at + 2] == 'f' && text[at
        + 3] == 'f' {
        Some(Placeholder::Diff)
    } else if left >= 4 && text[at] == 'p' && text[at + 1] == 'a' && text[at + 2] == 't' && text[at
        + 3] == 'h' {
        Some(Placeholder::Path)
    } else if left >= 5 && text[at] == 'm' && text[at + 1] == 't' && text[at + 2] == 'i' && text[at
        + 3] == 'm' && text[at + 4] == 'e' {
        Some(Placeholder::Mtime)
    } else {
        None
    };
    proof {
        assert forall|p: Placeholder| stands_at(text@, at as int, #[trigger] name_of(p)) <==> r
            == Some(p) by {
            let word = name_of(p);
            if stands_at(text@, at as int, word) {
                assert(text@[at + 0] == word[0]);
                assert(text@[at + 1] == word[1]);
                assert(text@[at + 2] == word[2]);
                assert(text@[at + 3] == word[3]);
                if p == Placeholder::Mtime {
                    assert(text@[at + 4] == word[4]);
                }
            }
        }
    }
    r
}

/// The placeholder that is written at `at`, with the number of characters it takes.
fn find_placeholder(text: &Vec<char>, at: usize) -> (r: Option<(Placeholder, usize)>)
    requires
        at <= text.len(),
    ensures
        match r {
            Some((p, n)) => placeholder_at(text@, at as int) == Some((p, n as nat)) && 5 <= n
                && at + n <= text.len(),
            None => placeholder_at(text@, at as int) is None,
        },
{
    proof {
        assert forall|p: Placeholder| true implies {
            &&& stands_at(text@, at as int, #[trigger] plain_form(p)) <==> at < text.len()
                && text@[at as int] == '$' && stands_at(text@, at + 1, name_of(p))
            &&& stands_at(text@, at as int, #[trigger] braced_form(p)) <==> at + 1 < text.len()
                && text@[at as int] == '$' && text@[at + 1] == '{' && stands_at(
                text@,
                at + 2,
                name_of(p),
            ) && at + 2 + name_of(p).len() < text.len() && text@[at + 2 + name_of(p).len()] == '}'
        } by {
            let dollar = seq!['$'];
            let open = seq!['$', '{'];
            let close = seq!['}'];
            lemma_stands_at_parts(text@, at as int, dollar, name_of(p));
            lemma_stands_at_parts(text@, at as int, open + name_of(p), close);
            lemma_stands_at_parts(text@, at as int, open, name_of(p));
            assert(stands_at(text@, at as int, dollar) <==> at < text.len() && text@[at as int]
                == '$') by {
                if stands_at(text@, at as int, dollar) {
                    assert(text@[at + 0] == dollar[0]);
                }
            }
            assert(stands_at(text@, at as int, open) <==> at + 1 < text.len() && text@[at as int]
                == '$' && text@[at + 1] == '{') by {
                if stands_at(text@, at as int, open) {
                    assert(text@[at + 0] == open[0]);
                    assert(text@[at + 1] == open[1]);
                }
            }
            let end = at + 2 + name_of(p).len();
            assert(stands_at(text@, end, close) <==> end < text.len() && text@[end] == '}') by {
                if stands_at(text@, end, close) {
                    assert(text@[end + 0] == close[0]);
                }
            }
        }
    }
    let ghost brace = at + 1 < text.len() && text@[at + 1] == '{';
    let r = if at >= text.len() || text[at] != '$' {
        None
    } else if text.len() - at >= 2 && text[at + 1] == '{' {
        match name_at(text, at + 2) {
            Some(p) => {
                let n = name_len(p);
                if text.len() - at - 2 > n && text[at + 2 + n] == '}' {
                    Some((p, n + 3))
                } else {
                    None
                }
            },
            None => None,
        }
    } else {
        match name_at(text, at + 1) {
            Some(p) => Some((p, name_len(p) + 1)),
            None => None,
        }
    };
    proof {
        let d = Placeholder::Diff;
        let p = Placeholder::Path;
        let m = Placeholder::Mtime;
        assert(plain_form(d).len() == 5 && plain_form(p).len() == 5 && plain_form(m).len() == 6);
        assert(braced_form(d).len() == 7 && braced_form(p).len() == 7 && braced_form(m).len() == 8);
        assert(name_of(d).len() == 4 && name_of(p).len() == 4 && name_of(m).len() == 5);
        if brace {
            assert(!stands_at(text@, at + 1, name_of(d))) by {
                if stands_at(text@, at + 1, name_of(d)) {
                    assert(text@[at + 1 + 0] == name_of(d)[0]);
                }
            }
            assert(!stands_at(text@, at + 1, name_of(p))) by {
                if stands_at(text@, at + 1, name_of(p)) {
                    assert(text@[at + 1 + 0] == name_of(p)[0]);
                }
            }
            assert(!stands_at(text@, at + 1, name_of(m))) by {
                if stands_at(text@, at + 1, name_of(m)) {
                    assert(text@[at + 1 + 0] == name_of(m)[0]);
                }
            }
        }
    }
    r
}

/// The values at hand, as plain values.
pub open spec fn values_of(diff: Seq<char>, path: Seq<char>, mtime: Option<&str>) -> Values {
    Values {
        diff,
        path,
        mtime: match mtime {
            Some(text) => Some(text@),
            None => None,
        },
    }
}

/// Puts `diff`, `path` and `mtime` in the place of their placeholders in `template`.
///
/// A placeholder for the time stays as it is written where `mtime` is `None`. A backslash
/// directly before a placeholder is dropped, and the placeholder stays as it is written.
pub fn substitute(template: &str, diff: &str, path: &str, mtime: Option<&str>) -> (r: String)
    ensures
        r@ == substituted(template@, values_of(diff@, path@, mtime)),
{
    let text = chars_of(template);
    let ghost values = values_of(diff@, path@, mtime);
    let mut out = String::new();
    let mut i: usize = 0;
    while i < text.len()
        invariant
            i <= text.len(),
            text@ == template@,
            values == values_of(diff@, path@, mtime),
            out@ + substituted_from(text@, i as int, values) == substituted(text@, values),
        decreases text.len() - i,
    {
        let ghost before = out@;
        let ghost rest = substituted_from(text@, i as int, values);
        let escaped = if text[i] == '\\' {
            find_placeholder(&text, i + 1)
        } else {
            None
        };
        match escaped {
            Some((_, n)) => {
                // an escaped placeholder: the backslash goes, the placeholder stays
                append_chars(&mut out, &text, i + 1, i + 1 + n);
                assert(out@ + substituted_from(text@, i + 1 + n, values) =~= before + rest);
                i = i + 1 + n;
            },
            None => match find_placeholder(&text, i) {
                Some((p, n)) => {
                    let value = match p {
                        Placeholder::Diff => Some(diff),
                        Placeholder::Path => Some(path),
                        Placeholder::Mtime => mtime,
                    };
                    match value {
                        Some(value) => out.append(value),
                        None => append_chars(&mut out, &text, i, i + n),
                    }
                    assert(out@ + substituted_from(text@, i + n, values) =~= before + rest);
                    i = i + n;
                },
                None => {
                    push_char(&mut out, text[i]);
                    assert(out@ + substituted_from(text@, i + 1, values) =~= before + rest);
                    i = i + 1;
                },
            },
        }
    }
    assert(out@ + substituted_from(text@, i as int, values) =~= out@);
    out
}

/// One of the two ways to write the placeholder `p`.
pub open spec fn form_of(p: Placeholder, braced: bool) -> Seq<char> {
    if braced {
        braced_form(p)
    } else {
        plain_form(p)
    }
}

/// What is written at a position depends only on the text from there on.
proof fn lemma_placeholder_at_shift(before: Seq<char>, text: Seq<char>, at: int)
    requires
        0 <= at,
    ensures
        placeholder_at(before + text, before.len() + at) == placeholder_at(text, at),
{
    let whole = before + text;
    assert forall|word: Seq<char>|
        stands_at(whole, before.len() + at, word) == stands_at(text, at, word) by {
        if stands_at(text, at, word) {
            assert forall|k: int| 0 <= k < word.len() implies whole[before.len() + at + k]
                == #[trigger] word[k] by {
                assert(whole[before.len() + at + k] == text[at + k]);
            }
        }
        if stands_at(whole, before.len() + at, word) {
            assert forall|k: int| 0 <= k < word.len() implies text[at + k] == #[trigger] word[k] by {
                assert(whole[before.len() + at + k] == text[at + k]);
            }
        }
    }
}

/// What becomes of a text from a position on depends only on the text from there on.
proof fn lemma_substituted_shift(before: Seq<char>, text: Seq<char>, at: int, values: Values)
    requires
        0 <= at,
    ensures
        substituted_from(before + text, before.len() + at, values) == substituted_from(
            text,
            at,
            values,
        ),
    decreases text.len() - at,
{
    let whole = before + text;
    let shifted = before.len() + at;
    if at < text.len() {
        lemma_placeholder_at_shift(before, text, at);
        lemma_placeholder_at_shift(before, text, at + 1);
        assert(whole[shifted] == text[at]);
        if text[at] == '\\' && placeholder_at(text, at + 1) is Some {
            let n = placeholder_at(text, at + 1).unwrap().1;
            assert(at + 1 + n <= text.len());
            assert(whole.subrange(shifted + 1, shifted + 1 + n) =~= text.subrange(
                at + 1,
                at + 1 + n,
            ));
            lemma_substituted_shift(before, text, at + 1 + n, values);
        } else {
            match placeholder_at(text, at) {
                Some((p, n)) => {
                    assert(at + n <= text.len());
                    assert(whole.subrange(shifted, shifted + n) =~= text.subrange(at, at + n));
                    lemma_substituted_shift(before, text, at + n, values);
                },
                None => {
                    lemma_substituted_shift(before, text, at + 1, values);
                },
            }
        }
    }
}

/// A text that begins with a placeholder has that placeholder at its start and no other.
proof fn lemma_own_form(p: Placeholder, braced: bool, rest: Seq<char>)
    ensures
        placeholder_at(form_of(p, braced) + rest, 0) == Some((p, form_of(p, braced).len())),
{
    let form = form_of(p, braced);
    let text = form + rest;
    assert(stands_at(text, 0, form)) by {
        assert forall|k: int| 0 <= k < form.len() implies text[0 + k] == #[trigger] form[k] by {}
    }
    assert forall|q: Placeholder, b: bool| (q != p || b != braced) implies !stands_at(
        text,
        0,
        #[trigger] form_of(q, b),
    ) by {
        let other = form_of(q, b);
        if stands_at(text, 0, other) {
            assert(text[0int + 1] == other[1]);
            assert(text[0int + 2] == other[2]);
            assert(text[1] == form[1]);
            assert(text[2] == form[2]);
        }
    }
    assert(form_of(Placeholder::Diff, true) == braced_form(Placeholder::Diff));
    assert(form_of(Placeholder::Diff, false) == plain_form(Placeholder::Diff));
    assert(form_of(Placeholder::Path, true) == braced_form(Placeholder::Path));
    assert(form_of(Placeholder::Path, false) == plain_form(Placeholder::Path));
    assert(form_of(Placeholder::Mtime, true) == braced_form(Placeholder::Mtime));
    assert(form_of(Placeholder::Mtime, false) == plain_form(Placeholder::Mtime));
}

/// A placeholder at the start of a text is replaced by its value, or stays as it is written
/// where there is no value for it, and the rest of the text is gone through on its own.
pub proof fn lemma_placeholder_replaced(
    p: Placeholder,
    braced: bool,
    rest: Seq<char>,
    values: Values,
)
    ensures
        substituted(form_of(p, braced) + rest, values) == (match value_of(p, values) {
            Some(value) => value,
            None => form_of(p, braced),
        }) + substituted(rest, values),
{
    let form = form_of(p, braced);
    let text = form + rest;
    lemma_own_form(p, braced, rest);
    lemma_substituted_shift(form, rest, 0, values);
    assert(text[0] == '$');
    assert(text.subrange(0, form.len() as int) =~= form);
}

/// A backslash directly before a placeholder is dropped and the placeholder stays as it is
/// written, whatever the values are; the rest of the text is gone through on its own.
pub proof fn lemma_escaped_placeholder_kept(
    p: Placeholder,
    braced: bool,
    rest: Seq<char>,
    values: Values,
)
    ensures
        substituted(seq!['\\'] + form_of(p, braced) + rest, values) == form_of(p, braced)
            + substituted(rest, values),
{
    let form = form_of(p, braced);
    let escape = seq!['\\'];
    let text = escape + form + rest;
    lemma_own_form(p, braced, rest);
    assert(text =~= escape + (form + rest));
    lemma_placeholder_at_shift(escape, form + rest, 0);
    assert(text =~= (escape + form) + rest);
    lemma_substituted_shift(escape + form, rest, 0, values);
    assert(text[0] == '\\');
    assert(text.subrange(1, 1 + form.len() as int) =~= form);
}

/// A character that neither begins a placeholder nor escapes one is copied, and the rest of
/// the text is gone through on its own.
pub proof fn lemma_character_copied(c: char, rest: Seq<char>, values: Values)
    requires
        placeholder_at(seq![c] + rest, 0) is None,
        !(c == '\\' && placeholder_at(rest, 0) is Some),
    ensures
        substituted(seq![c] + rest, values) == seq![c] + substituted(rest, values),
{
    let text = seq![c] + rest;
    lemma_placeholder_at_shift(seq![c], rest, 0);
    lemma_substituted_shift(seq![c], rest, 0, values);
    assert(text[0] == c);
}

/// Only `$` begins a placeholder.
pub proof fn lemma_placeholder_begins_with_dollar(text: Seq<char>, at: int)
    requires
        placeholder_at(text, at) is Some,
    ensures
        0 <= at < text.len(),
        text[at] == '$',
{
    let p = placeholder_at(text, at).unwrap().0;
    if stands_at(text, at, braced_form(p)) {
        assert(text[at + 0] == braced_form(p)[0]);
    } else {
        assert(stands_at(text, at, plain_form(p)));
        assert(text[at + 0] == plain_form(p)[0]);
    }
}

/// Whether a placeholder for the time is written anywhere in `template`, escaped or not.
pub open spec fn asks_for_time(template: Seq<char>) -> bool {
    exists|at: int|
        0 <= at < template.len() && (#[trigger] placeholder_at(template, at)) is Some
            && placeholder_at(template, at).unwrap().0 == Placeholder::Mtime
}

proof fn lemma_time_not_asked_for_from(template: Seq<char>, at: int, a: Values, b: Values)
    requires
        !asks_for_time(template),
        a.diff == b.diff,
        a.path == b.path,
        0 <= at,
    ensures
        substituted_from(template, at, a) == substituted_from(template, at, b),
    decreases template.len() - at,
{
    if at < template.len() {
        if template[at] == '\\' && placeholder_at(template, at + 1) is Some {
            let n = placeholder_at(template, at + 1).unwrap().1;
            lemma_time_not_asked_for_from(template, at + 1 + n, a, b);
        } else {
            match placeholder_at(template, at) {
                Some((p, n)) => {
                    assert(p != Placeholder::Mtime);
                    lemma_time_not_asked_for_from(template, at + n, a, b);
                },
                None => {
                    lemma_time_not_asked_for_from(template, at + 1, a, b);
                },
            }
        }
    }
}

/// Where no placeholder for the time is written, the time makes no difference.
pub proof fn lemma_time_not_asked_for(template: Seq<char>, a: Values, b: Values)
    requires
        !asks_for_time(template),
        a.diff == b.diff,
        a.path == b.path,
    ensures
        substituted(template, a) == substituted(template, b),
{
    lemma_time_not_asked_for_from(template, 0, a, b);
}

} // verus!
