//! `$`-escapes: their grammar, and the expansion of variables.
use crate::text;
use crate::text::all_of;
use crate::text::chars_of;
use crate::text::find_in;
use crate::text::find_not_in;
use crate::text::in_class;
use crate::text::push_all;
use crate::text::string_of;
use crate::text::Class;
use vstd::prelude::*;
use vstd::slice::slice_subrange;

verus! {

/// What stands at a dollar sign.
#[derive(Clone, Copy)]
pub enum Dollar {
    /// An escaped character.
    Char(char),
    /// A reference to the variable whose name lies between two positions.
    Var(usize, usize),
    /// `${` without a closing brace.
    Open,
    /// A dollar sign that escapes nothing. What follows it stands for itself.
    Stray,
}

/// The escape whose dollar sign is at `i`, and the position after it.
pub open spec fn dollar(s: Seq<char>, i: int) -> (Dollar, int) {
    if i + 1 >= s.len() {
        (Dollar::Stray, i + 1)
    } else if s[i + 1] == '$' {
        (Dollar::Char('$'), i + 2)
    } else if s[i + 1] == ' ' {
        (Dollar::Char(' '), i + 2)
    } else if s[i + 1] == ':' {
        (Dollar::Char(':'), i + 2)
    } else if s[i + 1] == '^' {
        (Dollar::Char('\n'), i + 2)
    } else if s[i + 1] == '{' {
        let end = text::first_in(s, i + 2, Class::Is('}'));
        if end < s.len() {
            (Dollar::Var((i + 2) as usize, end as usize), end + 1)
        } else {
            (Dollar::Open, i + 2)
        }
    } else {
        let end = text::first_not_in(s, i + 1, Class::Name);
        if end == i + 1 {
            (Dollar::Stray, i + 2)
        } else {
            (Dollar::Var((i + 1) as usize, end as usize), end)
        }
    }
}

/// The escape whose dollar sign is at `i`, and the position after it.
pub fn read_dollar(s: &[char], i: usize) -> (r: (Dollar, usize))
    requires
        i < s@.len(),
    ensures
        r.0 == dollar(s@, i as int).0,
        r.1 == dollar(s@, i as int).1,
        i < r.1 <= s@.len(),
        r.0 matches Dollar::Var(a, b) ==> i < a <= b <= s@.len(),
{
    if s.len() - i <= 1 {
        return (Dollar::Stray, i + 1);
    }
    let c: char = s[i + 1];
    if c == '$' || c == ' ' || c == ':' {
        (Dollar::Char(c), i + 2)
    } else if c == '^' {
        (Dollar::Char('\n'), i + 2)
    } else if c == '{' {
        let end: usize = find_in(s, i + 2, Class::Is('}'));
        if end < s.len() {
            (Dollar::Var(i + 2, end), end + 1)
        } else {
            (Dollar::Open, i + 2)
        }
    } else {
        let end: usize = find_not_in(s, i + 1, Class::Name);
        if end == i + 1 {
            (Dollar::Stray, i + 2)
        } else {
            (Dollar::Var(i + 1, end), end)
        }
    }
}

/// What variables stand for: a name's value, if it has one.
pub type Meaning = spec_fn(Seq<char>) -> Option<Seq<char>>;

/// The text that the escape at `i` stands for.
pub open spec fn replacement(s: Seq<char>, i: int, meaning: Meaning) -> Seq<char> {
    let (escape, next) = dollar(s, i);
    match escape {
        Dollar::Char(c) => seq![c],
        Dollar::Var(a, b) => match meaning(s.subrange(a as int, b as int)) {
            Some(value) => value,
            None => seq![],
        },
        Dollar::Open | Dollar::Stray => s.subrange(i, next),
    }
}

/// `s` from `i` on with its escapes replaced. A variable without a value
/// expands to nothing.
pub open spec fn expanded_from(s: Seq<char>, i: int, meaning: Meaning) -> Seq<char>
    decreases s.len() - i,
{
    if i < 0 || i >= s.len() {
        seq![]
    } else if s[i] == '$' {
        let next = dollar(s, i).1;
        if i < next <= s.len() {
            replacement(s, i, meaning) + expanded_from(s, next, meaning)
        } else {
            seq![]
        }
    } else {
        seq![s[i]] + expanded_from(s, i + 1, meaning)
    }
}

/// `s` with its escapes replaced.
pub open spec fn expanded(s: Seq<char>, meaning: Meaning) -> Seq<char> {
    expanded_from(s, 0, meaning)
}

/// Whether `lookup` gives every name the value that it has under `meaning`.
pub open spec fn gives<F: Fn(&str) -> Option<String>>(lookup: F, meaning: Meaning) -> bool {
    forall|name: &str, value: Option<String>| #[trigger]
        lookup.ensures((name,), value) ==> meaning(name@) == optional(value)
}

/// The characters of an optional string.
pub open spec fn optional(value: Option<String>) -> Option<Seq<char>> {
    match value {
        Some(v) => Some(v@),
        None => None,
    }
}

/// The names that are looked up to replace the escapes of `s` from `i` on, in order.
pub open spec fn looked_up(s: Seq<char>, i: int) -> Seq<Seq<char>>
    decreases s.len() - i,
{
    if i < 0 || i >= s.len() {
        seq![]
    } else if s[i] != '$' {
        looked_up(s, i + 1)
    } else {
        let (escape, next) = dollar(s, i);
        if i < next <= s.len() {
            match escape {
                Dollar::Var(a, b) => seq![s.subrange(a as int, b as int)] + looked_up(s, next),
                _ => looked_up(s, next),
            }
        } else {
            seq![]
        }
    }
}

/// `s` from `i` on with its escapes replaced, where the references get the values of
/// `answers` one after the other, as they stand. One without a value is left out.
pub open spec fn filled(s: Seq<char>, i: int, answers: Seq<Option<Seq<char>>>) -> Seq<char>
    decreases s.len() - i,
{
    if i < 0 || i >= s.len() {
        seq![]
    } else if s[i] != '$' {
        seq![s[i]] + filled(s, i + 1, answers)
    } else {
        let (escape, next) = dollar(s, i);
        if i < next <= s.len() {
            match escape {
                Dollar::Char(c) => seq![c] + filled(s, next, answers),
                Dollar::Var(a, b) => (match answers.first() {
                    Some(value) => value,
                    None => seq![],
                }) + filled(s, next, answers.skip(1)),
                Dollar::Open | Dollar::Stray => s.subrange(i, next) + filled(s, next, answers),
            }
        } else {
            seq![]
        }
    }
}

/// Whether `lookup` may answer a name with `value`.
pub open spec fn may_answer<F: Fn(&str) -> Option<String>>(
    lookup: F,
    name: Seq<char>,
    value: Option<Seq<char>>,
) -> bool {
    exists|n: &str, v: Option<String>|
        n@ == name && optional(v) == value && #[trigger] lookup.ensures((n,), v)
}

/// Whether `lookup` may answer names with `answers`, one call after the other.
pub open spec fn are_answers<F: Fn(&str) -> Option<String>>(
    lookup: F,
    names: Seq<Seq<char>>,
    answers: Seq<Option<Seq<char>>>,
) -> bool {
    &&& names.len() == answers.len()
    &&& forall|i: int|
        0 <= i < names.len() ==> may_answer(lookup, #[trigger] names[i], answers[i])
}

/// Replaces the escapes of `input`, with the values that `lookup` gives to
/// variables. Each reference is looked up once, in order.
pub fn expand<F: Fn(&str) -> Option<String>>(input: &str, lookup: F) -> (output: String)
    requires
        forall|name: &str| #[trigger] lookup.requires((name,)),
    ensures
        forall|meaning: Meaning| #[trigger]
            gives(lookup, meaning) ==> output@ == expanded(input@, meaning),
        exists|answers: Seq<Option<Seq<char>>>|
            are_answers(lookup, looked_up(input@, 0), answers) && output@ == #[trigger] filled(
                input@,
                0,
                answers,
            ),
{
    let chars: Vec<char> = chars_of(input);
    let s: &[char] = chars.as_slice();
    let mut out: Vec<char> = Vec::new();
    let mut i: usize = 0;
    let ghost mut names: Seq<Seq<char>> = seq![];
    let ghost mut answers: Seq<Option<Seq<char>>> = seq![];
    proof {
        assert(names + looked_up(s@, 0) =~= looked_up(s@, 0));
        assert forall|rest: Seq<Option<Seq<char>>>| out@ + #[trigger] filled(s@, 0, rest)
            == filled(s@, 0, answers + rest) by {
            assert(answers + rest =~= rest);
            assert(out@ + filled(s@, 0, rest) =~= filled(s@, 0, rest));
        }
    }
    while i < s.len()
        invariant
            s@ == input@,
            i <= s@.len(),
            forall|name: &str| #[trigger] lookup.requires((name,)),
            are_answers(lookup, names, answers),
            names + looked_up(s@, i as int) == looked_up(s@, 0),
            forall|rest: Seq<Option<Seq<char>>>|
                out@ + #[trigger] filled(s@, i as int, rest) == filled(s@, 0, answers + rest),
            forall|meaning: Meaning| #[trigger]
                gives(lookup, meaning) ==> out@ + expanded_from(s@, i as int, meaning)
                    =~= expanded(s@, meaning),
        decreases s@.len() - i,
    {
        let ghost before = out@;
        if s[i] != '$' {
            out.push(s[i]);
            proof {
                assert forall|meaning: Meaning| #[trigger] gives(lookup, meaning) implies out@
                    + expanded_from(s@, i + 1, meaning) =~= expanded(s@, meaning) by {
                    assert(before + (seq![s@[i as int]] + expanded_from(s@, i + 1, meaning))
                        =~= out@ + expanded_from(s@, i + 1, meaning));
                }
                assert forall|rest: Seq<Option<Seq<char>>>|
                    out@ + #[trigger] filled(s@, i + 1, rest) == filled(
                        s@,
                        0,
                        answers + rest,
                    ) by {
                    assert(before + filled(s@, i as int, rest) == filled(s@, 0, answers + rest));
                    assert(before + (seq![s@[i as int]] + filled(s@, i + 1, rest)) =~= out@
                        + filled(s@, i + 1, rest));
                }
            }
            i += 1;
        } else {
            let (escape, next) = read_dollar(s, i);
            let ghost mut added: Seq<char> = seq![];
            let ghost names0 = names;
            let ghost answers0 = answers;
            match escape {
                Dollar::Char(c) => {
                    out.push(c);
                    proof {
                        added = seq![c];
                    }
                },
                Dollar::Var(a, b) => {
                    let name: String = string_of(slice_subrange(s, a, b));
                    let found: Option<String> = lookup(name.as_str());
                    proof {
                        assert(may_answer(lookup, name@, optional(found)));
                        names = names.push(name@);
                        answers = answers.push(optional(found));
                        assert(names0 + (seq![name@] + looked_up(s@, next as int)) =~= names
                            + looked_up(s@, next as int));
                        assert forall|k: int| 0 <= k < names.len() implies may_answer(
                            lookup,
                            #[trigger] names[k],
                            answers[k],
                        ) by {
                            if k < names0.len() {
                                assert(names[k] == names0[k]);
                            }
                        }
                    }
                    match found {
                        Some(value) => {
                            let value_chars: Vec<char> = chars_of(value.as_str());
                            push_all(&mut out, value_chars.as_slice());
                            proof {
                                added = value@;
                            }
                        },
                        None => {},
                    }
                },
                Dollar::Open | Dollar::Stray => {
                    push_all(&mut out, slice_subrange(s, i, next));
                    proof {
                        added = s@.subrange(i as int, next as int);
                    }
                },
            }
            proof {
                assert(out@ =~= before + added);
                assert forall|meaning: Meaning| #[trigger] gives(lookup, meaning) implies out@
                    + expanded_from(s@, next as int, meaning) =~= expanded(s@, meaning) by {
                    assert(replacement(s@, i as int, meaning) =~= added);
                    assert(before + (added + expanded_from(s@, next as int, meaning)) =~= out@
                        + expanded_from(s@, next as int, meaning));
                }
                assert forall|rest: Seq<Option<Seq<char>>>|
                    out@ + #[trigger] filled(s@, next as int, rest) == filled(
                        s@,
                        0,
                        answers + rest,
                    ) by {
                    let own = if escape is Var {
                        seq![answers.last()] + rest
                    } else {
                        rest
                    };
                    assert(answers0 + own =~= answers + rest);
                    assert(before + filled(s@, i as int, own) == filled(s@, 0, answers0 + own));
                    assert(escape is Var ==> own.skip(1) =~= rest);
                    assert(before + (added + filled(s@, next as int, rest)) =~= out@ + filled(
                        s@,
                        next as int,
                        rest,
                    ));
                }
            }
            i = next;
        }
    }
    proof {
        assert(out@ + filled(s@, i as int, seq![]) =~= out@);
        assert(answers + seq![] =~= answers);
        assert(names + looked_up(s@, i as int) =~= names);
    }
    string_of(out.as_slice())
}

/// Text without a dollar sign expands to itself.
pub proof fn law_plain_text_expands_to_itself(s: Seq<char>, meaning: Meaning)
    requires
        !s.contains('$'),
    ensures
        expanded(s, meaning) == s,
{
    lemma_plain_from(s, 0, meaning);
    assert(s.skip(0) =~= s);
}

proof fn lemma_plain_from(s: Seq<char>, i: int, meaning: Meaning)
    requires
        !s.contains('$'),
        0 <= i <= s.len(),
    ensures
        expanded_from(s, i, meaning) == s.skip(i),
    decreases s.len() - i,
{
    if i < s.len() {
        assert(s.contains(s[i]));
        lemma_plain_from(s, i + 1, meaning);
        assert(s.skip(i) =~= seq![s[i]] + s.skip(i + 1));
    } else {
        assert(s.skip(i) =~= Seq::<char>::empty());
    }
}

/// `c` as it is written where it stands for itself in a path.
pub open spec fn escaped_char(c: char) -> Seq<char> {
    if c == '$' || c == ' ' || c == ':' {
        seq!['$', c]
    } else {
        seq![c]
    }
}

/// `s` with a dollar sign before each dollar sign, space and colon.
pub open spec fn escaped(s: Seq<char>) -> Seq<char>
    decreases s.len(),
{
    if s.len() == 0 {
        seq![]
    } else {
        escaped_char(s[0]) + escaped(s.skip(1))
    }
}

/// Escaped text expands to the text, whatever values variables have.
pub proof fn law_escaped_text_expands_to_text(s: Seq<char>, meaning: Meaning)
    ensures
        expanded(escaped(s), meaning) == s,
{
    lemma_escaped_expands(seq![], s, meaning);
    assert(Seq::<char>::empty() + escaped(s) =~= escaped(s));
}

proof fn lemma_escaped_expands(before: Seq<char>, s: Seq<char>, meaning: Meaning)
    ensures
        expanded_from(before + escaped(s), before.len() as int, meaning) == s,
    decreases s.len(),
{
    let whole = before + escaped(s);
    if s.len() > 0 {
        let piece = escaped_char(s[0]);
        let rest = s.skip(1);
        lemma_escaped_expands(before + piece, rest, meaning);
        assert((before + piece) + escaped(rest) =~= whole);
        assert(whole[before.len() as int] == piece[0]);
        if piece.len() == 2 {
            assert(whole[before.len() as int + 1] == s[0]);
        }
        assert(s =~= seq![s[0]] + rest);
    }
}

/// The names of the variables that `s` refers to from `i` on, in order. An
/// unclosed brace ends the list.
pub open spec fn references_from(s: Seq<char>, i: int) -> Seq<Seq<char>>
    decreases s.len() - i,
{
    if i < 0 || i >= s.len() {
        seq![]
    } else if s[i] != '$' {
        references_from(s, i + 1)
    } else {
        let (escape, next) = dollar(s, i);
        if i < next <= s.len() {
            match escape {
                Dollar::Var(a, b) => seq![s.subrange(a as int, b as int)] + references_from(
                    s,
                    next,
                ),
                Dollar::Open => seq![],
                _ => references_from(s, next),
            }
        } else {
            seq![]
        }
    }
}

/// The names of the variables that `value` refers to, in order.
pub fn variable_references(value: &[char]) -> (r: Vec<Vec<char>>)
    ensures
        text::texts(r@) == references_from(value@, 0),
{
    let mut r: Vec<Vec<char>> = Vec::new();
    let mut i: usize = 0;
    while i < value.len()
        invariant
            i <= value@.len(),
            text::texts(r@) + references_from(value@, i as int) =~= references_from(value@, 0),
        decreases value@.len() - i,
    {
        if value[i] != '$' {
            i += 1;
        } else {
            let (escape, next) = read_dollar(value, i);
            match escape {
                Dollar::Var(a, b) => {
                    let ghost before = text::texts(r@);
                    r.push(vstd::slice::slice_to_vec(slice_subrange(value, a, b)));
                    proof {
                        assert(text::texts(r@) =~= before.push(
                            value@.subrange(a as int, b as int),
                        ));
                    }
                },
                Dollar::Open => {
                    return r;
                },
                _ => {},
            }
            i = next;
        }
    }
    r
}

/// A declared name: letters, digits, `_`, `-` and `.`, at least one of them.
pub open spec fn is_name(s: Seq<char>) -> bool {
    s.len() > 0 && text::all_in(s, Class::Dotted)
}

pub fn valid_variable_name(name: &[char]) -> (r: bool)
    ensures
        r == is_name(name@),
{
    name.len() > 0 && all_of(name, Class::Dotted)
}

/// The first bad escape of `s` at or after `i`, and the first `$^` before it,
/// which is `newline` if there was one before `i`.
pub open spec fn escape_issues_from(s: Seq<char>, i: int, newline: Option<int>) -> (
    Option<int>,
    Option<int>,
)
    decreases s.len() - i,
{
    if i < 0 || i >= s.len() {
        (None, newline)
    } else if s[i] != '$' {
        escape_issues_from(s, i + 1, newline)
    } else {
        let (escape, next) = dollar(s, i);
        let bad = match escape {
            Dollar::Char(_) => false,
            Dollar::Var(a, b) => s[i + 1] == '{' && !is_name(s.subrange(a as int, b as int)),
            Dollar::Open | Dollar::Stray => true,
        };
        if bad || next <= i || next > s.len() {
            (Some(i), newline)
        } else if escape == Dollar::Char('\n') && newline is None {
            escape_issues_from(s, next, Some(i))
        } else {
            escape_issues_from(s, next, newline)
        }
    }
}

/// The positions of the first bad escape of `s` and of the first `$^` before it.
pub open spec fn escape_issues(s: Seq<char>) -> (Option<int>, Option<int>) {
    escape_issues_from(s, 0, None)
}

pub proof fn lemma_no_issues(s: Seq<char>, i: int, newline: Option<int>)
    requires
        0 <= i <= s.len(),
        forall|k: int| i <= k < s.len() ==> #[trigger] s[k] != '$',
    ensures
        escape_issues_from(s, i, newline) == (None::<int>, newline),
    decreases s.len() - i,
{
    if i < s.len() {
        lemma_no_issues(s, i + 1, newline);
    }
}

pub open spec fn same_position(a: Option<usize>, b: Option<int>) -> bool {
    match a {
        Some(i) => b == Some(i as int),
        None => b is None,
    }
}

/// The positions of the first bad escape of `s` and of the first `$^` before it.
pub fn dollar_escape_issues(s: &[char]) -> (r: (Option<usize>, Option<usize>))
    ensures
        same_position(r.0, escape_issues(s@).0),
        same_position(r.1, escape_issues(s@).1),
        r.0 matches Some(i) ==> i < s@.len(),
        r.1 matches Some(i) ==> i < s@.len(),
{
    let mut i: usize = 0;
    let mut newline: Option<usize> = None;
    let ghost mut first: Option<int> = None;
    while i < s.len()
        invariant
            i <= s@.len(),
            same_position(newline, first),
            newline matches Some(j) ==> j < s@.len(),
            escape_issues_from(s@, i as int, first) == escape_issues(s@),
        decreases s@.len() - i,
    {
        if s[i] != '$' {
            i += 1;
        } else {
            let (escape, next) = read_dollar(s, i);
            match escape {
                Dollar::Char(c) => {
                    if c == '\n' && newline.is_none() {
                        newline = Some(i);
                        proof {
                            first = Some(i as int);
                        }
                    }
                },
                Dollar::Var(a, b) => {
                    if s[i + 1] == '{' && !valid_variable_name(slice_subrange(s, a, b)) {
                        return (Some(i), newline);
                    }
                },
                Dollar::Open | Dollar::Stray => {
                    return (Some(i), newline);
                },
            }
            i = next;
        }
    }
    (None, newline)
}

/// The words of `s` from `i` on, where `word` is what has been read of the
/// first. White space ends a word, except behind a dollar sign.
pub open spec fn words_from(s: Seq<char>, i: int, word: Seq<char>) -> Seq<Seq<char>>
    decreases s.len() - i,
{
    if i < 0 || i >= s.len() {
        if word.len() > 0 {
            seq![word]
        } else {
            seq![]
        }
    } else if s[i] == '$' {
        if i + 1 < s.len() {
            words_from(s, i + 2, word.push('$').push(s[i + 1]))
        } else {
            words_from(s, i + 1, word.push('$'))
        }
    } else if text::is_space(s[i]) {
        if word.len() > 0 {
            seq![word] + words_from(s, i + 1, seq![])
        } else {
            words_from(s, i + 1, seq![])
        }
    } else {
        words_from(s, i + 1, word.push(s[i]))
    }
}

/// The words of `s`.
pub fn split_words(s: &[char]) -> (r: Vec<Vec<char>>)
    ensures
        text::texts(r@) == words_from(s@, 0, seq![]),
{
    let mut r: Vec<Vec<char>> = Vec::new();
    let mut word: Vec<char> = Vec::new();
    let mut i: usize = 0;
    while i < s.len()
        invariant
            i <= s@.len(),
            text::texts(r@) + words_from(s@, i as int, word@) =~= words_from(s@, 0, seq![]),
        decreases s@.len() - i,
    {
        let c: char = s[i];
        if c == '$' {
            word.push(c);
            if i + 1 < s.len() {
                word.push(s[i + 1]);
                i += 2;
            } else {
                i += 1;
            }
        } else if in_class(c, Class::Space) {
            if word.len() > 0 {
                let ghost before = text::texts(r@);
                r.push(word);
                proof {
                    assert(text::texts(r@) =~= before.push(word@));
                }
                word = Vec::new();
            }
            proof {
                assert(word@ =~= seq![]);
            }
            i += 1;
        } else {
            word.push(c);
            i += 1;
        }
    }
    if word.len() > 0 {
        let ghost before = text::texts(r@);
        r.push(word);
        proof {
            assert(text::texts(r@) =~= before.push(word@));
        }
    }
    r
}

/// `s` with each of its dollar signs doubled.
pub open spec fn doubled(s: Seq<char>) -> Seq<char>
    decreases s.len(),
{
    if s.len() == 0 {
        seq![]
    } else if s[0] == '$' {
        seq!['$', '$'] + doubled(s.skip(1))
    } else {
        seq![s[0]] + doubled(s.skip(1))
    }
}

/// Text whose dollar signs are doubled expands to the text. Nothing is looked up for it,
/// and it does not matter what is.
pub proof fn law_doubled_dollars_expand_to_text(
    s: Seq<char>,
    meaning: Meaning,
    answers: Seq<Option<Seq<char>>>,
)
    ensures
        looked_up(doubled(s), 0).len() == 0,
        filled(doubled(s), 0, answers) == s,
        expanded(doubled(s), meaning) == s,
{
    lemma_doubled_expands(seq![], s, meaning, answers);
    assert(Seq::<char>::empty() + doubled(s) =~= doubled(s));
}

proof fn lemma_doubled_expands(
    before: Seq<char>,
    s: Seq<char>,
    meaning: Meaning,
    answers: Seq<Option<Seq<char>>>,
)
    ensures
        looked_up(before + doubled(s), before.len() as int).len() == 0,
        filled(before + doubled(s), before.len() as int, answers) == s,
        expanded_from(before + doubled(s), before.len() as int, meaning) == s,
    decreases s.len(),
{
    let whole = before + doubled(s);
    if s.len() > 0 {
        let piece = if s[0] == '$' {
            seq!['$', '$']
        } else {
            seq![s[0]]
        };
        let rest = s.skip(1);
        lemma_doubled_expands(before + piece, rest, meaning, answers);
        assert((before + piece) + doubled(rest) =~= whole);
        assert(whole[before.len() as int] == piece[0]);
        if piece.len() == 2 {
            assert(whole[before.len() as int + 1] == s[0]);
        }
        assert(s =~= seq![s[0]] + rest);
    } else {
        assert(s =~= seq![]);
    }
}

/// Where every escape is well-formed, the names that are looked up are those of
/// `variable_references`, each as often as it stands there and in that order.
pub proof fn law_references_are_looked_up(s: Seq<char>)
    requires
        escape_issues(s).0 is None,
    ensures
        looked_up(s, 0) == references_from(s, 0),
{
    lemma_references_looked_up(s, 0, None);
}

proof fn lemma_references_looked_up(s: Seq<char>, i: int, newline: Option<int>)
    requires
        0 <= i,
        escape_issues_from(s, i, newline).0 is None,
    ensures
        looked_up(s, i) == references_from(s, i),
    decreases s.len() - i,
{
    if i < s.len() {
        if s[i] != '$' {
            lemma_references_looked_up(s, i + 1, newline);
        } else {
            let (escape, next) = dollar(s, i);
            if escape == Dollar::Char('\n') && newline is None {
                lemma_references_looked_up(s, next, Some(i));
            } else {
                lemma_references_looked_up(s, next, newline);
            }
        }
    }
}

/// What a text expands to depends on the values of the names that are looked up for it
/// alone, each of which is put in as it stands.
pub proof fn law_expansion_depends_on_references(s: Seq<char>, meaning: Meaning)
    ensures
        expanded(s, meaning) == filled(
            s,
            0,
            Seq::new(looked_up(s, 0).len(), |i: int| meaning(looked_up(s, 0)[i])),
        ),
{
    lemma_expansion_filled(s, 0, meaning);
}

proof fn lemma_expansion_filled(s: Seq<char>, i: int, meaning: Meaning)
    requires
        0 <= i,
    ensures
        expanded_from(s, i, meaning) == filled(
            s,
            i,
            Seq::new(looked_up(s, i).len(), |k: int| meaning(looked_up(s, i)[k])),
        ),
    decreases s.len() - i,
{
    if i < s.len() {
        let answers = Seq::new(looked_up(s, i).len(), |k: int| meaning(looked_up(s, i)[k]));
        if s[i] != '$' {
            lemma_expansion_filled(s, i + 1, meaning);
            assert(answers =~= Seq::new(
                looked_up(s, i + 1).len(),
                |k: int| meaning(looked_up(s, i + 1)[k]),
            ));
        } else {
            let (escape, next) = dollar(s, i);
            if i < next <= s.len() {
                lemma_expansion_filled(s, next, meaning);
                let rest = Seq::new(
                    looked_up(s, next).len(),
                    |k: int| meaning(looked_up(s, next)[k]),
                );
                if escape is Var {
                    assert(answers.skip(1) =~= rest);
                } else {
                    assert(answers =~= rest);
                }
            }
        }
    }
}

} // verus!
