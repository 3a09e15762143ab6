//! Small decisions: how many jobs to run, and what a terminal is good for.
use crate::text;
use crate::text::chars_of;
use crate::text::same_str;
use crate::text::strip_prefix;
use vstd::prelude::*;
use vstd::slice::slice_subrange;

verus! {

/// The number of jobs for a number of processors.
pub open spec fn parallelism(processors: int) -> int {
    if processors <= 1 {
        2
    } else if processors == 2 {
        3
    } else {
        processors + 2
    }
}

/// The number of jobs to run where the user names none.
pub fn guess_parallelism(processors: usize) -> (r: usize)
    ensures
        r == text::sat(parallelism(processors as int)),
{
    if processors <= 1 {
        2
    } else if processors == 2 {
        3
    } else {
        processors.saturating_add(2)
    }
}

/// Whether status lines may overwrite each other.
pub fn smart_terminal_policy(
    is_terminal: bool,
    term_is_set: bool,
    term_is_dumb: bool,
    windows: bool,
) -> (r: bool)
    ensures
        r == (is_terminal && !term_is_dumb && (windows || term_is_set)),
{
    is_terminal && !term_is_dumb && (windows || term_is_set)
}

/// Whether the output of commands keeps its colors: forcing color comes before
/// forbidding it, and both come before what the terminal can do.
pub fn color_policy(
    is_terminal: bool,
    term_is_dumb: bool,
    no_color: bool,
    clicolor_force: bool,
    force_color: bool,
) -> (r: bool)
    ensures
        force_color ==> r,
        !force_color && no_color ==> !r,
        !force_color && !no_color ==> r == ((is_terminal && !term_is_dumb) || clicolor_force),
{
    if force_color {
        return true;
    }
    if no_color {
        return false;
    }
    (is_terminal && !term_is_dumb) || clicolor_force
}

/// Whether `pattern` occurs in `s`.
pub open spec fn occurs(s: Seq<char>, pattern: Seq<char>) -> bool {
    exists|i: int| 0 <= i <= s.len() && pattern.is_prefix_of(#[trigger] s.skip(i))
}

pub fn contains(s: &[char], pattern: &str) -> (r: bool)
    ensures
        r == occurs(s@, pattern@),
{
    let n: usize = s.len();
    let mut i: usize = 0;
    loop
        invariant
            n == s@.len(),
            i <= n,
            forall|k: int| 0 <= k < i ==> !pattern@.is_prefix_of(#[trigger] s@.skip(k)),
        decreases n - i,
    {
        let rest: &[char] = slice_subrange(s, i, n);
        proof {
            assert(rest@ =~= s@.skip(i as int));
        }
        if strip_prefix(rest, pattern).is_some() {
            return true;
        }
        if i == n {
            return false;
        }
        i += 1;
    }
}

/// Whether a format from `i` on has a placeholder for a prediction: `%P`, `%E`
/// or `%W`.
pub open spec fn has_prediction(s: Seq<char>, i: int) -> bool
    decreases s.len() - i,
{
    if i < 0 || i >= s.len() {
        false
    } else if s[i] == '%' {
        i + 1 < s.len() && (s[i + 1] == 'P' || s[i + 1] == 'E' || s[i + 1] == 'W'
            || has_prediction(s, i + 2))
    } else {
        has_prediction(s, i + 1)
    }
}

/// Whether a status format speaks of the time that is left, so that the times
/// of earlier builds are needed. An explicit format names variables.
pub fn status_needs_prediction(format: &str, explicit: bool) -> (r: bool)
    ensures
        explicit ==> r == (occurs(format@, "$predicted_progress"@) || occurs(format@, "$eta"@)),
        !explicit ==> r == has_prediction(format@, 0),
{
    let chars: Vec<char> = chars_of(format);
    let s: &[char] = chars.as_slice();
    if explicit {
        return contains(s, "$predicted_progress") || contains(s, "$eta");
    }
    let n: usize = s.len();
    let mut i: usize = 0;
    while i < n
        invariant
            !explicit,
            n == s@.len(),
            s@ == format@,
            i <= n,
            has_prediction(s@, 0) == has_prediction(s@, i as int),
        decreases n - i,
    {
        if s[i] == '%' {
            if n - i > 1 {
                let c: char = s[i + 1];
                if c == 'P' || c == 'E' || c == 'W' {
                    return true;
                }
                i += 2;
            } else {
                return false;
            }
        } else {
            i += 1;
        }
    }
    false
}

/// Whether the value of a binding switches something on.
pub open spec fn is_on(value: Seq<char>) -> bool {
    value.len() > 0 && value != "0"@
}

pub fn truthy(value: &str) -> (r: bool)
    ensures
        r == is_on(value@),
{
    chars_of(value).len() > 0 && !same_str(value, "0")
}

} // verus!
