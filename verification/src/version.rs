//! Version numbers of the manifest syntax.
use crate::numbers;
use crate::numbers::value_up_to;
use crate::text;
use crate::text::chars_of;
use crate::text::find_in;
use crate::text::find_not_in;
use crate::text::Class;
use vstd::prelude::*;
use vstd::slice::slice_subrange;

verus! {

/// The part of `s` with number `n`, where dots separate the parts. A part that
/// `s` does not have is empty.
pub open spec fn part(s: Seq<char>, n: nat) -> Seq<char>
    decreases n,
{
    let dot = text::first_in(s, 0, Class::Is('.'));
    if n == 0 {
        s.take(dot)
    } else if dot < s.len() {
        part(s.skip(dot + 1), (n - 1) as nat)
    } else {
        seq![]
    }
}

/// The number that `s` begins with: a sign, if there is one, and digits. It is
/// zero where there are no digits or the number does not fit.
pub open spec fn leading_number(s: Seq<char>) -> int {
    let start = if s.len() > 0 && (s[0] == '+' || s[0] == '-') {
        1int
    } else {
        0int
    };
    let end = text::first_not_in(s, start, Class::Digit);
    let value = numbers::digits_value(s.subrange(start, end), false);
    let number = if s.len() > 0 && s[0] == '-' {
        -value
    } else {
        value as int
    };
    if end > start && i64::MIN <= number <= i64::MAX {
        number
    } else {
        0
    }
}

/// The major and the minor number of a version.
pub open spec fn major_minor(s: Seq<char>) -> (int, int) {
    (leading_number(part(s, 0)), leading_number(part(s, 1)))
}

fn number(s: &[char]) -> (r: i64)
    ensures
        r == leading_number(s@),
{
    let negative: bool = s.len() > 0 && s[0] == '-';
    let start: usize = if s.len() > 0 && (s[0] == '+' || s[0] == '-') {
        1
    } else {
        0
    };
    let end: usize = find_not_in(s, start, Class::Digit);
    if end == start {
        return 0;
    }
    let digits: &[char] = slice_subrange(s, start, end);
    proof {
        text::lemma_first_not_in(s@, start as int, Class::Digit);
        assert forall|i: int| 0 <= i < digits@.len() implies numbers::digit_value(
            #[trigger] digits@[i],
            false,
        ) is Some by {
            assert(text::belongs(s@[start + i], Class::Digit));
        }
    }
    if negative {
        match value_up_to(digits, 0x8000_0000_0000_0000) {
            Some(v) => if v == 0x8000_0000_0000_0000 {
                i64::MIN
            } else {
                -(v as i64)
            },
            None => 0,
        }
    } else {
        match value_up_to(digits, 0x7fff_ffff_ffff_ffff) {
            Some(v) => v as i64,
            None => 0,
        }
    }
}

fn part_of(s: &[char], n: usize) -> (r: &[char])
    ensures
        r@ == part(s@, n as nat),
    decreases n,
{
    let dot: usize = find_in(s, 0, Class::Is('.'));
    if n == 0 {
        slice_subrange(s, 0, dot)
    } else if dot < s.len() {
        part_of(slice_subrange(s, dot + 1, s.len()), n - 1)
    } else {
        slice_subrange(s, 0, 0)
    }
}

/// The major and the minor number of a version.
pub fn version_major_minor(version: &[char]) -> (r: (i64, i64))
    ensures
        r.0 == major_minor(version@).0,
        r.1 == major_minor(version@).1,
{
    (number(part_of(version, 0)), number(part_of(version, 1)))
}

/// Whether a version precedes another, by their major and minor numbers.
pub open spec fn precedes(a: Seq<char>, b: Seq<char>) -> bool {
    let (a_major, a_minor) = major_minor(a);
    let (b_major, b_minor) = major_minor(b);
    a_major < b_major || (a_major == b_major && a_minor < b_minor)
}

/// Whether a file that requires version `required` asks for more than version
/// `supported`.
pub fn required_version_incompatible(required: &str, supported: &str) -> (r: bool)
    ensures
        r == precedes(supported@, required@),
{
    let (supported_major, supported_minor) = version_major_minor(chars_of(supported).as_slice());
    let (required_major, required_minor) = version_major_minor(chars_of(required).as_slice());
    supported_major < required_major || (supported_major == required_major && supported_minor
        < required_minor)
}

/// Whether a version has the escape `$^`, which came with 1.14.
pub open spec fn has_newline_escape(s: Seq<char>) -> bool {
    let (major, minor) = major_minor(s);
    major > 1 || (major == 1 && minor >= 14)
}

pub fn version_supports_newline_escape(version: &str) -> (r: bool)
    ensures
        r == has_newline_escape(version@),
{
    let (major, minor) = version_major_minor(chars_of(version).as_slice());
    major > 1 || (major == 1 && minor >= 14)
}

/// A version as it is written: its major number, its minor number, and what stands behind
/// another dot.
pub open spec fn written(major: nat, minor: nat, rest: Option<Seq<char>>) -> Seq<char> {
    numbers::numeral(major, false) + seq!['.'] + numbers::numeral(minor, false) + match rest {
        Some(rest) => seq!['.'] + rest,
        None => seq![],
    }
}

proof fn lemma_digits(s: Seq<char>, i: int)
    requires
        0 <= i <= s.len(),
        numbers::are_digits(s, false),
    ensures
        text::first_not_in(s, i, Class::Digit) == s.len(),
    decreases s.len() - i,
{
    if i < s.len() {
        assert(numbers::digit_value(s[i], false) is Some);
        lemma_digits(s, i + 1);
    }
}

proof fn lemma_dot(s: Seq<char>, i: int, end: int)
    requires
        0 <= i <= end <= s.len(),
        end < s.len() ==> s[end] == '.',
        forall|k: int| i <= k < end ==> #[trigger] s[k] != '.',
    ensures
        text::first_in(s, i, Class::Is('.')) == end,
    decreases end - i,
{
    if i < end {
        lemma_dot(s, i + 1, end);
    }
}

proof fn lemma_leading(n: nat)
    requires
        n <= i64::MAX,
    ensures
        leading_number(numbers::numeral(n, false)) == n,
{
    let s = numbers::numeral(n, false);
    numbers::law_numeral_denotes_its_number(n, false);
    assert(numbers::digit_value(s[0], false) is Some);
    lemma_digits(s, 0);
    assert(s.subrange(0, s.len() as int) =~= s);
}

proof fn lemma_first_part(n: nat, rest: Seq<char>)
    requires
        rest.len() == 0 || rest[0] == '.',
    ensures
        part(numbers::numeral(n, false) + rest, 0) == numbers::numeral(n, false),
        text::first_in(numbers::numeral(n, false) + rest, 0, Class::Is('.')) == numbers::numeral(
            n,
            false,
        ).len(),
{
    let digits = numbers::numeral(n, false);
    let s = digits + rest;
    numbers::law_numeral_denotes_its_number(n, false);
    assert forall|k: int| 0 <= k < digits.len() implies #[trigger] s[k] != '.' by {
        assert(s[k] == digits[k]);
        assert(numbers::digit_value(digits[k], false) is Some);
    }
    if rest.len() > 0 {
        assert(s[digits.len() as int] == rest[0]);
    }
    lemma_dot(s, 0, digits.len() as int);
    assert(s.take(digits.len() as int) =~= digits);
}

proof fn lemma_written(major: nat, minor: nat, rest: Option<Seq<char>>)
    requires
        major <= i64::MAX,
        minor <= i64::MAX,
    ensures
        major_minor(written(major, minor, rest)) == (major as int, minor as int),
{
    let s = written(major, minor, rest);
    let first = numbers::numeral(major, false);
    let second = numbers::numeral(minor, false);
    let tail = match rest {
        Some(rest) => seq!['.'] + rest,
        None => seq![],
    };
    let behind = seq!['.'] + (second + tail);
    assert(s =~= first + behind);
    lemma_first_part(major, behind);
    lemma_first_part(minor, tail);
    assert(s.skip(first.len() as int + 1) =~= second + tail);
    assert(part(s, 1) == part(second + tail, 0));
    lemma_leading(major);
    lemma_leading(minor);
}

/// Versions go by their major numbers, and where those are the same by their minor numbers;
/// what stands behind these does not count.
pub proof fn law_versions_go_by_major_and_minor(
    major: nat,
    minor: nat,
    rest: Option<Seq<char>>,
    other_major: nat,
    other_minor: nat,
    other_rest: Option<Seq<char>>,
)
    requires
        major <= i64::MAX,
        minor <= i64::MAX,
        other_major <= i64::MAX,
        other_minor <= i64::MAX,
    ensures
        precedes(written(major, minor, rest), written(other_major, other_minor, other_rest))
            <==> major < other_major || (major == other_major && minor < other_minor),
        has_newline_escape(written(major, minor, rest)) <==> !(major == 0 || (major == 1 && minor
            < 14)),
{
    lemma_written(major, minor, rest);
    lemma_written(other_major, other_minor, other_rest);
}

} // verus!
