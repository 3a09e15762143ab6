//! Text as sequences of characters: character classes, searching, trimming,
//! lines and numbers.
use vstd::prelude::*;
use vstd::slice::slice_subrange;
use vstd::slice::slice_to_vec;
use vstd::utf8::*;

verus! {

/// `String::push`: appends one character.
pub assume_specification[ String::push ](string: &mut String, c: char)
    ensures
        final(string)@ == old(string)@.push(c),
;

/// The integer `n` as a machine word: numbers that do not fit saturate.
pub open spec fn sat(n: int) -> usize {
    if n < 0 {
        0
    } else if n > usize::MAX {
        usize::MAX
    } else {
        n as usize
    }
}

/// The kinds of characters that the file formats tell apart.
#[derive(Clone, Copy)]
pub enum Class {
    /// One character.
    Is(char),
    /// Unicode white space.
    Space,
    /// A blank of the manifest grammar: a space or a tab.
    Blank,
    /// ASCII white space.
    AsciiSpace,
    /// A letter, a digit, `_` or `-`: the characters of an unbraced variable name.
    Name,
    /// As `Name`, and `.`: the characters of a declared name.
    Dotted,
    /// A letter, a digit or `_`: the characters of a status variable.
    Word,
    /// A decimal digit.
    Digit,
    /// A path separator of POSIX.
    Slash,
    /// A path separator of Windows.
    AnySlash,
    /// A line feed or a carriage return.
    LineEnd,
}

pub open spec fn is_alphanumeric(c: char) -> bool {
    ('a' <= c && c <= 'z') || ('A' <= c && c <= 'Z') || ('0' <= c && c <= '9')
}

/// The characters with Unicode's property `White_Space`.
pub open spec fn is_space(c: char) -> bool {
    ||| '\u{9}' <= c && c <= '\u{d}'
    ||| c == ' '
    ||| c == '\u{85}'
    ||| c == '\u{a0}'
    ||| c == '\u{1680}'
    ||| '\u{2000}' <= c && c <= '\u{200a}'
    ||| c == '\u{2028}'
    ||| c == '\u{2029}'
    ||| c == '\u{202f}'
    ||| c == '\u{205f}'
    ||| c == '\u{3000}'
}

/// Whether `c` belongs to `class`.
pub open spec fn belongs(c: char, class: Class) -> bool {
    match class {
        Class::Is(d) => c == d,
        Class::Space => is_space(c),
        Class::Blank => c == ' ' || c == '\t',
        Class::AsciiSpace => c == ' ' || c == '\t' || c == '\n' || c == '\r' || c == '\u{c}',
        Class::Name => is_alphanumeric(c) || c == '_' || c == '-',
        Class::Dotted => is_alphanumeric(c) || c == '_' || c == '-' || c == '.',
        Class::Word => is_alphanumeric(c) || c == '_',
        Class::Digit => '0' <= c && c <= '9',
        Class::Slash => c == '/',
        Class::AnySlash => c == '/' || c == '\\',
        Class::LineEnd => c == '\n' || c == '\r',
    }
}

pub fn in_class(c: char, class: Class) -> (r: bool)
    ensures
        r == belongs(c, class),
{
    let letter_or_digit: bool = ('a' <= c && c <= 'z') || ('A' <= c && c <= 'Z') || ('0' <= c && c
        <= '9');
    match class {
        Class::Is(d) => c == d,
        Class::Space => {
            ('\u{9}' <= c && c <= '\u{d}') || c == ' ' || c == '\u{85}' || c == '\u{a0}' || c
                == '\u{1680}' || ('\u{2000}' <= c && c <= '\u{200a}') || c == '\u{2028}' || c
                == '\u{2029}' || c == '\u{202f}' || c == '\u{205f}' || c == '\u{3000}'
        },
        Class::Blank => c == ' ' || c == '\t',
        Class::AsciiSpace => c == ' ' || c == '\t' || c == '\n' || c == '\r' || c == '\u{c}',
        Class::Name => letter_or_digit || c == '_' || c == '-',
        Class::Dotted => letter_or_digit || c == '_' || c == '-' || c == '.',
        Class::Word => letter_or_digit || c == '_',
        Class::Digit => '0' <= c && c <= '9',
        Class::Slash => c == '/',
        Class::AnySlash => c == '/' || c == '\\',
        Class::LineEnd => c == '\n' || c == '\r',
    }
}

/// The first position at or after `from` whose character belongs to `class`,
/// and the length of `s` where there is none.
pub open spec fn first_in(s: Seq<char>, from: int, class: Class) -> int
    decreases s.len() - from,
{
    if from >= s.len() {
        s.len() as int
    } else if from < 0 || belongs(s[from], class) {
        from
    } else {
        first_in(s, from + 1, class)
    }
}

/// The first position at or after `from` whose character does not belong to
/// `class`, and the length of `s` where there is none.
pub open spec fn first_not_in(s: Seq<char>, from: int, class: Class) -> int
    decreases s.len() - from,
{
    if from >= s.len() {
        s.len() as int
    } else if from < 0 || !belongs(s[from], class) {
        from
    } else {
        first_not_in(s, from + 1, class)
    }
}

pub proof fn lemma_first_in(s: Seq<char>, from: int, class: Class)
    requires
        0 <= from <= s.len(),
    ensures
        from <= first_in(s, from, class) <= s.len(),
        first_in(s, from, class) < s.len() ==> belongs(s[first_in(s, from, class)], class),
        forall|k: int| from <= k < first_in(s, from, class) ==> !belongs(#[trigger] s[k], class),
    decreases s.len() - from,
{
    if from < s.len() && !belongs(s[from], class) {
        lemma_first_in(s, from + 1, class);
    }
}

pub proof fn lemma_first_not_in(s: Seq<char>, from: int, class: Class)
    requires
        0 <= from <= s.len(),
    ensures
        from <= first_not_in(s, from, class) <= s.len(),
        first_not_in(s, from, class) < s.len() ==> !belongs(
            s[first_not_in(s, from, class)],
            class,
        ),
        forall|k: int|
            from <= k < first_not_in(s, from, class) ==> belongs(#[trigger] s[k], class),
    decreases s.len() - from,
{
    if from < s.len() && belongs(s[from], class) {
        lemma_first_not_in(s, from + 1, class);
    }
}

pub fn find_in(s: &[char], from: usize, class: Class) -> (r: usize)
    requires
        from <= s@.len(),
    ensures
        r == first_in(s@, from as int, class),
        from <= r <= s@.len(),
        r < s@.len() ==> belongs(s@[r as int], class),
        forall|k: int| from <= k < r ==> !belongs(#[trigger] s@[k], class),
{
    let mut i: usize = from;
    while i < s.len() && !in_class(s[i], class)
        invariant
            from <= i <= s@.len(),
            first_in(s@, from as int, class) == first_in(s@, i as int, class),
        decreases s@.len() - i,
    {
        i += 1;
    }
    proof {
        lemma_first_in(s@, from as int, class);
    }
    i
}

pub fn find_not_in(s: &[char], from: usize, class: Class) -> (r: usize)
    requires
        from <= s@.len(),
    ensures
        r == first_not_in(s@, from as int, class),
        from <= r <= s@.len(),
        r < s@.len() ==> !belongs(s@[r as int], class),
        forall|k: int| from <= k < r ==> belongs(#[trigger] s@[k], class),
{
    let mut i: usize = from;
    while i < s.len() && in_class(s[i], class)
        invariant
            from <= i <= s@.len(),
            first_not_in(s@, from as int, class) == first_not_in(s@, i as int, class),
        decreases s@.len() - i,
    {
        i += 1;
    }
    proof {
        lemma_first_not_in(s@, from as int, class);
    }
    i
}

/// The characters of a string.
pub fn chars_of(text: &str) -> (r: Vec<char>)
    ensures
        r@ == text@,
{
    let mut r: Vec<char> = Vec::new();
    for c in it: text.chars()
        invariant
            r@ == it.seq().take(it.index()),
            it.seq() == text@,
    {
        r.push(c);
    }
    proof {
        assert(text@.take(text@.len() as int) =~= text@);
    }
    r
}

/// The string made of `chars`.
pub fn string_of(chars: &[char]) -> (r: String)
    ensures
        r@ == chars@,
{
    let mut r: String = String::new();
    let mut i: usize = 0;
    while i < chars.len()
        invariant
            i <= chars@.len(),
            r@ == chars@.take(i as int),
        decreases chars@.len() - i,
    {
        r.push(chars[i]);
        i += 1;
        proof {
            assert(chars@.take(i as int) =~= chars@.take(i - 1).push(chars@[i - 1]));
        }
    }
    proof {
        assert(chars@.take(chars@.len() as int) =~= chars@);
    }
    r
}

/// Appends `s` to `out`.
pub fn push_all(out: &mut Vec<char>, s: &[char])
    ensures
        final(out)@ == old(out)@ + s@,
{
    let mut i: usize = 0;
    proof {
        assert(s@.take(0) =~= Seq::<char>::empty());
    }
    while i < s.len()
        invariant
            i <= s@.len(),
            out@ =~= old(out)@ + s@.take(i as int),
        decreases s@.len() - i,
    {
        out.push(s[i]);
        i += 1;
        proof {
            assert(s@.take(i as int) =~= s@.take(i - 1).push(s@[i - 1]));
        }
    }
    proof {
        assert(s@.take(s@.len() as int) =~= s@);
    }
}

/// Whether two texts are equal.
pub fn same(a: &[char], b: &[char]) -> (r: bool)
    ensures
        r == (a@ == b@),
{
    if a.len() != b.len() {
        return false;
    }
    let mut i: usize = 0;
    while i < a.len()
        invariant
            a@.len() == b@.len(),
            i <= a@.len(),
            a@.take(i as int) =~= b@.take(i as int),
        decreases a@.len() - i,
    {
        if a[i] != b[i] {
            proof {
                assert(a@[i as int] != b@[i as int]);
            }
            return false;
        }
        i += 1;
        proof {
            assert(a@.take(i as int) =~= a@.take(i - 1).push(a@[i - 1]));
            assert(b@.take(i as int) =~= b@.take(i - 1).push(b@[i - 1]));
        }
    }
    proof {
        assert(a@.take(a@.len() as int) =~= a@);
        assert(b@.take(b@.len() as int) =~= b@);
    }
    true
}

/// Whether `a` is the string `b`.
pub fn is_text(a: &[char], b: &str) -> (r: bool)
    ensures
        r == (a@ == b@),
{
    same(a, chars_of(b).as_slice())
}

/// Whether two strings are equal.
pub fn same_str(a: &str, b: &str) -> (r: bool)
    ensures
        r == (a@ == b@),
{
    same(chars_of(a).as_slice(), chars_of(b).as_slice())
}

/// What follows `prefix` in `s`, if `s` begins with it.
pub fn strip_prefix<'a>(s: &'a [char], prefix: &str) -> (r: Option<&'a [char]>)
    ensures
        match r {
            Some(rest) => prefix@.is_prefix_of(s@) && rest@ == s@.skip(prefix@.len() as int),
            None => !prefix@.is_prefix_of(s@),
        },
{
    let p: Vec<char> = chars_of(prefix);
    if p.len() > s.len() {
        return None;
    }
    if same(slice_subrange(s, 0, p.len()), p.as_slice()) {
        Some(slice_subrange(s, p.len(), s.len()))
    } else {
        None
    }
}

/// `s` without the white space at its start.
pub open spec fn trimmed_start(s: Seq<char>) -> Seq<char> {
    s.skip(first_not_in(s, 0, Class::Space))
}

/// `s` without the white space at its end.
pub open spec fn trimmed_end(s: Seq<char>) -> Seq<char>
    decreases s.len(),
{
    if s.len() > 0 && is_space(s.last()) {
        trimmed_end(s.drop_last())
    } else {
        s
    }
}

/// `s` without the white space around it.
pub open spec fn trimmed(s: Seq<char>) -> Seq<char> {
    trimmed_end(trimmed_start(s))
}

pub fn trim_start(s: &[char]) -> (r: &[char])
    ensures
        r@ == trimmed_start(s@),
{
    let i: usize = find_not_in(s, 0, Class::Space);
    slice_subrange(s, i, s.len())
}

pub fn trim_end(s: &[char]) -> (r: &[char])
    ensures
        r@ == trimmed_end(s@),
{
    let mut j: usize = s.len();
    proof {
        assert(s@.take(s@.len() as int) =~= s@);
    }
    while j > 0 && in_class(s[j - 1], Class::Space)
        invariant
            j <= s@.len(),
            trimmed_end(s@.take(j as int)) == trimmed_end(s@),
        decreases j,
    {
        proof {
            assert(s@.take(j as int).drop_last() =~= s@.take(j - 1));
        }
        j -= 1;
    }
    slice_subrange(s, 0, j)
}

pub fn trim(s: &[char]) -> (r: &[char])
    ensures
        r@ == trimmed(s@),
{
    trim_end(trim_start(s))
}

/// The number of bytes that `s` takes in UTF-8.
pub open spec fn byte_len(s: Seq<char>) -> int {
    encode_utf8(s).len() as int
}

pub proof fn lemma_byte_len_step(s: Seq<char>)
    requires
        s.len() > 0,
    ensures
        byte_len(s) == encode_scalar(s[0] as u32).len() + byte_len(s.skip(1)),
        1 <= encode_scalar(s[0] as u32).len() <= 4,
{
    assert(s.drop_first() =~= s.skip(1));
}

/// The number of bytes that `s` takes in UTF-8.
pub fn width(s: &[char]) -> (r: usize)
    ensures
        r == sat(byte_len(s@)),
{
    let mut r: usize = 0;
    let mut i: usize = s.len();
    proof {
        assert(s@.skip(s@.len() as int) =~= Seq::<char>::empty());
    }
    while i > 0
        invariant
            i <= s@.len(),
            r == sat(byte_len(s@.skip(i as int))),
        decreases i,
    {
        let c: char = s[i - 1];
        let code: u32 = c as u32;
        let n: usize = if code <= 0x7f {
            1
        } else if code <= 0x7ff {
            2
        } else if code <= 0xffff {
            3
        } else {
            4
        };
        proof {
            lemma_byte_len_step(s@.skip(i - 1));
            assert(s@.skip(i - 1).skip(1) =~= s@.skip(i as int));
            char_is_scalar(c);
        }
        r = r.saturating_add(n);
        i -= 1;
    }
    proof {
        assert(s@.skip(0) =~= s@);
    }
    r
}

/// Whether every character of `s` belongs to `class`.
pub open spec fn all_in(s: Seq<char>, class: Class) -> bool {
    forall|i: int| 0 <= i < s.len() ==> belongs(#[trigger] s[i], class)
}

/// Whether every character of `s` belongs to `class`.
pub fn all_of(s: &[char], class: Class) -> (r: bool)
    ensures
        r == all_in(s@, class),
{
    find_not_in(s, 0, class) == s.len()
}

/// The characters of each text of a list.
pub open spec fn texts(v: Seq<Vec<char>>) -> Seq<Seq<char>> {
    Seq::new(v.len(), |i: int| v[i]@)
}

/// The characters of each string of a list.
pub open spec fn strings(v: Seq<String>) -> Seq<Seq<char>> {
    Seq::new(v.len(), |i: int| v[i]@)
}

/// Whether `s` is one of `list`.
pub fn holds(list: &Vec<String>, s: &str) -> (r: bool)
    ensures
        r == strings(list@).contains(s@),
{
    let ghost all = strings(list@);
    let mut i: usize = 0;
    while i < list.len()
        invariant
            i <= list@.len(),
            all == strings(list@),
            forall|k: int| 0 <= k < i ==> #[trigger] all[k] != s@,
        decreases list@.len() - i,
    {
        proof {
            assert(all[i as int] == list@[i as int]@);
        }
        if same_str(list[i].as_str(), s) {
            return true;
        }
        i += 1;
    }
    false
}

/// A copy of `list`.
pub fn copy_list(list: &Vec<String>) -> (r: Vec<String>)
    ensures
        strings(r@) == strings(list@),
{
    let mut r: Vec<String> = Vec::new();
    let mut i: usize = 0;
    while i < list.len()
        invariant
            i <= list@.len(),
            r@.len() == i,
            forall|k: int| 0 <= k < i ==> #[trigger] r@[k]@ == list@[k]@,
        decreases list@.len() - i,
    {
        r.push(list[i].clone());
        i += 1;
    }
    proof {
        assert(strings(r@) =~= strings(list@));
    }
    r
}

/// `s` without one carriage return at its end.
pub open spec fn without_cr(s: Seq<char>) -> Seq<char> {
    if s.len() > 0 && s.last() == '\r' {
        s.drop_last()
    } else {
        s
    }
}

/// The lines of `s` from position `i` on, without their line feeds. A line feed
/// at the end of `s` starts no further line.
pub open spec fn raw_lines(s: Seq<char>, i: int) -> Seq<Seq<char>>
    decreases s.len() - i,
{
    if i < 0 || i >= s.len() {
        seq![]
    } else {
        let end = first_in(s, i, Class::Is('\n'));
        if i <= end < s.len() {
            seq![s.subrange(i, end)] + raw_lines(s, end + 1)
        } else {
            seq![s.subrange(i, s.len() as int)]
        }
    }
}

/// As `raw_lines`, and a carriage return before a line feed belongs to the
/// line's end, not to the line.
pub open spec fn text_lines(s: Seq<char>, i: int) -> Seq<Seq<char>>
    decreases s.len() - i,
{
    if i < 0 || i >= s.len() {
        seq![]
    } else {
        let end = first_in(s, i, Class::Is('\n'));
        if i <= end < s.len() {
            seq![without_cr(s.subrange(i, end))] + text_lines(s, end + 1)
        } else {
            seq![s.subrange(i, s.len() as int)]
        }
    }
}

pub fn strip_cr(s: &[char]) -> (r: &[char])
    ensures
        r@ == without_cr(s@),
{
    if s.len() > 0 && s[s.len() - 1] == '\r' {
        slice_subrange(s, 0, s.len() - 1)
    } else {
        s
    }
}

/// The lines of a text, without their terminators.
pub fn split_lines(s: &[char]) -> (r: Vec<Vec<char>>)
    ensures
        texts(r@) == text_lines(s@, 0),
{
    let mut r: Vec<Vec<char>> = Vec::new();
    let mut i: usize = 0;
    while i < s.len()
        invariant
            i <= s@.len(),
            texts(r@) + text_lines(s@, i as int) =~= text_lines(s@, 0),
        decreases s@.len() - i,
    {
        let end: usize = find_in(s, i, Class::Is('\n'));
        let ghost before = texts(r@);
        if end < s.len() {
            let line: &[char] = strip_cr(slice_subrange(s, i, end));
            r.push(slice_to_vec(line));
            proof {
                assert(texts(r@) =~= before.push(line@));
            }
            i = end + 1;
        } else {
            let line: &[char] = slice_subrange(s, i, s.len());
            r.push(slice_to_vec(line));
            proof {
                assert(texts(r@) =~= before.push(line@));
            }
            i = s.len();
        }
    }
    r
}

/// The small letter of an ASCII capital; other characters stay.
pub open spec fn lower_char(c: char) -> char {
    if 'A' <= c && c <= 'Z' {
        ((c as u32) + 32) as char
    } else {
        c
    }
}

/// `s` with its ASCII capitals made small.
pub open spec fn lowered(s: Seq<char>) -> Seq<char> {
    s.map_values(|c: char| lower_char(c))
}

pub fn lower(s: &[char]) -> (r: Vec<char>)
    ensures
        r@ == lowered(s@),
{
    let mut r: Vec<char> = Vec::new();
    let mut i: usize = 0;
    while i < s.len()
        invariant
            i <= s@.len(),
            r@ =~= lowered(s@).take(i as int),
        decreases s@.len() - i,
    {
        let c: char = s[i];
        if 'A' <= c && c <= 'Z' {
            let code: u8 = c as u8;
            r.push((code + 32) as char);
        } else {
            r.push(c);
        }
        i += 1;
    }
    proof {
        assert(lowered(s@).take(s@.len() as int) =~= lowered(s@));
    }
    r
}

/// How often `c` occurs in `s`.
pub open spec fn occurrences(s: Seq<char>, c: char) -> nat
    decreases s.len(),
{
    if s.len() == 0 {
        0
    } else {
        occurrences(s.drop_last(), c) + if s.last() == c { 1nat } else { 0nat }
    }
}

pub fn count(s: &[char], c: char) -> (r: usize)
    ensures
        r == occurrences(s@, c),
        r <= s@.len(),
{
    let mut r: usize = 0;
    let mut i: usize = 0;
    while i < s.len()
        invariant
            i <= s@.len(),
            r <= i,
            r == occurrences(s@.take(i as int), c),
        decreases s@.len() - i,
    {
        proof {
            assert(s@.take(i + 1).drop_last() =~= s@.take(i as int));
        }
        if s[i] == c {
            r += 1;
        }
        i += 1;
    }
    proof {
        assert(s@.take(s@.len() as int) =~= s@);
    }
    r
}

/// A character, with a carriage return before it where it is a line feed.
pub open spec fn returned(c: char) -> Seq<char> {
    if c == '\n' {
        seq!['\r', '\n']
    } else {
        seq![c]
    }
}

/// `s` with a carriage return before each line feed.
pub open spec fn with_returns(s: Seq<char>) -> Seq<char>
    decreases s.len(),
{
    if s.len() == 0 {
        seq![]
    } else {
        with_returns(s.drop_last()) + returned(s.last())
    }
}

} // verus!
