//! Lines of a manifest: physical lines, the logical lines that a dollar sign
//! at a line's end makes of them, and columns in both.
use crate::diagnostic;
use crate::diagnostic::Diagnostic;
use crate::diagnostic::DiagnosticView;
use crate::text;
use crate::text::find_in;
use crate::text::find_not_in;
use crate::text::push_all;
use crate::text::split_lines;
use crate::text::strip_cr;
use crate::text::trim_start;
use crate::text::width;
use crate::text::Class;
use vstd::prelude::*;
use vstd::slice::slice_subrange;
use vstd::slice::slice_to_vec;

verus! {

/// The number of dollar signs at the end of `s`.
pub open spec fn dollars_at_end(s: Seq<char>) -> nat
    decreases s.len(),
{
    if s.len() > 0 && s.last() == '$' {
        1 + dollars_at_end(s.drop_last())
    } else {
        0
    }
}

/// Whether `s` ends in a dollar sign that is not itself escaped.
pub open spec fn is_continued(s: Seq<char>) -> bool {
    dollars_at_end(s) % 2 == 1
}

pub fn continues(s: &[char]) -> (r: bool)
    ensures
        r == is_continued(s@),
{
    let mut i: usize = s.len();
    let mut odd: bool = false;
    proof {
        assert(s@.take(s@.len() as int) =~= s@);
    }
    while i > 0 && s[i - 1] == '$'
        invariant
            i <= s@.len(),
            is_continued(s@) == ((dollars_at_end(s@.take(i as int)) % 2 == 1) != odd),
        decreases i,
    {
        proof {
            assert(s@.take(i as int).drop_last() =~= s@.take(i - 1));
        }
        odd = !odd;
        i -= 1;
    }
    odd
}

/// The logical line that begins with `buffer` and goes on with line `k`, and
/// the number of the line behind it. A dollar sign at the end of the last line
/// is kept.
pub open spec fn continuation(lines: Seq<Seq<char>>, k: int, buffer: Seq<char>) -> (
    Seq<char>,
    int,
)
    decreases lines.len() - k,
{
    if k < 0 || k >= lines.len() {
        (buffer.push('$'), k)
    } else {
        let longer = buffer + text::trimmed_start(lines[k]);
        if is_continued(longer) {
            continuation(lines, k + 1, longer.drop_last())
        } else {
            (longer, k + 1)
        }
    }
}

/// The logical line that begins at line `k`, and the number of the line behind it.
pub open spec fn logical_at(lines: Seq<Seq<char>>, k: int) -> (Seq<char>, int) {
    if is_continued(lines[k]) {
        continuation(lines, k + 1, lines[k].drop_last())
    } else {
        (lines[k], k + 1)
    }
}

/// The logical lines from line `k` on, each with the number of the line that it
/// begins at, counted from one.
pub open spec fn logical_from(lines: Seq<Seq<char>>, k: int) -> Seq<(usize, Seq<char>)>
    decreases lines.len() - k,
{
    if k < 0 || k >= lines.len() {
        seq![]
    } else {
        let (line, next) = logical_at(lines, k);
        if k < next <= lines.len() {
            seq![((k + 1) as usize, line)] + logical_from(lines, next)
        } else {
            seq![((k + 1) as usize, line)]
        }
    }
}

/// The logical lines of a text.
pub open spec fn logical(s: Seq<char>) -> Seq<(usize, Seq<char>)> {
    logical_from(text::text_lines(s, 0), 0)
}

/// A logical line and the number of the line that it begins at.
pub struct LogicalLine {
    pub line: usize,
    pub text: Vec<char>,
}

pub open spec fn line_views(v: Seq<LogicalLine>) -> Seq<(usize, Seq<char>)> {
    Seq::new(v.len(), |i: int| (v[i].line, v[i].text@))
}

fn read_continuation(lines: &Vec<Vec<char>>, k: usize, start: Vec<char>) -> (r: (Vec<char>, usize))
    requires
        k <= lines@.len(),
    ensures
        r.0@ == continuation(text::texts(lines@), k as int, start@).0,
        r.1 == continuation(text::texts(lines@), k as int, start@).1,
        k <= r.1 <= lines@.len(),
{
    let mut buffer: Vec<char> = start;
    let mut i: usize = k;
    let ghost all = text::texts(lines@);
    while i < lines.len()
        invariant
            k <= i <= lines@.len(),
            all == text::texts(lines@),
            continuation(all, k as int, start@) == continuation(all, i as int, buffer@),
        decreases lines@.len() - i,
    {
        push_all(&mut buffer, trim_start(lines[i].as_slice()));
        if !continues(buffer.as_slice()) {
            return (buffer, i + 1);
        }
        let ghost longer = buffer@;
        buffer.pop();
        proof {
            assert(longer.len() > 0);
            assert(buffer@ =~= longer.drop_last());
        }
        i += 1;
    }
    buffer.push('$');
    (buffer, i)
}

/// The logical lines of a text.
pub fn logical_lines(source: &[char]) -> (r: Vec<LogicalLine>)
    ensures
        line_views(r@) == logical(source@),
{
    let lines: Vec<Vec<char>> = split_lines(source);
    let ghost all = text::texts(lines@);
    let mut r: Vec<LogicalLine> = Vec::new();
    let mut k: usize = 0;
    while k < lines.len()
        invariant
            k <= lines@.len(),
            all == text::texts(lines@),
            line_views(r@) + logical_from(all, k as int) =~= logical_from(all, 0),
        decreases lines@.len() - k,
    {
        let ghost before = line_views(r@);
        let line: usize = k + 1;
        let n: usize = lines[k].len();
        if continues(lines[k].as_slice()) {
            let start: Vec<char> = slice_to_vec(slice_subrange(lines[k].as_slice(), 0, n - 1));
            proof {
                assert(start@ =~= all[k as int].drop_last());
            }
            let (joined, next) = read_continuation(&lines, k + 1, start);
            let ghost view = joined@;
            r.push(LogicalLine { line, text: joined });
            proof {
                assert(line_views(r@) =~= before.push((line, view)));
            }
            k = next;
        } else {
            let copy: Vec<char> = slice_to_vec(lines[k].as_slice());
            let ghost view = copy@;
            r.push(LogicalLine { line, text: copy });
            proof {
                assert(line_views(r@) =~= before.push((line, view)));
            }
            k += 1;
        }
    }
    r
}

/// The position in `source`, which holds line `k` behind the first of a logical
/// line, where the content of the logical line goes on.
pub open spec fn content_start(source: Seq<char>, k: int) -> int {
    if k == 0 {
        0
    } else {
        text::first_not_in(source, 0, Class::Space)
    }
}

/// Diagnostic `d`, whose line and column are those of a logical line, with the
/// physical line and column in their place. `k` physical lines have been passed
/// over, which hold the first `start` bytes of the logical line.
pub open spec fn remapped_from(
    d: DiagnosticView,
    logical: Seq<char>,
    lines: Seq<Seq<char>>,
    k: int,
    start: int,
) -> DiagnosticView
    decreases lines.len() - k,
{
    let at = diagnostic::before_column(d.line) + k;
    if k < 0 || at >= lines.len() {
        DiagnosticView { source_line: Some(logical), ..d }
    } else {
        let source = text::without_cr(lines[at]);
        let from = content_start(source, k);
        let content = source.skip(from);
        let continued = is_continued(content);
        let end = start + text::byte_len(
            if continued {
                content.drop_last()
            } else {
                content
            },
        );
        let offset = diagnostic::before_column(d.column);
        if offset < end || !continued {
            DiagnosticView {
                line: text::sat(d.line + k),
                column: text::sat(text::byte_len(source.take(from)) + offset - start + 1),
                source_line: Some(lines[at]),
                ..d
            }
        } else {
            remapped_from(d, logical, lines, k + 1, end)
        }
    }
}

/// Diagnostic `d` with the physical line and column in place of those of the
/// logical line.
pub open spec fn remapped(d: DiagnosticView, logical: Seq<char>, source: Seq<char>) -> DiagnosticView {
    remapped_from(d, logical, text::raw_lines(source, 0), 0, 0)
}

/// The lines of a text, without their line feeds.
pub fn split_raw_lines(s: &[char]) -> (r: Vec<Vec<char>>)
    ensures
        text::texts(r@) == text::raw_lines(s@, 0),
{
    let mut r: Vec<Vec<char>> = Vec::new();
    let mut i: usize = 0;
    while i < s.len()
        invariant
            i <= s@.len(),
            text::texts(r@) + text::raw_lines(s@, i as int) =~= text::raw_lines(s@, 0),
        decreases s@.len() - i,
    {
        let end: usize = find_in(s, i, Class::Is('\n'));
        let ghost before = text::texts(r@);
        let line: &[char] = slice_subrange(s, i, end);
        r.push(slice_to_vec(line));
        proof {
            assert(text::texts(r@) =~= before.push(line@));
        }
        if end < s.len() {
            i = end + 1;
        } else {
            i = s.len();
        }
    }
    r
}

/// The diagnostic with the physical line and column in place of those of the
/// logical line.
pub fn remap_logical_diagnostic(
    d: Diagnostic,
    logical_source: &[char],
    complete_source: &[char],
) -> (r: Diagnostic)
    ensures
        r.deep_view() == remapped(d.deep_view(), logical_source@, complete_source@),
{
    let lines: Vec<Vec<char>> = split_raw_lines(complete_source);
    let ghost all = text::texts(lines@);
    let ghost v = d.deep_view();
    let first: usize = if d.line > 0 {
        d.line - 1
    } else {
        0
    };
    let offset: usize = if d.column > 0 {
        d.column - 1
    } else {
        0
    };
    let mut k: usize = 0;
    let mut start: usize = 0;
    while first < lines.len() && k < lines.len() - first
        invariant
            all == text::texts(lines@),
            v == d.deep_view(),
            first == diagnostic::before_column(d.line),
            offset == diagnostic::before_column(d.column),
            offset < usize::MAX,
            start <= offset,
            k <= lines@.len(),
            remapped(v, logical_source@, complete_source@) == remapped_from(
                v,
                logical_source@,
                all,
                k as int,
                start as int,
            ),
        decreases lines@.len() - k,
    {
        let physical: &[char] = lines[first + k].as_slice();
        let source: &[char] = strip_cr(physical);
        let from: usize = if k == 0 {
            0
        } else {
            find_not_in(source, 0, Class::Space)
        };
        let content: &[char] = slice_subrange(source, from, source.len());
        let continued: bool = continues(content);
        let body: &[char] = if continued {
            slice_subrange(content, 0, content.len() - 1)
        } else {
            content
        };
        let end: usize = start.saturating_add(width(body));
        proof {
            assert(content@ =~= source@.skip(from as int));
            if continued {
                assert(body@ =~= content@.drop_last());
            }
            assert(all[first + k] == physical@);
        }
        if offset < end || !continued {
            let indent: usize = width(slice_subrange(source, 0, from));
            proof {
                assert(source@.subrange(0, from as int) =~= source@.take(from as int));
            }
            let line: usize = d.line.saturating_add(k);
            let column: usize = indent.saturating_add(offset - start).saturating_add(1);
            return Diagnostic { line, column, ..d }.with_source(physical);
        }
        start = end;
        k += 1;
    }
    d.with_source(logical_source)
}

/// The column behind the end of a line.
pub open spec fn end_column(line: Seq<char>) -> usize {
    text::sat((text::without_cr(line).len() + 1) as int)
}

pub fn line_end_column(line: &[char]) -> (r: usize)
    ensures
        r == end_column(line@),
{
    strip_cr(line).len().saturating_add(1)
}

/// The column of what follows the first colon of a line, if it has one.
pub open spec fn rule_column(line: Seq<char>) -> Option<usize> {
    let colon = text::first_in(line, 0, Class::Is(':'));
    if colon < line.len() {
        let start = text::first_not_in(line, colon + 1, Class::Space);
        Some(text::sat(text::byte_len(line.take(start)) + 1))
    } else {
        None
    }
}

pub fn build_rule_column(line: &[char]) -> (r: Option<usize>)
    ensures
        r == rule_column(line@),
{
    let colon: usize = find_in(line, 0, Class::Is(':'));
    if colon < line.len() {
        let start: usize = find_not_in(line, colon + 1, Class::Space);
        proof {
            assert(line@.subrange(0, start as int) =~= line@.take(start as int));
        }
        Some(width(slice_subrange(line, 0, start)).saturating_add(1))
    } else {
        None
    }
}

/// The line without its comment: a line whose first character is `#` is empty.
pub open spec fn uncommented(line: Seq<char>) -> Seq<char> {
    if is_comment(line) {
        seq![]
    } else {
        line
    }
}

/// Whether the first character of a line is `#`.
pub open spec fn is_comment(line: Seq<char>) -> bool {
    let s = text::trimmed_start(line);
    s.len() > 0 && s[0] == '#'
}

/// The line without its comment.
pub fn strip_comment(line: &[char]) -> (r: &[char])
    ensures
        r@ == uncommented(line@),
{
    let s: &[char] = trim_start(line);
    if s.len() > 0 && s[0] == '#' {
        proof {
            assert(line@.subrange(0, 0) =~= seq![]);
        }
        slice_subrange(line, 0, 0)
    } else {
        line
    }
}

} // verus!
