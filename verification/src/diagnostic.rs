//! Errors in manifests, with the place where they were found.
use crate::numbers;
use crate::numbers::decimal_of;
use crate::text;
use crate::text::Class;
use crate::text::chars_of;
use crate::text::find_in;
use crate::text::string_of;
use crate::text::strip_prefix;
use vstd::prelude::*;
use vstd::slice::slice_subrange;
use vstd::string::*;

verus! {

/// An error at a line and a column of a file. Lines and columns count from one.
#[derive(Clone, Debug, PartialEq, Eq)]
pub struct Diagnostic {
    pub path: String,
    pub line: usize,
    pub column: usize,
    pub message: String,
    /// The line of the file, where it helps to show it.
    pub source_line: Option<String>,
}

/// What a `Diagnostic` holds.
#[verifier::ext_equal]
pub struct DiagnosticView {
    pub path: Seq<char>,
    pub line: usize,
    pub column: usize,
    pub message: Seq<char>,
    pub source_line: Option<Seq<char>>,
}

impl DeepView for Diagnostic {
    type V = DiagnosticView;

    open spec fn deep_view(&self) -> DiagnosticView {
        DiagnosticView {
            path: self.path@,
            line: self.line,
            column: self.column,
            message: self.message@,
            source_line: match self.source_line {
                Some(line) => Some(line@),
                None => None,
            },
        }
    }
}

/// A diagnostic that shows no line.
pub open spec fn bare_diagnostic(
    path: Seq<char>,
    line: usize,
    column: usize,
    message: Seq<char>,
) -> DiagnosticView {
    DiagnosticView { path, line, column, message, source_line: None }
}

/// A diagnostic that shows the line `source`.
pub open spec fn shown_diagnostic(
    path: Seq<char>,
    line: usize,
    column: usize,
    message: Seq<char>,
    source: Seq<char>,
) -> DiagnosticView {
    DiagnosticView { path, line, column, message, source_line: Some(source) }
}

/// `n` spaces.
pub open spec fn spaces(n: nat) -> Seq<char> {
    Seq::new(n, |i: int| ' ')
}

/// A column as the number of columns before it.
pub open spec fn before_column(column: usize) -> nat {
    if column > 0 {
        (column - 1) as nat
    } else {
        0
    }
}

/// The path, the line and the message of a diagnostic.
pub open spec fn headline(d: DiagnosticView) -> Seq<char> {
    d.path + ":"@ + numbers::numeral(d.line as nat, false) + ": "@ + d.message
}

/// The line to show: that of the file on disk where the file has it, and else
/// the one that the diagnostic holds.
pub open spec fn shown_line(d: DiagnosticView, held: Seq<char>, disk: Option<Seq<char>>) -> Seq<
    char,
> {
    let at = before_column(d.line) as int;
    match disk {
        Some(source) => if at < text::raw_lines(source, 0).len() {
            text::raw_lines(source, 0)[at]
        } else {
            held
        },
        None => held,
    }
}

/// A diagnostic in the words of Ninja, with a caret under the column. A line
/// that ends in a carriage return gets another one on Windows, where the
/// line feed behind it is written as two characters.
pub open spec fn ninja_text(d: DiagnosticView, disk: Option<Seq<char>>, windows: bool) -> Seq<
    char,
> {
    match d.source_line {
        Some(held) => {
            let line = shown_line(d, held, disk);
            let end = if windows && line.len() > 0 && line.last() == '\r' {
                "\r\n"@
            } else {
                "\n"@
            };
            headline(d) + "\n"@ + line + end + spaces(before_column(d.column)) + "^ near here"@
        },
        None => headline(d) + "\n"@,
    }
}

/// A diagnostic as text, with a caret under the column.
pub open spec fn full_text(d: DiagnosticView) -> Seq<char> {
    let head = d.path + ":"@ + numbers::numeral(d.line as nat, false) + ":"@ + numbers::numeral(
        d.column as nat,
        false,
    ) + ": error: "@ + d.message + "\n"@;
    match d.source_line {
        Some(line) => head + "  "@ + line + "\n"@ + "  "@ + spaces(before_column(d.column))
            + "^"@,
        None => head,
    }
}

/// The last position at or before `i` where `pattern` occurs in `s`, and -1
/// where there is none.
pub open spec fn last_occurrence(s: Seq<char>, pattern: Seq<char>, i: int) -> int
    decreases i + 1,
{
    if i < 0 {
        -1
    } else if pattern.is_prefix_of(s.skip(i)) {
        i
    } else {
        last_occurrence(s, pattern, i - 1)
    }
}

/// The message of an operating system error without its code: ` (os error 2)`
/// at its end is left out.
pub open spec fn without_error_code(s: Seq<char>) -> Seq<char> {
    let at = last_occurrence(s, " (os error "@, s.len() as int);
    if at >= 0 && at + " (os error "@.len() < s.len() && s.last() == ')' {
        s.take(at)
    } else {
        s
    }
}

/// What a diagnostic says of a manifest that could not be read.
pub open spec fn load_text(d: DiagnosticView, windows: bool) -> Option<Seq<char>> {
    if "loading manifest: "@.is_prefix_of(d.message) {
        let cause = without_error_code(d.message.skip("loading manifest: "@.len() as int));
        let head = "loading '"@ + d.path + "': "@ + cause;
        Some(
            if windows {
                head + "\r\r\n"@
            } else {
                head
            },
        )
    } else {
        None
    }
}

fn push_spaces(out: &mut String, n: usize)
    ensures
        final(out)@ == old(out)@ + spaces(n as nat),
{
    let mut i: usize = 0;
    while i < n
        invariant
            i <= n,
            out@ =~= old(out)@ + spaces(i as nat),
        decreases n - i,
    {
        out.push(' ');
        i += 1;
    }
}

/// Line `n` of `s`, counted from zero.
fn nth_line(s: &[char], n: usize) -> (r: Option<&[char]>)
    ensures
        match r {
            Some(line) => n < text::raw_lines(s@, 0).len() && line@ == text::raw_lines(s@, 0)[n as int],
            None => n >= text::raw_lines(s@, 0).len(),
        },
{
    let mut i: usize = 0;
    let mut k: usize = 0;
    while i < s.len()
        invariant
            i <= s@.len(),
            k <= n,
            k <= i,
            k + text::raw_lines(s@, i as int).len() == text::raw_lines(s@, 0).len(),
            forall|m: int|
                0 <= m < text::raw_lines(s@, i as int).len() ==> text::raw_lines(s@, 0)[k + m]
                    == #[trigger] text::raw_lines(s@, i as int)[m],
        decreases s@.len() - i,
    {
        let end: usize = find_in(s, i, Class::Is('\n'));
        let ghost rest = text::raw_lines(s@, i as int);
        proof {
            assert(rest[0] =~= s@.subrange(i as int, end as int));
        }
        if k == n {
            return Some(slice_subrange(s, i, end));
        }
        if end == s.len() {
            return None;
        }
        proof {
            let next = text::raw_lines(s@, end + 1);
            assert(rest =~= seq![s@.subrange(i as int, end as int)] + next);
            assert forall|m: int| 0 <= m < next.len() implies text::raw_lines(s@, 0)[k + 1 + m]
                == #[trigger] next[m] by {
                assert(rest[m + 1] == next[m]);
                assert(text::raw_lines(s@, 0)[k + (m + 1)] == rest[m + 1]);
            }
        }
        k += 1;
        i = end + 1;
    }
    None
}

/// The message of an operating system error without its code.
pub fn io_error_message(cause: &[char]) -> (r: &[char])
    ensures
        r@ == without_error_code(cause@),
{
    let pattern: Vec<char> = chars_of(" (os error ");
    let n: usize = cause.len();
    let mut i: usize = n;
    proof {
        let last = cause@.skip(n as int);
        reveal_strlit(" (os error ");
        assert(last.len() == 0);
    }
    while i > 0
        invariant
            i <= n,
            n == cause@.len(),
            pattern@ == " (os error "@,
            pattern@.len() > 0,
            !pattern@.is_prefix_of(cause@.skip(i as int)),
            last_occurrence(cause@, pattern@, n as int) == last_occurrence(
                cause@,
                pattern@,
                i as int,
            ),
        decreases i,
    {
        i -= 1;
        let rest: &[char] = slice_subrange(cause, i, n);
        proof {
            assert(rest@ =~= cause@.skip(i as int));
            assert(last_occurrence(cause@, pattern@, i + 1) == last_occurrence(
                cause@,
                pattern@,
                i as int,
            ));
        }
        if strip_prefix(rest, " (os error ").is_some() {
            if i + pattern.len() < n && cause[n - 1] == ')' {
                proof {
                    assert(cause@.subrange(0, i as int) =~= cause@.take(i as int));
                }
                return slice_subrange(cause, 0, i);
            }
            return cause;
        }
    }
    proof {
        assert(last_occurrence(cause@, pattern@, -1) == -1);
        assert(last_occurrence(cause@, pattern@, 0) == -1);
    }
    cause
}

impl Diagnostic {
    /// A diagnostic that shows no line.
    pub fn new(path: &str, line: usize, column: usize, message: &str) -> (r: Diagnostic)
        ensures
            r.deep_view() == bare_diagnostic(path@, line, column, message@),
    {
        Diagnostic {
            path: path.to_owned(),
            line,
            column,
            message: message.to_owned(),
            source_line: None,
        }
    }

    /// The diagnostic with the line `source` to show.
    pub fn with_source(self, source: &[char]) -> (r: Diagnostic)
        ensures
            r.deep_view() == (DiagnosticView { source_line: Some(source@), ..self.deep_view() }),
    {
        Diagnostic { source_line: Some(string_of(source)), ..self }
    }

    fn headline(&self) -> (r: String)
        ensures
            r@ == headline(self.deep_view()),
    {
        let mut message: String = self.path.clone();
        message.append(":");
        message.append(decimal_of(self.line).as_str());
        message.append(": ");
        message.append(self.message.as_str());
        message
    }

    /// The diagnostic in the words of Ninja. `disk_source` is what the file
    /// holds now, if it can be read.
    pub fn ninja_message(&self, disk_source: Option<&str>, windows: bool) -> (r: String)
        ensures
            r@ == ninja_text(
                self.deep_view(),
                match disk_source {
                    Some(s) => Some(s@),
                    None => None,
                },
                windows,
            ),
    {
        let mut message: String = self.headline();
        match &self.source_line {
            Some(held) => {
                let mut line: String = held.clone();
                if let Some(source) = disk_source {
                    let chars: Vec<char> = chars_of(source);
                    let at: usize = if self.line > 0 {
                        self.line - 1
                    } else {
                        0
                    };
                    if let Some(found) = nth_line(chars.as_slice(), at) {
                        line = string_of(found);
                    }
                }
                message.append("\n");
                message.append(line.as_str());
                let line_chars: Vec<char> = chars_of(line.as_str());
                let n: usize = line_chars.len();
                if windows && n > 0 && line_chars[n - 1] == '\r' {
                    message.append("\r\n");
                } else {
                    message.append("\n");
                }
                let indent: usize = if self.column > 0 {
                    self.column - 1
                } else {
                    0
                };
                push_spaces(&mut message, indent);
                message.append("^ near here");
            },
            None => {
                message.append("\n");
            },
        }
        message
    }

    /// What the diagnostic says of a manifest that could not be read, in the
    /// words of Ninja on Windows or elsewhere.
    pub fn ninja_manifest_load_message_on(&self, windows: bool) -> (r: Option<String>)
        ensures
            match r {
                Some(m) => load_text(self.deep_view(), windows) == Some(m@),
                None => load_text(self.deep_view(), windows) is None,
            },
    {
        let chars: Vec<char> = chars_of(self.message.as_str());
        match strip_prefix(chars.as_slice(), "loading manifest: ") {
            Some(cause) => {
                let mut message: String = "loading '".to_owned();
                message.append(self.path.as_str());
                message.append("': ");
                message.append(string_of(io_error_message(cause)).as_str());
                if windows {
                    message.append("\r\r\n");
                }
                Some(message)
            },
            None => None,
        }
    }

    /// What the diagnostic says of a manifest that could not be read, in the
    /// words of Ninja.
    pub fn ninja_manifest_load_message(&self) -> (r: Option<String>)
        ensures
            match r {
                Some(m) => load_text(self.deep_view(), false) == Some(m@),
                None => load_text(self.deep_view(), false) is None,
            },
    {
        self.ninja_manifest_load_message_on(false)
    }

    /// The diagnostic as text.
    pub fn render(&self) -> (r: String)
        ensures
            r@ == full_text(self.deep_view()),
    {
        let mut out: String = self.path.clone();
        out.append(":");
        out.append(decimal_of(self.line).as_str());
        out.append(":");
        out.append(decimal_of(self.column).as_str());
        out.append(": error: ");
        out.append(self.message.as_str());
        out.append("\n");
        if let Some(line) = &self.source_line {
            out.append("  ");
            out.append(line.as_str());
            out.append("\n");
            out.append("  ");
            let indent: usize = if self.column > 0 {
                self.column - 1
            } else {
                0
            };
            push_spaces(&mut out, indent);
            out.append("^");
        }
        out
    }
}

} // verus!
