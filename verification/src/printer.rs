//! What a build prints: status lines, what commands have printed, and what is held
//! back while a command has the terminal to itself.
use crate::elide;
use crate::elide::elide_middle;
use crate::policy::smart_terminal_policy;
use vstd::prelude::*;

verus! {

/// What `strip_ansi_escapes::strip` makes of some bytes.
pub uninterp spec fn stripped(bytes: Seq<u8>) -> Seq<u8>;

/// `strip_ansi_escapes::strip`, which leaves out the escape sequences of terminals.
/// What it leaves is named: it depends on the bytes alone.
#[verifier::external_body]
fn strip(bytes: &[u8]) -> (r: Vec<u8>)
    ensures
        r@ == stripped(bytes@),
{
    strip_ansi_escapes::strip(bytes)
}

/// What a printer holds.
#[verifier::ext_equal]
pub struct PrinterView {
    /// Whether status lines are written over one another.
    pub smart: bool,
    /// Whether commands may print colours.
    pub color: bool,
    /// Whether the line that is being written has nothing in it.
    pub fresh: bool,
    /// Whether everything is held back until the end.
    pub buffered: bool,
    /// Whether everything is held back for a while.
    pub suspended: bool,
    /// What is held back.
    pub pending: Seq<u8>,
    pub windows: bool,
}

/// Decides what is written when.
pub struct Printer {
    smart: bool,
    color: bool,
    fresh: bool,
    buffered: bool,
    suspended: bool,
    pending: Vec<u8>,
    windows: bool,
}

/// The end of a line.
pub open spec fn newline(windows: bool) -> Seq<u8> {
    if windows {
        seq![13u8, 10u8]
    } else {
        seq![10u8]
    }
}

/// Whether byte `i` ends a line by itself.
pub open spec fn is_bare(s: Seq<u8>, i: int) -> bool {
    s[i] == 10 && (i == 0 || s[i - 1] != 13)
}

/// A text whose lines end as they do on Windows.
pub open spec fn with_returns(s: Seq<u8>) -> Seq<u8>
    decreases s.len(),
{
    if s.len() == 0 {
        seq![]
    } else if is_bare(s, s.len() - 1) {
        with_returns(s.drop_last()) + newline(true)
    } else {
        with_returns(s.drop_last()).push(s.last())
    }
}

/// A text as it is written on a system.
pub open spec fn translated(s: Seq<u8>, windows: bool) -> Seq<u8> {
    if windows {
        with_returns(s)
    } else {
        s
    }
}

pub open spec fn is_held(p: PrinterView) -> bool {
    p.buffered || p.suspended
}

/// A printer, and what it writes.
pub struct Printed {
    pub printer: PrinterView,
    pub written: Seq<u8>,
}

/// A status line has been printed. Where lines are written over one another, only
/// one that is `full` stays; another is cut to the width of the terminal where that is
/// known.
pub open spec fn with_status(
    p: PrinterView,
    line: Seq<u8>,
    full: bool,
    width: Option<usize>,
) -> Printed {
    let passing = p.smart && !full;
    let shown = match width {
        Some(w) => if passing {
            elide::elided(line, w as int)
        } else {
            line
        },
        None => line,
    };
    if is_held(p) {
        Printed {
            printer: PrinterView { pending: p.pending + line + newline(p.windows), ..p },
            written: seq![],
        }
    } else {
        Printed {
            printer: PrinterView { fresh: p.fresh && !passing, ..p },
            written: (if p.smart {
                seq![13u8]
            } else {
                seq![]
            }) + translated(shown, p.windows) + (if passing {
                seq![27u8, 91u8, 75u8]
            } else {
                newline(p.windows)
            }),
        }
    }
}

/// What ends the line that is being written.
pub open spec fn line_break(p: PrinterView) -> Seq<u8> {
    if p.fresh {
        seq![]
    } else {
        newline(p.windows)
    }
}

/// A text has been printed, from the beginning of a line on.
pub open spec fn with_text(p: PrinterView, s: Seq<u8>) -> Printed {
    let fresh = s.len() == 0 || s.last() == 10;
    if is_held(p) {
        Printed {
            printer: PrinterView { fresh, pending: p.pending + line_break(p) + s, ..p },
            written: seq![],
        }
    } else {
        Printed {
            printer: PrinterView { fresh, ..p },
            written: line_break(p) + translated(s, p.windows),
        }
    }
}

/// What a command has printed has been printed, without colours where they are not
/// wanted.
pub open spec fn with_output(p: PrinterView, s: Seq<u8>) -> Printed {
    if s.len() == 0 {
        Printed { printer: p, written: seq![] }
    } else if p.color {
        with_text(p, s)
    } else {
        with_text(p, stripped(s))
    }
}

/// The line has been ended, and nothing is held back.
pub open spec fn finished(p: PrinterView) -> Printed {
    let ended = with_text(p, seq![]);
    Printed {
        printer: PrinterView { pending: seq![], ..ended.printer },
        written: ended.written + translated(ended.printer.pending, p.windows),
    }
}

/// What was held back for a while has been written.
pub open spec fn resumed(p: PrinterView) -> Printed {
    if p.buffered {
        Printed { printer: PrinterView { suspended: false, ..p }, written: seq![] }
    } else {
        Printed {
            printer: PrinterView { suspended: false, pending: seq![], ..p },
            written: translated(p.pending, p.windows),
        }
    }
}

fn push_bytes(out: &mut Vec<u8>, bytes: &[u8])
    ensures
        final(out)@ == old(out)@ + bytes@,
{
    let ghost start = out@;
    let mut i: usize = 0;
    while i < bytes.len()
        invariant
            i <= bytes@.len(),
            out@ == start + bytes@.take(i as int),
        decreases bytes@.len() - i,
    {
        out.push(bytes[i]);
        proof {
            assert(bytes@.take(i + 1) =~= bytes@.take(i as int).push(bytes@[i as int]));
        }
        i += 1;
    }
    proof {
        assert(bytes@.take(i as int) =~= bytes@);
    }
}

fn push_newline(out: &mut Vec<u8>, windows: bool)
    ensures
        final(out)@ == old(out)@ + newline(windows),
{
    if windows {
        out.push(13);
    }
    out.push(10);
    proof {
        assert(out@ =~= old(out)@ + newline(windows));
    }
}

/// Writes a text as it is written on a system.
pub fn push_text(out: &mut Vec<u8>, bytes: &[u8], windows: bool)
    ensures
        final(out)@ == old(out)@ + translated(bytes@, windows),
{
    if !windows {
        push_bytes(out, bytes);
        return;
    }
    let ghost start = out@;
    let mut i: usize = 0;
    proof {
        assert(bytes@.take(0) =~= seq![]);
        assert(start + with_returns(bytes@.take(0)) =~= start);
    }
    while i < bytes.len()
        invariant
            i <= bytes@.len(),
            out@ == start + with_returns(bytes@.take(i as int)),
        decreases bytes@.len() - i,
    {
        proof {
            assert(bytes@.take(i + 1).drop_last() =~= bytes@.take(i as int));
        }
        if bytes[i] == 10 && (i == 0 || bytes[i - 1] != 13) {
            push_newline(out, true);
        } else {
            out.push(bytes[i]);
        }
        proof {
            assert(out@ =~= start + with_returns(bytes@.take(i + 1)));
        }
        i += 1;
    }
    proof {
        assert(bytes@.take(i as int) =~= bytes@);
    }
}

impl Printer {
    pub closed spec fn view(&self) -> PrinterView {
        PrinterView {
            smart: self.smart,
            color: self.color,
            fresh: self.fresh,
            buffered: self.buffered,
            suspended: self.suspended,
            pending: self.pending@,
            windows: self.windows,
        }
    }

    /// A printer for a terminal or a file. Status lines are written over one another
    /// where that is wanted, on a terminal that can do so; what is not written there
    /// can be held back until the end.
    pub fn new(
        fancy_status: bool,
        buffer_redirected_output: bool,
        is_terminal: bool,
        term_is_set: bool,
        term_is_dumb: bool,
        supports_color: bool,
        windows: bool,
    ) -> (r: Printer)
        ensures
            r@ == (PrinterView {
                smart: fancy_status && is_terminal && !term_is_dumb && (windows || term_is_set),
                color: supports_color,
                fresh: true,
                buffered: buffer_redirected_output && !r@.smart,
                suspended: false,
                pending: seq![],
                windows,
            }),
    {
        let smart: bool = fancy_status && smart_terminal_policy(
            is_terminal,
            term_is_set,
            term_is_dumb,
            windows,
        );
        let r = Printer {
            smart,
            color: supports_color,
            fresh: true,
            buffered: buffer_redirected_output && !smart,
            suspended: false,
            pending: Vec::new(),
            windows,
        };
        proof {
            assert(r@.pending =~= seq![]);
        }
        r
    }

    /// Whether status lines are written over one another.
    pub fn is_smart_terminal(&self) -> (r: bool)
        ensures
            r == self@.smart,
    {
        self.smart
    }

    /// Whether commands may print colours.
    pub fn supports_color(&self) -> (r: bool)
        ensures
            r == self@.color,
    {
        self.color
    }

    /// Holds back everything until `resume`.
    pub fn suspend(&mut self)
        ensures
            final(self)@ == (PrinterView { suspended: true, ..old(self)@ }),
    {
        self.suspended = true;
    }

    fn take_pending(&mut self) -> (r: Vec<u8>)
        ensures
            final(self)@ == (PrinterView { pending: seq![], ..old(self)@ }),
            r@ == translated(old(self)@.pending, old(self)@.windows),
    {
        let mut r: Vec<u8> = Vec::new();
        push_text(&mut r, self.pending.as_slice(), self.windows);
        proof {
            assert(Seq::<u8>::empty() + r@ =~= r@);
        }
        self.pending = Vec::new();
        proof {
            assert(self@.pending =~= seq![]);
        }
        r
    }

    /// What is to be written now that nothing is held back for a while any more.
    pub fn resume(&mut self) -> (r: Vec<u8>)
        ensures
            (Printed { printer: final(self)@, written: r@ }) == resumed(old(self)@),
    {
        self.suspended = false;
        if self.buffered {
            Vec::new()
        } else {
            self.take_pending()
        }
    }

    /// What is to be written for a status line where the width of the terminal is not
    /// known.
    pub fn print_status(&mut self, line: &[u8], full: bool) -> (r: Vec<u8>)
        ensures
            (Printed { printer: final(self)@, written: r@ }) == with_status(
                old(self)@,
                line@,
                full,
                None,
            ),
    {
        self.print_status_in(line, full, None)
    }

    /// What is to be written for a status line on a terminal that is `width` columns wide.
    pub fn print_status_in(&mut self, line: &[u8], full: bool, width: Option<usize>) -> (r: Vec<u8>)
        ensures
            (Printed { printer: final(self)@, written: r@ }) == with_status(
                old(self)@,
                line@,
                full,
                width,
            ),
    {
        let mut r: Vec<u8> = Vec::new();
        if self.buffered || self.suspended {
            push_bytes(&mut self.pending, line);
            push_newline(&mut self.pending, self.windows);
            return r;
        }
        if self.smart {
            r.push(13);
        }
        let ghost start = r@;
        proof {
            assert(start =~= if self.smart {
                seq![13u8]
            } else {
                seq![]
            });
        }
        match width {
            Some(w) if self.smart && !full => {
                let shown: Vec<u8> = elide_middle(line, w);
                push_text(&mut r, shown.as_slice(), self.windows);
            },
            _ => {
                push_text(&mut r, line, self.windows);
            },
        }
        if self.smart && !full {
            let ghost before = r@;
            r.push(27);
            r.push(91);
            r.push(75);
            proof {
                assert(r@ =~= before + seq![27u8, 91u8, 75u8]);
            }
            self.fresh = false;
        } else {
            push_newline(&mut r, self.windows);
        }
        r
    }

    /// What is to be written for a text that begins on a line of its own.
    pub fn print_on_new_line(&mut self, output: &[u8]) -> (r: Vec<u8>)
        ensures
            (Printed { printer: final(self)@, written: r@ }) == with_text(old(self)@, output@),
    {
        let mut r: Vec<u8> = Vec::new();
        let fresh: bool = output.len() == 0 || output[output.len() - 1] == 10;
        if self.buffered || self.suspended {
            if !self.fresh {
                push_newline(&mut self.pending, self.windows);
            }
            proof {
                assert(self.pending@ =~= old(self)@.pending + line_break(old(self)@));
            }
            push_bytes(&mut self.pending, output);
            self.fresh = fresh;
            return r;
        }
        if !self.fresh {
            push_newline(&mut r, self.windows);
        }
        proof {
            assert(r@ =~= line_break(old(self)@));
        }
        push_text(&mut r, output, self.windows);
        self.fresh = fresh;
        r
    }

    /// What is to be written for what a command has printed.
    pub fn write_command_output(&mut self, output: &[u8]) -> (r: Vec<u8>)
        ensures
            (Printed { printer: final(self)@, written: r@ }) == with_output(old(self)@, output@),
    {
        if output.len() == 0 {
            return Vec::new();
        }
        if self.color {
            self.print_on_new_line(output)
        } else {
            let plain: Vec<u8> = strip(output);
            self.print_on_new_line(plain.as_slice())
        }
    }

    /// What is to be written to end the line and to hold back nothing.
    pub fn finish_line(&mut self) -> (r: Vec<u8>)
        ensures
            (Printed { printer: final(self)@, written: r@ }) == finished(old(self)@),
    {
        let nothing: Vec<u8> = Vec::new();
        let mut r: Vec<u8> = self.print_on_new_line(nothing.as_slice());
        proof {
            assert(nothing@ =~= seq![]);
        }
        let held: Vec<u8> = self.take_pending();
        push_bytes(&mut r, held.as_slice());
        r
    }
}

proof fn lemma_returns_joined(a: Seq<u8>, b: Seq<u8>)
    requires
        a.len() == 0 || a.last() != 13,
    ensures
        with_returns(a + b) == with_returns(a) + with_returns(b),
    decreases b.len(),
{
    if b.len() == 0 {
        assert(a + b =~= a);
        assert(with_returns(a) + with_returns(b) =~= with_returns(a));
    } else {
        let n = (a + b).len() - 1;
        assert((a + b).drop_last() =~= a + b.drop_last());
        lemma_returns_joined(a, b.drop_last());
        assert(is_bare(a + b, n) == is_bare(b, b.len() - 1)) by {
            if b.len() == 1 && a.len() > 0 {
                assert((a + b)[n - 1] == a.last());
            }
        }
        assert(with_returns(a + b) =~= with_returns(a) + with_returns(b));
    }
}

/// On Windows every line that is written ends with both of its bytes.
pub proof fn law_lines_end_alike(s: Seq<u8>, i: int)
    requires
        0 <= i < with_returns(s).len(),
    ensures
        !is_bare(with_returns(s), i),
    decreases s.len(),
{
    if s.len() > 0 {
        let r = with_returns(s);
        let before = with_returns(s.drop_last());
        if i < before.len() {
            law_lines_end_alike(s.drop_last(), i);
            assert(r[i] == before[i]);
            if i > 0 {
                assert(r[i - 1] == before[i - 1]);
            }
        } else if !is_bare(s, s.len() - 1) && s.last() == 10 {
            lemma_last_kept(s.drop_last());
            assert(s.drop_last().last() == 13);
            assert(r[i - 1] == before.last());
        }
    }
}

proof fn lemma_last_kept(s: Seq<u8>)
    requires
        s.len() > 0,
    ensures
        with_returns(s).len() > 0,
        with_returns(s).last() == s.last(),
{
}

/// A text that has been translated is left as it is, so that what was held back is
/// written like what was not.
pub proof fn law_translated_text_is_kept(s: Seq<u8>, windows: bool)
    ensures
        translated(translated(s, windows), windows) == translated(s, windows),
{
    if windows {
        let r = with_returns(s);
        assert forall|i: int| 0 <= i < r.len() implies !is_bare(r, i) by {
            law_lines_end_alike(s, i);
        }
        lemma_nothing_bare(r);
    }
}

proof fn lemma_nothing_bare(s: Seq<u8>)
    requires
        forall|i: int| 0 <= i < s.len() ==> !is_bare(s, i),
    ensures
        with_returns(s) == s,
    decreases s.len(),
{
    if s.len() > 0 {
        let t = s.drop_last();
        assert forall|i: int| 0 <= i < t.len() implies !is_bare(t, i) by {
            assert(!is_bare(s, i));
        }
        lemma_nothing_bare(t);
        assert(!is_bare(s, s.len() - 1));
        assert(with_returns(s) =~= s);
    } else {
        assert(with_returns(s) =~= s);
    }
}

/// What is printed while a printer is suspended is written when it is resumed, as it
/// would have been written at once.
pub proof fn law_suspended_text_is_written(p: PrinterView, s: Seq<u8>)
    requires
        !is_held(p),
        p.pending.len() == 0,
    ensures
        resumed(with_text(PrinterView { suspended: true, ..p }, s).printer) == with_text(p, s),
{
    let held = with_text(PrinterView { suspended: true, ..p }, s).printer;
    let line = line_break(p);
    assert(held.pending =~= line + s);
    if p.windows {
        lemma_returns_joined(line, s);
        if !p.fresh {
            assert forall|i: int| 0 <= i < line.len() implies !is_bare(line, i) by {}
            lemma_nothing_bare(line);
        } else {
            assert(with_returns(line) =~= line);
        }
    }
    assert(resumed(held).printer =~= with_text(p, s).printer);
    assert(resumed(held).written =~= with_text(p, s).written);
}

/// Once a line has been ended nothing is held back, and the next text begins a line.
pub proof fn law_finished_printer_holds_nothing(p: PrinterView)
    ensures
        finished(p).printer.pending.len() == 0,
        finished(p).printer.fresh,
        finished(finished(p).printer).written.len() == 0,
{
    let q = finished(p).printer;
    assert(with_text(q, seq![]).printer.pending =~= seq![]);
    assert(with_text(q, seq![]).written =~= seq![]);
    assert(with_returns(seq![]) =~= seq![]);
}

/// Where nothing is held back, a status line is written on a line of its own. On a terminal on
/// which lines are written over one another it begins at the beginning of the line, and one
/// that does not stay is cut to the width that is known, ends where the rest of the line is
/// cleared, and leaves the line unfinished. What is held back keeps the whole line.
pub proof fn law_status_lines_are_written(
    p: PrinterView,
    line: Seq<u8>,
    full: bool,
    width: Option<usize>,
)
    ensures
        is_held(p) ==> with_status(p, line, full, width).written == Seq::<u8>::empty()
            && with_status(p, line, full, width).printer.pending == p.pending + line + newline(
            p.windows,
        ),
        !is_held(p) && !p.smart ==> with_status(p, line, full, width).written == translated(
            line,
            p.windows,
        ) + newline(p.windows),
        !is_held(p) && p.smart && full ==> with_status(p, line, full, width).written == seq![13u8]
            + translated(line, p.windows) + newline(p.windows),
        !is_held(p) && p.smart && !full ==> with_status(p, line, full, width).written == seq![13u8]
            + translated(
            match width {
                Some(w) => elide::elided(line, w as int),
                None => line,
            },
            p.windows,
        ) + seq![27u8, 91u8, 75u8] && !with_status(p, line, full, width).printer.fresh,
{
    assert(Seq::<u8>::empty() + translated(line, p.windows) =~= translated(line, p.windows));
}

/// What a command has printed begins on a line of its own, and what follows it does too. Its
/// colours stay where they are wanted.
pub proof fn law_output_of_commands_stands_on_its_own_lines(p: PrinterView, s: Seq<u8>)
    requires
        p.color,
        !is_held(p),
        s.len() > 0,
    ensures
        with_output(p, s).written == (if p.fresh {
            translated(s, p.windows)
        } else {
            newline(p.windows) + translated(s, p.windows)
        }),
        finished(with_output(p, s).printer).written == (if s.last() == 10 {
            translated(p.pending, p.windows)
        } else {
            newline(p.windows) + translated(p.pending, p.windows)
        }),
{
    let after = with_output(p, s).printer;
    assert(Seq::<u8>::empty() + translated(s, p.windows) =~= translated(s, p.windows));
    let none = Seq::<u8>::empty();
    assert(translated(none, p.windows) =~= none);
    assert(none + none + translated(p.pending, p.windows) =~= translated(p.pending, p.windows));
    assert(newline(p.windows) + none + translated(p.pending, p.windows) =~= newline(p.windows)
        + translated(p.pending, p.windows));
}

} // verus!
