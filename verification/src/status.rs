//! Status lines: how far a build has come, in the words of a format.
use crate::numbers;
use crate::numbers::push_number;
use crate::text;
use crate::text::chars_of;
use crate::text::find_in;
use crate::text::find_not_in;
use crate::text::is_text;
use crate::text::push_all;
use crate::text::string_of;
use crate::text::Class;
use vstd::prelude::*;
use vstd::slice::slice_subrange;
use vstd::string::*;

verus! {

/// How far a build has come. Rates and times are written out.
pub struct Snapshot {
    pub started: usize,
    pub finished: usize,
    pub running: usize,
    pub total: usize,
    /// How much of the build is done by the times of earlier builds, in percent.
    pub predicted_progress: usize,
    pub rate: String,
    pub current_rate: String,
    pub elapsed_seconds: String,
    pub eta_seconds: String,
    pub elapsed: String,
    pub eta: String,
    pub description: String,
}

/// What a `Snapshot` holds.
#[verifier::ext_equal]
pub struct SnapshotView {
    pub started: usize,
    pub finished: usize,
    pub running: usize,
    pub total: usize,
    pub predicted_progress: usize,
    pub rate: Seq<char>,
    pub current_rate: Seq<char>,
    pub elapsed_seconds: Seq<char>,
    pub eta_seconds: Seq<char>,
    pub elapsed: Seq<char>,
    pub eta: Seq<char>,
    pub description: Seq<char>,
}

impl Snapshot {
    pub open spec fn view(&self) -> SnapshotView {
        SnapshotView {
            started: self.started,
            finished: self.finished,
            running: self.running,
            total: self.total,
            predicted_progress: self.predicted_progress,
            rate: self.rate@,
            current_rate: self.current_rate@,
            elapsed_seconds: self.elapsed_seconds@,
            eta_seconds: self.eta_seconds@,
            elapsed: self.elapsed@,
            eta: self.eta@,
            description: self.description@,
        }
    }
}

/// What a status line can tell.
#[derive(Clone, Copy)]
pub enum Item {
    Started,
    Finished,
    Running,
    Remaining,
    Total,
    Progress,
    Rate,
    CurrentRate,
    ElapsedSeconds,
    EtaSeconds,
    Elapsed,
    Eta,
    PredictedProgress,
    Description,
}

/// How much of `total` is finished, in percent.
pub open spec fn share(finished: usize, total: usize) -> usize {
    if finished == 0 || total == 0 {
        0
    } else {
        (text::sat(finished * 100) / total) as usize
    }
}

/// How much of `total` is finished, in percent.
pub fn percentage(finished: usize, total: usize) -> (r: usize)
    ensures
        r == share(finished, total),
{
    if finished == 0 || total == 0 {
        0
    } else {
        let scaled: usize = match finished.checked_mul(100) {
            Some(scaled) => scaled,
            None => usize::MAX,
        };
        scaled / total
    }
}

/// A text with blanks before it where it has less than three characters.
pub open spec fn aligned(s: Seq<char>) -> Seq<char>
    decreases 3 - s.len(),
{
    if s.len() >= 3 {
        s
    } else {
        aligned(seq![' '] + s)
    }
}

/// A share in percent.
pub open spec fn percent(n: usize) -> Seq<char> {
    aligned(numbers::numeral(n as nat, false)) + "%"@
}

pub open spec fn count(n: usize) -> Seq<char> {
    numbers::numeral(n as nat, false)
}

/// What a status line tells.
pub open spec fn told(v: SnapshotView, item: Item) -> Seq<char> {
    match item {
        Item::Started => count(v.started),
        Item::Finished => count(v.finished),
        Item::Running => count(v.running),
        Item::Remaining => count(text::sat(v.total - v.started)),
        Item::Total => count(v.total),
        Item::Progress => percent(share(v.finished, v.total)),
        Item::Rate => v.rate,
        Item::CurrentRate => v.current_rate,
        Item::ElapsedSeconds => v.elapsed_seconds,
        Item::EtaSeconds => v.eta_seconds,
        Item::Elapsed => v.elapsed,
        Item::Eta => v.eta,
        Item::PredictedProgress => percent(v.predicted_progress),
        Item::Description => v.description,
    }
}

/// What a placeholder stands for.
pub open spec fn placeholder(c: char) -> Option<Item> {
    if c == 's' {
        Some(Item::Started)
    } else if c == 'f' {
        Some(Item::Finished)
    } else if c == 'r' {
        Some(Item::Running)
    } else if c == 'u' {
        Some(Item::Remaining)
    } else if c == 't' {
        Some(Item::Total)
    } else if c == 'p' {
        Some(Item::Progress)
    } else if c == 'o' {
        Some(Item::Rate)
    } else if c == 'c' {
        Some(Item::CurrentRate)
    } else if c == 'e' {
        Some(Item::ElapsedSeconds)
    } else if c == 'E' {
        Some(Item::EtaSeconds)
    } else if c == 'w' {
        Some(Item::Elapsed)
    } else if c == 'W' {
        Some(Item::Eta)
    } else if c == 'P' {
        Some(Item::PredictedProgress)
    } else {
        None
    }
}

/// What a variable stands for.
pub open spec fn variable(name: Seq<char>) -> Option<Item> {
    if name == "started"@ {
        Some(Item::Started)
    } else if name == "finished"@ {
        Some(Item::Finished)
    } else if name == "running"@ {
        Some(Item::Running)
    } else if name == "remaining"@ {
        Some(Item::Remaining)
    } else if name == "total"@ {
        Some(Item::Total)
    } else if name == "progress"@ {
        Some(Item::Progress)
    } else if name == "rate"@ {
        Some(Item::Rate)
    } else if name == "current_rate"@ {
        Some(Item::CurrentRate)
    } else if name == "elapsed_seconds"@ {
        Some(Item::ElapsedSeconds)
    } else if name == "eta_seconds"@ {
        Some(Item::EtaSeconds)
    } else if name == "elapsed"@ {
        Some(Item::Elapsed)
    } else if name == "eta"@ {
        Some(Item::Eta)
    } else if name == "predicted_progress"@ {
        Some(Item::PredictedProgress)
    } else if name == "description"@ {
        Some(Item::Description)
    } else {
        None
    }
}

/// `line` and what a format says from `i` on, where placeholders stand behind percent
/// signs.
pub open spec fn placed(s: Seq<char>, i: int, v: SnapshotView, line: Seq<char>) -> Result<
    Seq<char>,
    Seq<char>,
>
    decreases s.len() - i,
{
    if i < 0 || i >= s.len() {
        Ok(line)
    } else if s[i] != '%' {
        placed(s, i + 1, v, line.push(s[i]))
    } else if i + 1 >= s.len() {
        Err("unknown placeholder '%' in NINJA_STATUS"@)
    } else if s[i + 1] == '%' {
        placed(s, i + 2, v, line.push('%'))
    } else {
        match placeholder(s[i + 1]) {
            Some(item) => placed(s, i + 2, v, line + told(v, item)),
            None => Err("unknown placeholder '%"@ + seq![s[i + 1]] + "' in NINJA_STATUS"@),
        }
    }
}

pub open spec fn bad_escape() -> Seq<char> {
    "bad $-escape (literal $ must be written as $$)"@
}

/// The variable whose dollar sign is at `i`, and the position behind it, or what is
/// wrong with it.
pub open spec fn reference(s: Seq<char>, i: int) -> Result<(Seq<char>, int), Seq<char>> {
    if i + 1 >= s.len() {
        Err(bad_escape())
    } else if s[i + 1] == '{' {
        let end = text::first_in(s, i + 2, Class::Is('}'));
        if end >= s.len() {
            Err("bad $-escape (missing '}')"@)
        } else {
            Ok((s.subrange(i + 2, end), end + 1))
        }
    } else {
        let end = text::first_not_in(s, i + 1, Class::Word);
        if end == i + 1 {
            Err(bad_escape())
        } else {
            Ok((s.subrange(i + 1, end), end))
        }
    }
}

/// `line` and what a format says from `i` on, where variables stand behind dollar
/// signs.
pub open spec fn filled(s: Seq<char>, i: int, v: SnapshotView, line: Seq<char>) -> Result<
    Seq<char>,
    Seq<char>,
>
    decreases s.len() - i,
{
    if i < 0 || i >= s.len() {
        Ok(line)
    } else if s[i] != '$' {
        filled(s, i + 1, v, line.push(s[i]))
    } else if i + 1 < s.len() && (s[i + 1] == '$' || s[i + 1] == ' ' || s[i + 1] == ':') {
        filled(s, i + 2, v, line.push(s[i + 1]))
    } else {
        match reference(s, i) {
            Err(message) => Err(message),
            Ok((name, next)) => match variable(name) {
                None => Err("unknown variable '"@ + name + "' in --status format"@),
                Some(item) => if i < next <= s.len() {
                    filled(s, next, v, line + told(v, item))
                } else {
                    Ok(line)
                },
            },
        }
    }
}

/// A status line. A format that was given as such names variables; another has
/// placeholders, and the description stands behind it.
pub open spec fn status_line(s: Seq<char>, explicit: bool, v: SnapshotView) -> Result<
    Seq<char>,
    Seq<char>,
> {
    if explicit {
        filled(s, 0, v, seq![])
    } else {
        match placed(s, 0, v, seq![]) {
            Ok(line) => Ok(line + v.description),
            Err(message) => Err(message),
        }
    }
}

fn push_text(out: &mut Vec<char>, s: &str)
    ensures
        final(out)@ == old(out)@ + s@,
{
    push_all(out, chars_of(s).as_slice());
}

fn push_percent(out: &mut Vec<char>, n: usize)
    ensures
        final(out)@ == old(out)@ + percent(n),
{
    let ghost before = out@;
    let mut digits: Vec<char> = Vec::new();
    push_number(&mut digits, n as u64, false);
    proof {
        assert(digits@ =~= numbers::numeral(n as nat, false));
        numbers::law_numeral_denotes_its_number(n as nat, false);
        reveal_with_fuel(aligned, 4);
        assert(seq![' '] + (seq![' '] + digits@) =~= seq![' ', ' '] + digits@);
    }
    let len: usize = digits.len();
    if len < 3 {
        out.push(' ');
    }
    if len < 2 {
        out.push(' ');
    }
    push_all(out, digits.as_slice());
    push_text(out, "%");
    proof {
        if len == 1 {
            assert(out@ =~= before + (seq![' ', ' '] + digits@) + "%"@);
        } else if len == 2 {
            assert(out@ =~= before + (seq![' '] + digits@) + "%"@);
        }
        assert(out@ =~= before + percent(n));
    }
}

fn push_item(out: &mut Vec<char>, v: &Snapshot, item: Item)
    ensures
        final(out)@ == old(out)@ + told(v@, item),
{
    match item {
        Item::Started => push_number(out, v.started as u64, false),
        Item::Finished => push_number(out, v.finished as u64, false),
        Item::Running => push_number(out, v.running as u64, false),
        Item::Remaining => push_number(out, v.total.saturating_sub(v.started) as u64, false),
        Item::Total => push_number(out, v.total as u64, false),
        Item::Progress => push_percent(out, percentage(v.finished, v.total)),
        Item::Rate => push_text(out, v.rate.as_str()),
        Item::CurrentRate => push_text(out, v.current_rate.as_str()),
        Item::ElapsedSeconds => push_text(out, v.elapsed_seconds.as_str()),
        Item::EtaSeconds => push_text(out, v.eta_seconds.as_str()),
        Item::Elapsed => push_text(out, v.elapsed.as_str()),
        Item::Eta => push_text(out, v.eta.as_str()),
        Item::PredictedProgress => push_percent(out, v.predicted_progress),
        Item::Description => push_text(out, v.description.as_str()),
    }
}

fn find_placeholder(c: char) -> (r: Option<Item>)
    ensures
        r == placeholder(c),
{
    match c {
        's' => Some(Item::Started),
        'f' => Some(Item::Finished),
        'r' => Some(Item::Running),
        'u' => Some(Item::Remaining),
        't' => Some(Item::Total),
        'p' => Some(Item::Progress),
        'o' => Some(Item::Rate),
        'c' => Some(Item::CurrentRate),
        'e' => Some(Item::ElapsedSeconds),
        'E' => Some(Item::EtaSeconds),
        'w' => Some(Item::Elapsed),
        'W' => Some(Item::Eta),
        'P' => Some(Item::PredictedProgress),
        _ => None,
    }
}

fn find_variable(name: &[char]) -> (r: Option<Item>)
    ensures
        r == variable(name@),
{
    if is_text(name, "started") {
        Some(Item::Started)
    } else if is_text(name, "finished") {
        Some(Item::Finished)
    } else if is_text(name, "running") {
        Some(Item::Running)
    } else if is_text(name, "remaining") {
        Some(Item::Remaining)
    } else if is_text(name, "total") {
        Some(Item::Total)
    } else if is_text(name, "progress") {
        Some(Item::Progress)
    } else if is_text(name, "rate") {
        Some(Item::Rate)
    } else if is_text(name, "current_rate") {
        Some(Item::CurrentRate)
    } else if is_text(name, "elapsed_seconds") {
        Some(Item::ElapsedSeconds)
    } else if is_text(name, "eta_seconds") {
        Some(Item::EtaSeconds)
    } else if is_text(name, "elapsed") {
        Some(Item::Elapsed)
    } else if is_text(name, "eta") {
        Some(Item::Eta)
    } else if is_text(name, "predicted_progress") {
        Some(Item::PredictedProgress)
    } else if is_text(name, "description") {
        Some(Item::Description)
    } else {
        None
    }
}

/// What a format says in which placeholders stand behind percent signs.
pub fn expand_status_placeholders(format: &str, v: &Snapshot) -> (r: Result<String, String>)
    ensures
        match placed(format@, 0, v@, seq![]) {
            Ok(line) => r matches Ok(text) && text@ == line,
            Err(expected) => r matches Err(message) && message@ == expected,
        },
{
    let chars: Vec<char> = chars_of(format);
    let s: &[char] = chars.as_slice();
    let ghost goal = placed(s@, 0, v@, seq![]);
    let mut out: Vec<char> = Vec::new();
    let mut i: usize = 0;
    proof {
        assert(out@ =~= seq![]);
    }
    while i < s.len()
        invariant
            i <= s@.len(),
            goal == placed(format@, 0, v@, seq![]),
            placed(s@, i as int, v@, out@) == goal,
        decreases s@.len() - i,
    {
        let c: char = s[i];
        if c != '%' {
            out.push(c);
            i += 1;
        } else if s.len() - i <= 1 {
            return Err("unknown placeholder '%' in NINJA_STATUS".to_owned());
        } else if s[i + 1] == '%' {
            out.push('%');
            i += 2;
        } else {
            match find_placeholder(s[i + 1]) {
                Some(item) => {
                    push_item(&mut out, v, item);
                    i += 2;
                },
                None => {
                    let mut message: String = "unknown placeholder '%".to_owned();
                    proof {
                        assert(s@.subrange(i + 1, i + 2) =~= seq![s@[i + 1]]);
                    }
                    message.append(string_of(slice_subrange(s, i + 1, i + 2)).as_str());
                    message.append("' in NINJA_STATUS");
                    return Err(message);
                },
            }
        }
    }
    Ok(string_of(out.as_slice()))
}

fn read_reference(s: &[char], i: usize) -> (r: Result<(usize, usize, usize), String>)
    requires
        i < s@.len(),
    ensures
        match reference(s@, i as int) {
            Ok((name, next)) => r matches Ok((start, end, after)) && i < start <= end <= s@.len()
                && s@.subrange(start as int, end as int) == name && after == next && i < after
                <= s@.len(),
            Err(expected) => r matches Err(message) && message@ == expected,
        },
{
    if s.len() - i <= 1 {
        return Err("bad $-escape (literal $ must be written as $$)".to_owned());
    }
    if s[i + 1] == '{' {
        let end: usize = find_in(s, i + 2, Class::Is('}'));
        if end == s.len() {
            return Err("bad $-escape (missing '}')".to_owned());
        }
        return Ok((i + 2, end, end + 1));
    }
    let end: usize = find_not_in(s, i + 1, Class::Word);
    if end == i + 1 {
        return Err("bad $-escape (literal $ must be written as $$)".to_owned());
    }
    Ok((i + 1, end, end))
}

/// What a format says in which variables stand behind dollar signs.
pub fn expand_status_variables(format: &str, v: &Snapshot) -> (r: Result<String, String>)
    ensures
        match filled(format@, 0, v@, seq![]) {
            Ok(line) => r matches Ok(text) && text@ == line,
            Err(expected) => r matches Err(message) && message@ == expected,
        },
{
    let chars: Vec<char> = chars_of(format);
    let s: &[char] = chars.as_slice();
    let ghost goal = filled(s@, 0, v@, seq![]);
    let mut out: Vec<char> = Vec::new();
    let mut i: usize = 0;
    proof {
        assert(out@ =~= seq![]);
    }
    while i < s.len()
        invariant
            i <= s@.len(),
            goal == filled(format@, 0, v@, seq![]),
            filled(s@, i as int, v@, out@) == goal,
        decreases s@.len() - i,
    {
        let c: char = s[i];
        if c != '$' {
            out.push(c);
            i += 1;
            continue;
        }
        if s.len() - i > 1 {
            let escaped: char = s[i + 1];
            if escaped == '$' || escaped == ' ' || escaped == ':' {
                out.push(escaped);
                i += 2;
                continue;
            }
        }
        match read_reference(s, i) {
            Ok((start, end, after)) => {
                let name: &[char] = slice_subrange(s, start, end);
                match find_variable(name) {
                    Some(item) => {
                        push_item(&mut out, v, item);
                        i = after;
                    },
                    None => {
                        let mut message: String = "unknown variable '".to_owned();
                        message.append(string_of(name).as_str());
                        message.append("' in --status format");
                        return Err(message);
                    },
                }
            },
            Err(message) => {
                return Err(message);
            },
        }
    }
    Ok(string_of(out.as_slice()))
}

/// A status line.
pub fn format_status(format: &str, explicit: bool, v: &Snapshot) -> (r: Result<String, String>)
    ensures
        match status_line(format@, explicit, v@) {
            Ok(line) => r matches Ok(text) && text@ == line,
            Err(expected) => r matches Err(message) && message@ == expected,
        },
{
    if explicit {
        return expand_status_variables(format, v);
    }
    match expand_status_placeholders(format, v) {
        Ok(line) => {
            let mut line: String = line;
            line.append(v.description.as_str());
            Ok(line)
        },
        Err(message) => Err(message),
    }
}

/// A number with a zero before it where it has one digit.
pub open spec fn two_digits(n: nat) -> Seq<char> {
    if n < 10 {
        seq!['0'] + numbers::numeral(n, false)
    } else {
        numbers::numeral(n, false)
    }
}

/// Seconds as minutes and seconds, or as hours, minutes and seconds.
pub open spec fn clock(seconds: nat, hours: bool) -> Seq<char> {
    if hours {
        numbers::numeral(seconds / 3600, false) + seq![':'] + two_digits(seconds % 3600 / 60)
            + seq![':'] + two_digits(seconds % 60)
    } else {
        two_digits(seconds / 60) + seq![':'] + two_digits(seconds % 60)
    }
}

fn push_two_digits(out: &mut Vec<char>, n: u64)
    ensures
        final(out)@ == old(out)@ + two_digits(n as nat),
{
    let ghost before = out@;
    if n < 10 {
        out.push('0');
    }
    push_number(out, n, false);
    proof {
        assert(out@ =~= before + two_digits(n as nat));
    }
}

/// Seconds as minutes and seconds, or as hours, minutes and seconds.
pub fn format_clock(seconds: u64, print_hours: bool) -> (r: String)
    ensures
        r@ == clock(seconds as nat, print_hours),
{
    let mut out: Vec<char> = Vec::new();
    if print_hours {
        push_number(&mut out, seconds / 3600, false);
        out.push(':');
        push_two_digits(&mut out, seconds % 3600 / 60);
    } else {
        push_two_digits(&mut out, seconds / 60);
    }
    out.push(':');
    push_two_digits(&mut out, seconds % 60);
    proof {
        assert(out@ =~= clock(seconds as nat, print_hours));
    }
    string_of(out.as_slice())
}

} // verus!
