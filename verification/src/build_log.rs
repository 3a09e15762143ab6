//! The build log: which command last made an output, when, and how long it ran.
//! A line of the log holds the times at which the command began and ended, the
//! time that the output is recorded with, the output, and the hash of the
//! command.
use crate::collections::map_get;
use crate::collections::map_insert;
use crate::collections::map_len;
use crate::collections::map_new;
use crate::manifest;
use crate::manifest::Edge;
use crate::numbers;
use crate::numbers::parse_number;
use crate::numbers::push_number;
use crate::numbers::value_up_to;
use crate::spell;
use crate::text;
use crate::text::chars_of;
use crate::text::find_in;
use crate::text::find_not_in;
use crate::text::push_all;
use crate::text::split_lines;
use crate::text::string_of;
use crate::text::strip_prefix;
use crate::text::width;
use crate::text::Class;
use rapidhash::RapidHashMap;
use vstd::prelude::*;
use vstd::slice::slice_subrange;
use vstd::slice::slice_to_vec;
use vstd::string::*;
use vstd::utf8::*;

verus! {

/// The hash of a command, given its bytes.
pub uninterp spec fn rapid_hash(bytes: Seq<u8>) -> u64;

/// `rapidhash::v1::rapidhash_v1`: the hash is a function of the bytes alone, the
/// same in every process and on every machine. Nothing else is said of it.
#[verifier::external_body]
fn hash(bytes: &[u8]) -> (r: u64)
    ensures
        r == rapid_hash(bytes@),
{
    rapidhash::v1::rapidhash_v1(bytes)
}

/// The hash of a command.
pub open spec fn command_hash(command: Seq<char>) -> u64 {
    rapid_hash(encode_utf8(command))
}

/// The hash of a command.
pub fn hash_command(command: &str) -> (r: u64)
    ensures
        r == command_hash(command@),
{
    hash(command.as_bytes())
}

/// What the log holds of an output.
#[derive(Clone, Copy, Debug, PartialEq, Eq, Structural)]
pub struct BuildLogEntry {
    pub command_hash: u64,
    pub mtime: u64,
    pub elapsed_ms: u32,
}

impl DeepView for BuildLogEntry {
    type V = BuildLogEntry;

    open spec fn deep_view(&self) -> BuildLogEntry {
        *self
    }
}

/// The version of a log file, as its first line gives it: zero where it gives
/// none. A version that fits no `i32` is the least or the greatest.
pub open spec fn version_of(contents: Seq<char>) -> int {
    let prefix = "# ninja log v"@;
    let rest = contents.skip(prefix.len() as int);
    let start = rest.skip(text::first_not_in(rest, 0, Class::AsciiSpace));
    let signed = start.len() > 0 && (start[0] == '-' || start[0] == '+');
    let number = if signed {
        start.skip(1)
    } else {
        start
    };
    let digits = number.take(text::first_not_in(number, 0, Class::Digit));
    let magnitude = numbers::digits_value(digits, false);
    if !prefix.is_prefix_of(contents) || digits.len() == 0 {
        0
    } else if start[0] == '-' {
        if magnitude > 0x8000_0000 {
            -0x8000_0000
        } else {
            -magnitude
        }
    } else if magnitude > 0x7fff_ffff {
        0x7fff_ffff
    } else {
        magnitude as int
    }
}

/// The version of a log file.
pub fn build_log_version(contents: &str) -> (r: i32)
    ensures
        r == version_of(contents@),
{
    let s: Vec<char> = chars_of(contents);
    let rest: &[char] = match strip_prefix(s.as_slice(), "# ninja log v") {
        Some(rest) => rest,
        None => {
            return 0;
        },
    };
    let space: usize = find_not_in(rest, 0, Class::AsciiSpace);
    let start: &[char] = slice_subrange(rest, space, rest.len());
    let signed: bool = start.len() > 0 && (start[0] == '-' || start[0] == '+');
    let number: &[char] = if signed {
        slice_subrange(start, 1, start.len())
    } else {
        start
    };
    let end: usize = find_not_in(number, 0, Class::Digit);
    if end == 0 {
        proof {
            assert(number@.take(0).len() == 0);
        }
        return 0;
    }
    let digits: &[char] = slice_subrange(number, 0, end);
    proof {
        text::lemma_first_not_in(number@, 0, Class::Digit);
        assert(start@ =~= rest@.skip(space as int));
        assert(digits@ =~= number@.take(end as int));
        assert forall|i: int| 0 <= i < digits@.len() implies numbers::digit_value(
            #[trigger] digits@[i],
            false,
        ) is Some by {
            assert(text::belongs(number@[i], Class::Digit));
        }
    }
    let magnitude: u64 = match value_up_to(digits, 0x8000_0000) {
        Some(magnitude) => magnitude,
        None => 0x8000_0000,
    };
    if start[0] == '-' {
        (0 - magnitude as i64) as i32
    } else if magnitude > 0x7fff_ffff {
        0x7fff_ffff
    } else {
        magnitude as i32
    }
}

/// The fields of a line, which tabs separate.
pub open spec fn fields(line: Seq<char>) -> Seq<Seq<char>>
    decreases line.len(),
{
    let end = text::first_in(line, 0, Class::Is('\t'));
    if end < 0 || end >= line.len() {
        seq![line]
    } else {
        seq![line.take(end)] + fields(line.skip(end + 1))
    }
}

/// The fields of a line.
pub fn split_fields(line: &[char]) -> (r: Vec<Vec<char>>)
    ensures
        text::texts(r@) == fields(line@),
{
    let mut r: Vec<Vec<char>> = Vec::new();
    let mut i: usize = 0;
    proof {
        assert(line@.skip(0) =~= line@);
        assert(text::texts(r@) + fields(line@) =~= fields(line@));
    }
    loop
        invariant_except_break
            i <= line@.len(),
            text::texts(r@) + fields(line@.skip(i as int)) == fields(line@),
        ensures
            text::texts(r@) == fields(line@),
        decreases line@.len() - i,
    {
        let rest: &[char] = slice_subrange(line, i, line.len());
        let end: usize = find_in(rest, 0, Class::Is('\t'));
        let ghost before = text::texts(r@);
        proof {
            assert(rest@ =~= line@.skip(i as int));
        }
        if end >= rest.len() {
            r.push(slice_to_vec(rest));
            proof {
                assert(text::texts(r@) =~= before + seq![rest@]);
            }
            break;
        }
        let field: &[char] = slice_subrange(rest, 0, end);
        r.push(slice_to_vec(field));
        proof {
            assert(field@ =~= rest@.take(end as int));
            assert(text::texts(r@) =~= before.push(field@));
            assert(rest@.skip(end + 1) =~= line@.skip(i + end + 1));
            assert(before + (seq![field@] + fields(rest@.skip(end + 1))) =~= before.push(field@)
                + fields(rest@.skip(end + 1)));
        }
        i = i + end + 1;
    }
    r
}

pub open spec fn difference(end: nat, start: nat) -> u32 {
    if end < start {
        0
    } else {
        (end - start) as u32
    }
}

/// The numbers of a record: when the command began and ended, the time of the
/// output, and the hash.
pub open spec fn numbers_of(f: Seq<Seq<char>>) -> Option<(nat, nat, nat, nat)> {
    let start = numbers::number(f[0], false, u32::MAX as nat);
    let end = numbers::number(f[1], false, u32::MAX as nat);
    let mtime = numbers::number(f[2], false, u64::MAX as nat);
    let hash = numbers::number(f[4], true, u64::MAX as nat);
    if f.len() >= 5 && start is Some && end is Some && mtime is Some && hash is Some {
        Some((start->Some_0, end->Some_0, mtime->Some_0, hash->Some_0))
    } else {
        None
    }
}

/// What a line records: an output and what is known of it. Fields behind the
/// fifth mean nothing.
pub open spec fn record_of(line: Seq<char>) -> Option<(Seq<char>, BuildLogEntry)> {
    match numbers_of(fields(line)) {
        None => None,
        Some((start, end, mtime, hash)) => Some(
            (
                fields(line)[3],
                BuildLogEntry {
                    command_hash: hash as u64,
                    mtime: mtime as u64,
                    elapsed_ms: difference(end, start),
                },
            ),
        ),
    }
}

pub fn read_numbers(f: &Vec<Vec<char>>) -> (r: Option<(u64, u64, u64, u64)>)
    ensures
        match r {
            Some((start, end, mtime, hash)) => numbers_of(text::texts(f@)) == Some(
                (start as nat, end as nat, mtime as nat, hash as nat),
            ),
            None => numbers_of(text::texts(f@)) is None,
        },
{
    if f.len() < 5 {
        return None;
    }
    proof {
        assert forall|i: int| 0 <= i < f@.len() implies #[trigger] text::texts(f@)[i]
            == f@[i]@ by {}
        assert(text::texts(f@)[0] == f@[0]@);
        assert(text::texts(f@)[1] == f@[1]@);
        assert(text::texts(f@)[2] == f@[2]@);
        assert(text::texts(f@)[4] == f@[4]@);
    }
    let start: u64 = match parse_number(f[0].as_slice(), false, 0xffff_ffff) {
        Some(n) => n,
        None => {
            return None;
        },
    };
    let end: u64 = match parse_number(f[1].as_slice(), false, 0xffff_ffff) {
        Some(n) => n,
        None => {
            return None;
        },
    };
    let mtime: u64 = match parse_number(f[2].as_slice(), false, u64::MAX) {
        Some(n) => n,
        None => {
            return None;
        },
    };
    match parse_number(f[4].as_slice(), true, u64::MAX) {
        Some(hash) => Some((start, end, mtime, hash)),
        None => None,
    }
}

fn read_record(line: &[char]) -> (r: Option<(String, BuildLogEntry)>)
    ensures
        match r {
            Some((output, entry)) => record_of(line@) == Some((output@, entry)),
            None => record_of(line@) is None,
        },
{
    let f: Vec<Vec<char>> = split_fields(line);
    match read_numbers(&f) {
        Some((start, end, mtime, hash)) => {
            let elapsed_ms: u32 = if end < start {
                0
            } else {
                (end - start) as u32
            };
            proof {
                assert(text::texts(f@)[3] == f@[3]@);
            }
            Some(
                (
                    string_of(f[3].as_slice()),
                    BuildLogEntry { command_hash: hash, mtime, elapsed_ms },
                ),
            )
        },
        None => None,
    }
}

/// What the lines of a log file hold: the entries of outputs that are known, the
/// other outputs, and how many records there are.
#[verifier::ext_equal]
pub struct Records {
    pub entries: Map<Seq<char>, BuildLogEntry>,
    pub dead: Map<Seq<char>, bool>,
    pub total: nat,
}

/// What the first `n` lines hold. The first line is the header; a line that is no
/// record holds nothing.
pub open spec fn collected(
    lines: Seq<Seq<char>>,
    n: int,
    outputs: Map<Seq<char>, usize>,
) -> Records
    decreases n,
{
    if n <= 1 {
        Records { entries: Map::empty(), dead: Map::empty(), total: 0 }
    } else {
        let before = collected(lines, n - 1, outputs);
        match record_of(lines[n - 1]) {
            None => before,
            Some((output, entry)) => if outputs.contains_key(output) {
                Records {
                    entries: before.entries.insert(output, entry),
                    total: before.total + 1,
                    ..before
                }
            } else {
                Records {
                    dead: before.dead.insert(output, true),
                    total: before.total + 1,
                    ..before
                }
            },
        }
    }
}

/// The last line feed of `s` before `n`, and minus one where there is none.
pub open spec fn last_line_feed(s: Seq<char>, n: int) -> int
    decreases n,
{
    if n <= 0 {
        -1
    } else if s[n - 1] == '\n' {
        n - 1
    } else {
        last_line_feed(s, n - 1)
    }
}

/// A log file without a line at its end that was not written whole.
pub open spec fn whole_lines(contents: Seq<char>) -> Seq<char> {
    let end = last_line_feed(contents, contents.len() as int);
    if end < 0 {
        contents
    } else {
        contents.take(end + 1)
    }
}

/// Whether a log file has a version that cannot be read.
pub open spec fn is_foreign(contents: Seq<char>) -> bool {
    contents.len() > 0 && version_of(contents) != 7
}

/// What a log file holds of outputs that are known.
pub open spec fn held(contents: Seq<char>, outputs: Map<Seq<char>, usize>) -> Records {
    let lines = text::text_lines(whole_lines(contents), 0);
    if is_foreign(contents) {
        collected(lines, 0, outputs)
    } else {
        collected(lines, lines.len() as int, outputs)
    }
}

/// What is to be done with a log file once it has been read.
#[derive(Clone, Copy, Debug, PartialEq, Eq, Structural)]
pub enum LogRepair {
    /// Remove it: its version cannot be read, being too new or too old.
    Discard { too_new: bool },
    /// Keep its first bytes, up to a length where the rest is no whole line, and
    /// write it anew where most of its records are out of date.
    Keep { length: Option<usize>, compact: bool },
}

/// What is to be done with a log file once it has been read.
pub open spec fn repair_of(contents: Seq<char>, outputs: Map<Seq<char>, usize>) -> LogRepair {
    let r = held(contents, outputs);
    let kept = whole_lines(contents);
    if is_foreign(contents) {
        LogRepair::Discard { too_new: version_of(contents) > 7 }
    } else {
        LogRepair::Keep {
            length: if kept.len() < contents.len() {
                Some(text::sat(text::byte_len(kept)))
            } else {
                None
            },
            compact: r.total > 100 && r.total > 3 * (r.entries.dom().len() + r.dead.dom().len()),
        }
    }
}

/// What a build log holds.
#[derive(Debug)]
pub struct BuildLog {
    entries: RapidHashMap<String, BuildLogEntry>,
}

impl BuildLog {
    pub closed spec fn view(&self) -> Map<Seq<char>, BuildLogEntry> {
        self.entries.deep_view()
    }

    /// A log that holds nothing.
    pub fn new() -> (r: BuildLog)
        ensures
            r@ == Map::<Seq<char>, BuildLogEntry>::empty(),
    {
        BuildLog { entries: map_new() }
    }

    /// Reads the contents of a log file, as far as they are about known outputs,
    /// and tells what is to be done with the file.
    pub fn load(contents: &str, outputs: &RapidHashMap<String, usize>) -> (r: (
        BuildLog,
        LogRepair,
    ))
        ensures
            r.0@ == held(contents@, outputs.deep_view()).entries,
            r.1 == repair_of(contents@, outputs.deep_view()),
    {
        let s: Vec<char> = chars_of(contents);
        let version: i32 = build_log_version(contents);
        if s.len() > 0 && version != 7 {
            return (BuildLog::new(), LogRepair::Discard { too_new: version > 7 });
        }
        let mut n: usize = s.len();
        while n > 0 && s[n - 1] != '\n'
            invariant
                n <= s@.len(),
                s@ == contents@,
                last_line_feed(s@, s@.len() as int) == last_line_feed(s@, n as int),
            decreases n,
        {
            n -= 1;
        }
        let cut: bool = n > 0 && n < s.len();
        if n == 0 {
            n = s.len();
        }
        let kept: &[char] = slice_subrange(s.as_slice(), 0, n);
        proof {
            assert(kept@ =~= whole_lines(s@));
        }
        let length: Option<usize> = if cut {
            Some(width(kept))
        } else {
            None
        };
        let lines: Vec<Vec<char>> = split_lines(kept);
        let ghost all = text::text_lines(kept@, 0);
        let mut entries: RapidHashMap<String, BuildLogEntry> = map_new();
        let mut dead: RapidHashMap<String, bool> = map_new();
        let mut total: usize = 0;
        let mut i: usize = 1;
        while i < lines.len()
            invariant
                1 <= i,
                i <= lines@.len() || i == 1,
                text::texts(lines@) == all,
                total < i,
                (Records {
                    entries: entries.deep_view(),
                    dead: dead.deep_view(),
                    total: total as nat,
                }) == collected(all, i as int, outputs.deep_view()),
            decreases lines@.len() - i,
        {
            proof {
                assert(all[i as int] == lines@[i as int]@);
            }
            if let Some((output, entry)) = read_record(lines[i].as_slice()) {
                total += 1;
                if map_get(outputs, output.as_str()).is_some() {
                    map_insert(&mut entries, output, entry);
                } else {
                    map_insert(&mut dead, output, true);
                }
            }
            i += 1;
        }
        proof {
            assert(collected(all, i as int, outputs.deep_view()) == collected(
                all,
                all.len() as int,
                outputs.deep_view(),
            ));
        }
        let known: u128 = map_len(&entries) as u128;
        let unknown: u128 = map_len(&dead) as u128;
        let compact: bool = total > 100 && total as u128 > 3 * (known + unknown);
        (BuildLog { entries }, LogRepair::Keep { length, compact })
    }

    /// Whether the log holds anything of an output.
    pub fn has_entry(&self, output: &str) -> (r: bool)
        ensures
            r == self@.contains_key(output@),
    {
        map_get(&self.entries, output).is_some()
    }

    /// What the log holds of an output.
    pub fn entry(&self, output: &str) -> (r: Option<BuildLogEntry>)
        ensures
            match r {
                Some(entry) => self@.contains_key(output@) && self@[output@] == entry,
                None => !self@.contains_key(output@),
            },
    {
        match map_get(&self.entries, output) {
            Some(entry) => Some(*entry),
            None => None,
        }
    }

    /// The time that an output was recorded with.
    pub fn recorded_mtime(&self, output: &str) -> (r: Option<u64>)
        ensures
            match r {
                Some(mtime) => self@.contains_key(output@) && self@[output@].mtime == mtime,
                None => !self@.contains_key(output@),
            },
    {
        match map_get(&self.entries, output) {
            Some(entry) => Some(entry.mtime),
            None => None,
        }
    }

    /// Whether a command with the hash `command_hash` differs from the one that
    /// last made one of the outputs of an edge. One that makes generators never
    /// does.
    pub fn hash_changed(&self, edge: &Edge, command_hash: u64, generator: bool) -> (r: bool)
        ensures
            r == is_changed(
                self@,
                manifest::outputs_of(edge.deep_view()),
                command_hash,
                generator,
            ),
    {
        if generator {
            return false;
        }
        let outputs: Vec<&str> = edge.outputs();
        let ghost list = manifest::outputs_of(edge.deep_view());
        let mut i: usize = 0;
        while i < outputs.len()
            invariant
                i <= outputs@.len(),
                list == manifest::outputs_of(edge.deep_view()),
                spell::views(outputs@) == list,
                !generator,
                forall|k: int|
                    0 <= k < i ==> self@.contains_key(#[trigger] list[k])
                        && self@[list[k]].command_hash == command_hash,
            decreases outputs@.len() - i,
        {
            proof {
                assert(spell::views(outputs@)[i as int] == outputs@[i as int]@);
            }
            let same: bool = match map_get(&self.entries, outputs[i]) {
                Some(entry) => entry.command_hash == command_hash,
                None => false,
            };
            if !same {
                return true;
            }
            i += 1;
        }
        false
    }

    /// Whether a command differs from the one that last made one of the outputs
    /// of an edge.
    pub fn command_changed(&self, edge: &Edge, command: &str, generator: bool) -> (r: bool)
        ensures
            r == is_changed(
                self@,
                manifest::outputs_of(edge.deep_view()),
                command_hash(command@),
                generator,
            ),
    {
        self.hash_changed(edge, hash_command(command), generator)
    }

    /// The first output of an edge that was recorded with a time before
    /// `newest_input`.
    pub fn recorded_mtime_dirty(&self, edge: &Edge, newest_input: u128) -> (r: Option<String>)
        ensures
            match r {
                Some(output) => first_older(
                    self@,
                    manifest::outputs_of(edge.deep_view()),
                    newest_input as nat,
                    0,
                ) == Some(output@),
                None => first_older(
                    self@,
                    manifest::outputs_of(edge.deep_view()),
                    newest_input as nat,
                    0,
                ) is None,
            },
    {
        let outputs: Vec<&str> = edge.outputs();
        let ghost list = manifest::outputs_of(edge.deep_view());
        let mut i: usize = 0;
        while i < outputs.len()
            invariant
                i <= outputs@.len(),
                list == manifest::outputs_of(edge.deep_view()),
                spell::views(outputs@) == list,
                first_older(self@, list, newest_input as nat, 0) == first_older(
                    self@,
                    list,
                    newest_input as nat,
                    i as int,
                ),
            decreases outputs@.len() - i,
        {
            proof {
                assert(spell::views(outputs@)[i as int] == outputs@[i as int]@);
            }
            if let Some(entry) = map_get(&self.entries, outputs[i]) {
                if (entry.mtime as u128) < newest_input {
                    return Some(outputs[i].to_owned());
                }
            }
            i += 1;
        }
        None
    }

    /// How long the command of an edge last ran.
    pub fn previous_elapsed(&self, edge: &Edge) -> (r: Option<u32>)
        ensures
            r == first_elapsed(self@, manifest::outputs_of(edge.deep_view()), 0),
    {
        let outputs: Vec<&str> = edge.outputs();
        let ghost list = manifest::outputs_of(edge.deep_view());
        let mut i: usize = 0;
        while i < outputs.len()
            invariant
                i <= outputs@.len(),
                list == manifest::outputs_of(edge.deep_view()),
                spell::views(outputs@) == list,
                first_elapsed(self@, list, 0) == first_elapsed(self@, list, i as int),
            decreases outputs@.len() - i,
        {
            proof {
                assert(spell::views(outputs@)[i as int] == outputs@[i as int]@);
            }
            if let Some(entry) = map_get(&self.entries, outputs[i]) {
                return Some(entry.elapsed_ms);
            }
            i += 1;
        }
        None
    }
}

/// Whether one of `outputs` has no entry or one with another hash.
pub open spec fn is_changed(
    entries: Map<Seq<char>, BuildLogEntry>,
    outputs: Seq<Seq<char>>,
    hash: u64,
    generator: bool,
) -> bool {
    !generator && exists|i: int|
        0 <= i < outputs.len() && !(entries.contains_key(#[trigger] outputs[i])
            && entries[outputs[i]].command_hash == hash)
}

/// The first of `outputs`, from `i` on, with an entry of a time before `newest`.
pub open spec fn first_older(
    entries: Map<Seq<char>, BuildLogEntry>,
    outputs: Seq<Seq<char>>,
    newest: nat,
    i: int,
) -> Option<Seq<char>>
    decreases outputs.len() - i,
{
    if i < 0 || i >= outputs.len() {
        None
    } else if entries.contains_key(outputs[i]) && entries[outputs[i]].mtime < newest {
        Some(outputs[i])
    } else {
        first_older(entries, outputs, newest, i + 1)
    }
}

/// How long the command of the first of `outputs`, from `i` on, that has an entry
/// ran.
pub open spec fn first_elapsed(
    entries: Map<Seq<char>, BuildLogEntry>,
    outputs: Seq<Seq<char>>,
    i: int,
) -> Option<u32>
    decreases outputs.len() - i,
{
    if i < 0 || i >= outputs.len() {
        None
    } else if entries.contains_key(outputs[i]) {
        Some(entries[outputs[i]].elapsed_ms)
    } else {
        first_elapsed(entries, outputs, i + 1)
    }
}

/// The line that records an output.
pub open spec fn line_of(
    start_ms: u32,
    end_ms: u32,
    mtime: u64,
    output: Seq<char>,
    hash: u64,
) -> Seq<char> {
    numbers::numeral(start_ms as nat, false) + seq!['\t'] + (numbers::numeral(
        end_ms as nat,
        false,
    ) + seq!['\t'] + (numbers::numeral(mtime as nat, false) + seq!['\t'] + (output + seq!['\t']
        + numbers::numeral(hash as nat, true))))
}

/// The lines that record the first `n` of `outputs`.
pub open spec fn lines_of(
    start_ms: u32,
    end_ms: u32,
    mtime: u64,
    outputs: Seq<Seq<char>>,
    hash: u64,
    n: int,
) -> Seq<char>
    decreases n,
{
    if n <= 0 {
        seq![]
    } else {
        lines_of(start_ms, end_ms, mtime, outputs, hash, n - 1) + line_of(
            start_ms,
            end_ms,
            mtime,
            outputs[n - 1],
            hash,
        ).push('\n')
    }
}

/// The entries with `entry` for the first `n` of `outputs`.
pub open spec fn with_entries(
    entries: Map<Seq<char>, BuildLogEntry>,
    outputs: Seq<Seq<char>>,
    entry: BuildLogEntry,
    n: int,
) -> Map<Seq<char>, BuildLogEntry>
    decreases n,
{
    if n <= 0 {
        entries
    } else {
        with_entries(entries, outputs, entry, n - 1).insert(outputs[n - 1], entry)
    }
}

/// A time as the log holds it.
pub open spec fn log_time(mtime: u128) -> u64 {
    if mtime > u64::MAX {
        u64::MAX
    } else {
        mtime as u64
    }
}

fn push_line(
    out: &mut Vec<char>,
    start_ms: u32,
    end_ms: u32,
    mtime: u64,
    output: &str,
    hash: u64,
)
    ensures
        final(out)@ == old(out)@ + line_of(start_ms, end_ms, mtime, output@, hash).push('\n'),
{
    let ghost before = out@;
    push_number(out, start_ms as u64, false);
    out.push('\t');
    push_number(out, end_ms as u64, false);
    out.push('\t');
    push_number(out, mtime, false);
    out.push('\t');
    push_all(out, chars_of(output).as_slice());
    out.push('\t');
    push_number(out, hash, true);
    out.push('\n');
    proof {
        assert(out@ =~= before + line_of(start_ms, end_ms, mtime, output@, hash).push('\n'));
    }
}

impl BuildLog {
    /// Records that a command made the outputs of an edge, and appends the lines
    /// that the file gets to `out`.
    pub fn record(
        &mut self,
        edge: &Edge,
        command: &str,
        start_ms: u32,
        end_ms: u32,
        record_mtime: u128,
        out: &mut Vec<char>,
    )
        ensures
            ({
                let outputs = manifest::outputs_of(edge.deep_view());
                let entry = BuildLogEntry {
                    command_hash: command_hash(command@),
                    mtime: log_time(record_mtime),
                    elapsed_ms: difference(end_ms as nat, start_ms as nat),
                };
                &&& final(self)@ == with_entries(
                    old(self)@,
                    outputs,
                    entry,
                    outputs.len() as int,
                )
                &&& final(out)@ == old(out)@ + lines_of(
                    start_ms,
                    end_ms,
                    entry.mtime,
                    outputs,
                    entry.command_hash,
                    outputs.len() as int,
                )
            }),
    {
        let hash: u64 = hash_command(command);
        self.record_hash(edge, hash, start_ms, end_ms, record_mtime, out);
    }

    /// As `record`, for a command with the hash `command_hash`.
    pub fn record_hash(
        &mut self,
        edge: &Edge,
        command_hash: u64,
        start_ms: u32,
        end_ms: u32,
        record_mtime: u128,
        out: &mut Vec<char>,
    )
        ensures
            ({
                let outputs = manifest::outputs_of(edge.deep_view());
                let entry = BuildLogEntry {
                    command_hash,
                    mtime: log_time(record_mtime),
                    elapsed_ms: difference(end_ms as nat, start_ms as nat),
                };
                &&& final(self)@ == with_entries(
                    old(self)@,
                    outputs,
                    entry,
                    outputs.len() as int,
                )
                &&& final(out)@ == old(out)@ + lines_of(
                    start_ms,
                    end_ms,
                    entry.mtime,
                    outputs,
                    command_hash,
                    outputs.len() as int,
                )
            }),
    {
        let mtime: u64 = if record_mtime > u64::MAX as u128 {
            u64::MAX
        } else {
            record_mtime as u64
        };
        let elapsed_ms: u32 = if end_ms < start_ms {
            0
        } else {
            end_ms - start_ms
        };
        let entry: BuildLogEntry = BuildLogEntry { command_hash, mtime, elapsed_ms };
        let outputs: Vec<&str> = edge.outputs();
        let ghost list = manifest::outputs_of(edge.deep_view());
        let ghost entries = self@;
        let ghost start = out@;
        let mut i: usize = 0;
        proof {
            assert(start + Seq::<char>::empty() =~= start);
        }
        while i < outputs.len()
            invariant
                i <= outputs@.len(),
                spell::views(outputs@) == list,
                entry.mtime == mtime,
                entry.command_hash == command_hash,
                self@ == with_entries(entries, list, entry, i as int),
                out@ == start + lines_of(start_ms, end_ms, mtime, list, command_hash, i as int),
            decreases outputs@.len() - i,
        {
            proof {
                assert(spell::views(outputs@)[i as int] == outputs@[i as int]@);
            }
            push_line(out, start_ms, end_ms, mtime, outputs[i], command_hash);
            map_insert(&mut self.entries, outputs[i].to_owned(), entry);
            i += 1;
            proof {
                assert(out@ =~= start + lines_of(
                    start_ms,
                    end_ms,
                    mtime,
                    list,
                    command_hash,
                    i as int,
                ));
            }
        }
    }
}

/// The first line of a log file.
pub fn log_header() -> (r: String)
    ensures
        r@ == "# ninja log v7\n"@,
{
    "# ninja log v7\n".to_owned()
}

proof fn lemma_first_tab(a: Seq<char>, b: Seq<char>, i: int)
    requires
        0 <= i <= a.len(),
        !a.contains('\t'),
    ensures
        text::first_in(a + seq!['\t'] + b, i, Class::Is('\t')) == a.len(),
    decreases a.len() - i,
{
    let s = a + seq!['\t'] + b;
    if i < a.len() {
        assert(s[i] == a[i]);
        assert(a.contains(a[i]));
        lemma_first_tab(a, b, i + 1);
    } else {
        assert(s[i] == '\t');
    }
}

proof fn lemma_first_field(a: Seq<char>, b: Seq<char>)
    requires
        !a.contains('\t'),
    ensures
        fields(a + seq!['\t'] + b) == seq![a] + fields(b),
{
    let s = a + seq!['\t'] + b;
    lemma_first_tab(a, b, 0);
    assert(s.take(a.len() as int) =~= a);
    assert(s.skip(a.len() as int + 1) =~= b);
}

proof fn lemma_last_field(a: Seq<char>)
    requires
        !a.contains('\t'),
    ensures
        fields(a) == seq![a],
{
    text::lemma_first_in(a, 0, Class::Is('\t'));
    let end = text::first_in(a, 0, Class::Is('\t'));
    if end < a.len() {
        assert(a[end] == '\t');
        assert(a.contains('\t'));
    }
}

proof fn lemma_numeral_has_no_tab(n: nat, hex: bool)
    ensures
        !numbers::numeral(n, hex).contains('\t'),
{
    let s = numbers::numeral(n, hex);
    numbers::law_numeral_denotes_its_number(n, hex);
    if s.contains('\t') {
        let k = choose|k: int| 0 <= k < s.len() && s[k] == '\t';
        assert(numbers::digit_value(s[k], hex) is Some);
    }
}

/// A line that records an output is read back as what it records, unless the
/// output holds a tab.
pub proof fn law_recorded_line_is_read_back(
    start_ms: u32,
    end_ms: u32,
    mtime: u64,
    output: Seq<char>,
    hash: u64,
)
    requires
        !output.contains('\t'),
    ensures
        record_of(line_of(start_ms, end_ms, mtime, output, hash)) == Some(
            (
                output,
                (BuildLogEntry {
                    command_hash: hash,
                    mtime,
                    elapsed_ms: difference(end_ms as nat, start_ms as nat),
                }),
            ),
        ),
{
    let a = numbers::numeral(start_ms as nat, false);
    let b = numbers::numeral(end_ms as nat, false);
    let c = numbers::numeral(mtime as nat, false);
    let d = numbers::numeral(hash as nat, true);
    lemma_numeral_has_no_tab(start_ms as nat, false);
    lemma_numeral_has_no_tab(end_ms as nat, false);
    lemma_numeral_has_no_tab(mtime as nat, false);
    lemma_numeral_has_no_tab(hash as nat, true);
    let fourth = output + seq!['\t'] + d;
    let third = c + seq!['\t'] + fourth;
    let second = b + seq!['\t'] + third;
    lemma_last_field(d);
    lemma_first_field(output, d);
    lemma_first_field(c, fourth);
    lemma_first_field(b, third);
    lemma_first_field(a, second);
    let f = fields(line_of(start_ms, end_ms, mtime, output, hash));
    assert(f =~= seq![a, b, c, output, d]);
    numbers::law_numeral_denotes_its_number(start_ms as nat, false);
    numbers::law_numeral_denotes_its_number(end_ms as nat, false);
    numbers::law_numeral_denotes_its_number(mtime as nat, false);
    numbers::law_numeral_denotes_its_number(hash as nat, true);
    assert(numbers::number(a, false, u32::MAX as nat) == Some(start_ms as nat));
    assert(numbers::number(b, false, u32::MAX as nat) == Some(end_ms as nat));
    assert(numbers::number(c, false, u64::MAX as nat) == Some(mtime as nat));
    assert(numbers::number(d, true, u64::MAX as nat) == Some(hash as nat));
}

/// Where a log holds what an edge was recorded with, the command of the edge has
/// not changed.
pub proof fn law_recorded_command_is_unchanged(
    entries: Map<Seq<char>, BuildLogEntry>,
    outputs: Seq<Seq<char>>,
    entry: BuildLogEntry,
    generator: bool,
)
    ensures
        !is_changed(
            with_entries(entries, outputs, entry, outputs.len() as int),
            outputs,
            entry.command_hash,
            generator,
        ),
{
    lemma_with_entries(entries, outputs, entry, outputs.len() as int);
}

pub proof fn lemma_with_entries(
    entries: Map<Seq<char>, BuildLogEntry>,
    outputs: Seq<Seq<char>>,
    entry: BuildLogEntry,
    n: int,
)
    requires
        0 <= n <= outputs.len(),
    ensures
        forall|i: int|
            0 <= i < n ==> with_entries(entries, outputs, entry, n).contains_key(
                #[trigger] outputs[i],
            ) && with_entries(entries, outputs, entry, n)[outputs[i]] == entry,
    decreases n,
{
    if n > 0 {
        lemma_with_entries(entries, outputs, entry, n - 1);
    }
}

} // verus!
