//! The dependency log: a file to which the dependencies of outputs are
//! appended as they become known. A path record gives a path the next number; a
//! dependency record gives the number of an output, the time of its last
//! change, and the numbers of its inputs.
use crate::asking;
use crate::asking::ask;
use crate::collections::map_entries;
use crate::collections::map_get;
use crate::collections::map_insert;
use crate::collections::map_len;
use crate::collections::map_new;
use crate::paths;
use crate::paths::join_file;
use crate::text;
use crate::text::copy_list;
use crate::text::holds;
use crate::text::same_str;
use rapidhash::RapidHashMap;
use vstd::bytes::*;
use vstd::prelude::*;
use vstd::slice::slice_subrange;
use vstd::string::*;
use vstd::utf8::*;

verus! {

/// The greatest length of the payload of a record.
pub const MAX_RECORD_SIZE: usize = 0x7ffff;

/// The dependencies of an output, found when it had last changed at `mtime`.
#[derive(Clone, Debug, PartialEq, Eq)]
pub struct DepsEntry {
    pub mtime: u64,
    pub inputs: Vec<String>,
}

/// What a `DepsEntry` holds.
#[verifier::ext_equal]
pub struct EntryView {
    pub mtime: u64,
    pub inputs: Seq<Seq<char>>,
}

impl DeepView for DepsEntry {
    type V = EntryView;

    open spec fn deep_view(&self) -> EntryView {
        EntryView { mtime: self.mtime, inputs: text::strings(self.inputs@) }
    }
}

/// What a log holds: the paths by their numbers, and the dependencies of outputs.
#[verifier::ext_equal]
pub struct LogView {
    pub nodes: Seq<Seq<char>>,
    pub entries: Map<Seq<char>, EntryView>,
}

pub open spec fn empty_log() -> LogView {
    LogView { nodes: seq![], entries: Map::empty() }
}

/// The first bytes of a log file.
pub open spec fn signature() -> Seq<u8> {
    encode_utf8("# ninjadeps\n"@)
}

/// The header of a log file: its signature and version four.
pub open spec fn header() -> Seq<u8> {
    signature() + spec_u32_to_le_bytes(4)
}

/// The number that the four bytes of `s` at `i` denote, the lowest byte first.
pub open spec fn word_at(s: Seq<u8>, i: int) -> u32 {
    spec_u32_from_le_bytes(s.subrange(i, i + 4))
}

/// The first record of `rest`: whether it is a dependency record, and its
/// payload. `None` is a record that is cut off or of a length that none has.
pub open spec fn first_record(rest: Seq<u8>) -> Option<(bool, Seq<u8>)> {
    let word = word_at(rest, 0);
    let deps = word >= 0x8000_0000u32;
    let size = if deps {
        word - 0x8000_0000u32
    } else {
        word as int
    };
    if rest.len() < 4 || size == 0 || size > MAX_RECORD_SIZE || 4 + size > rest.len() {
        None
    } else {
        Some((deps, rest.subrange(4, 4 + size)))
    }
}

/// `s` without up to `n` zero bytes at its end.
pub open spec fn without_padding(s: Seq<u8>, n: nat) -> Seq<u8>
    decreases n,
{
    if n > 0 && s.len() > 0 && s.last() == 0 {
        without_padding(s.drop_last(), (n - 1) as nat)
    } else {
        s
    }
}

/// The number of path `k` as a path record gives it: its complement is the
/// checksum of the record.
pub open spec fn checksum(k: nat) -> u32 {
    (u32::MAX - k as u32) as u32
}

/// The log after a path record: the next path gets the next number.
pub open spec fn with_path(log: LogView, payload: Seq<u8>) -> Option<LogView> {
    let n = payload.len() - 4;
    let path = without_padding(payload.take(n), 3);
    if payload.len() < 5 || word_at(payload, n) != checksum(log.nodes.len()) || path.len() == 0
        || !valid_utf8(path) || log.nodes.contains(decode_utf8(path)) {
        None
    } else {
        Some(LogView { nodes: log.nodes.push(decode_utf8(path)), ..log })
    }
}

/// The numbers that `payload` holds from byte `i` on.
pub open spec fn words_from(payload: Seq<u8>, i: int) -> Seq<u32>
    decreases payload.len() - i,
{
    if i < 0 || i + 4 > payload.len() {
        seq![]
    } else {
        seq![word_at(payload, i)] + words_from(payload, i + 4)
    }
}

/// A time from its lower and its upper half.
pub open spec fn time_of(low: u32, high: u32) -> u64 {
    (low + high * 0x1_0000_0000) as u64
}

/// Whether every number of `ids` is the number of a path.
pub open spec fn are_known(nodes: Seq<Seq<char>>, ids: Seq<u32>) -> bool {
    forall|i: int| 0 <= i < ids.len() ==> (#[trigger] ids[i]) < nodes.len()
}

pub open spec fn paths_of(nodes: Seq<Seq<char>>, ids: Seq<u32>) -> Seq<Seq<char>> {
    Seq::new(ids.len(), |i: int| nodes[ids[i] as int])
}

/// The log after a dependency record.
pub open spec fn with_deps(log: LogView, payload: Seq<u8>) -> Option<LogView> {
    let output = word_at(payload, 0);
    let ids = words_from(payload, 12);
    if payload.len() < 12 || payload.len() % 4 != 0 || output >= log.nodes.len() || !are_known(
        log.nodes,
        ids,
    ) {
        None
    } else {
        Some(
            LogView {
                entries: log.entries.insert(
                    log.nodes[output as int],
                    EntryView {
                        mtime: time_of(word_at(payload, 4), word_at(payload, 8)),
                        inputs: paths_of(log.nodes, ids),
                    },
                ),
                ..log
            },
        )
    }
}

/// The log after a record, unless the record is malformed.
pub open spec fn applied(log: LogView, deps: bool, payload: Seq<u8>) -> Option<LogView> {
    if deps {
        with_deps(log, payload)
    } else {
        with_path(log, payload)
    }
}

/// What comes of reading records: the log, how many bytes were read, how many
/// dependency records there were, and whether every byte was read.
#[verifier::ext_equal]
pub struct Replay {
    pub log: LogView,
    pub valid: nat,
    pub records: nat,
    pub clean: bool,
}

/// What comes of reading the records of `rest`, up to the first malformed one.
pub open spec fn replay(log: LogView, rest: Seq<u8>) -> Replay
    decreases rest.len(),
{
    if rest.len() == 0 {
        Replay { log, valid: 0, records: 0, clean: true }
    } else {
        match first_record(rest) {
            None => Replay { log, valid: 0, records: 0, clean: false },
            Some((deps, payload)) => match applied(log, deps, payload) {
                None => Replay { log, valid: 0, records: 0, clean: false },
                Some(next) => {
                    let r = replay(next, rest.skip(4 + payload.len() as int));
                    Replay {
                        log: r.log,
                        valid: 4 + payload.len() + r.valid,
                        records: r.records + if deps {
                            1nat
                        } else {
                            0nat
                        },
                        clean: r.clean,
                    }
                },
            },
        }
    }
}

/// Whether a file begins with the header of a log.
pub open spec fn has_header(data: Seq<u8>) -> bool {
    data.len() >= 16 && data.take(12) == signature() && word_at(data, 12) == 4
}

/// What is to be done with a log file once it has been read.
#[derive(Clone, Copy, Debug, PartialEq, Eq, Structural)]
pub enum Repair {
    /// Nothing.
    Keep,
    /// Write it anew: most of its records are out of date.
    Compact,
    /// Cut it off at a length: what follows is malformed.
    Truncate(usize),
    /// Remove it: it is no log.
    Remove,
}

/// What a log file holds, as far as it can be read.
pub open spec fn loaded(data: Seq<u8>) -> LogView {
    if has_header(data) {
        replay(empty_log(), data.skip(16)).log
    } else {
        empty_log()
    }
}

/// What is to be done with a log file once it has been read.
pub open spec fn repair(data: Seq<u8>) -> Repair {
    let r = replay(empty_log(), data.skip(16));
    if !has_header(data) {
        Repair::Remove
    } else if !r.clean {
        Repair::Truncate((16 + r.valid) as usize)
    } else if r.records > 1000 && r.records > 3 * r.log.entries.dom().len() {
        Repair::Compact
    } else {
        Repair::Keep
    }
}

/// The number of zero bytes behind a path of `n` bytes in its record.
pub open spec fn padding(n: int) -> int {
    (4 - n % 4) % 4
}

pub open spec fn zeros(n: int) -> Seq<u8> {
    Seq::new(n as nat, |i: int| 0u8)
}

/// Whether there is a record for a path: a path is not empty, and not too long.
pub open spec fn is_encodable(path: Seq<char>) -> bool {
    let n = encode_utf8(path).len() as int;
    n > 0 && n + padding(n) + 4 <= MAX_RECORD_SIZE
}

/// The record of path `path` with number `k`.
pub open spec fn path_record(k: nat, path: Seq<char>) -> Seq<u8> {
    let bytes = encode_utf8(path);
    let n = bytes.len() as int;
    spec_u32_to_le_bytes((n + padding(n) + 4) as u32) + bytes + zeros(padding(n))
        + spec_u32_to_le_bytes(checksum(k))
}

/// The bytes of a list of numbers.
pub open spec fn words(ids: Seq<u32>) -> Seq<u8>
    decreases ids.len(),
{
    if ids.len() == 0 {
        seq![]
    } else {
        words(ids.drop_last()) + spec_u32_to_le_bytes(ids.last())
    }
}

pub open spec fn low_half(mtime: u64) -> u32 {
    (mtime % 0x1_0000_0000) as u32
}

pub open spec fn high_half(mtime: u64) -> u32 {
    (mtime / 0x1_0000_0000) as u32
}

/// The record of the dependencies of an output.
pub open spec fn deps_record(output: u32, mtime: u64, ids: Seq<u32>) -> Seq<u8> {
    spec_u32_to_le_bytes((0x8000_0000u32 + 12 + 4 * ids.len()) as u32) + spec_u32_to_le_bytes(
        output,
    ) + spec_u32_to_le_bytes(low_half(mtime)) + spec_u32_to_le_bytes(high_half(mtime)) + words(
        ids,
    )
}

/// The number of `path` among the paths of a log.
pub open spec fn number_of(nodes: Seq<Seq<char>>, path: Seq<char>) -> u32 {
    nodes.index_of(path) as u32
}

pub open spec fn numbers_of(nodes: Seq<Seq<char>>, list: Seq<Seq<char>>) -> Seq<u32> {
    Seq::new(list.len(), |i: int| number_of(nodes, list[i]))
}

/// The paths of a log once those of `list` from `i` on have numbers, what that
/// writes, and whether all of them have. It stops at a path without a record.
pub open spec fn interned(nodes: Seq<Seq<char>>, list: Seq<Seq<char>>, i: int) -> (
    Seq<Seq<char>>,
    Seq<u8>,
    bool,
)
    decreases list.len() - i,
{
    if i < 0 || i >= list.len() {
        (nodes, seq![], true)
    } else if nodes.contains(list[i]) {
        interned(nodes, list, i + 1)
    } else if !is_encodable(list[i]) {
        (nodes, seq![], false)
    } else {
        let (later, bytes, ok) = interned(nodes.push(list[i]), list, i + 1);
        (later, path_record(nodes.len(), list[i]) + bytes, ok)
    }
}

/// What recording an entry does: the log after it, what is appended to the
/// file, and whether the entry was recorded. It is not where a path has no
/// record or there are too many inputs.
pub open spec fn recorded(log: LogView, output: Seq<char>, entry: EntryView) -> (
    LogView,
    Seq<u8>,
    bool,
) {
    if log.entries.contains_key(output) && log.entries[output] == entry {
        (log, seq![], true)
    } else {
        let (nodes, bytes, ok) = interned(log.nodes, seq![output] + entry.inputs, 0);
        let grown = LogView { nodes, ..log };
        if !ok || 12 + 4 * entry.inputs.len() > MAX_RECORD_SIZE {
            (grown, bytes, false)
        } else {
            (
                LogView { entries: log.entries.insert(output, entry), ..grown },
                bytes + deps_record(
                    number_of(nodes, output),
                    entry.mtime,
                    numbers_of(nodes, entry.inputs),
                ),
                true,
            )
        }
    }
}

/// The outputs whose dependencies a log holds, by their numbers.
pub open spec fn outputs_in_order(log: LogView, i: int) -> Seq<Seq<char>>
    decreases log.nodes.len() - i,
{
    if i < 0 || i >= log.nodes.len() {
        seq![]
    } else if log.entries.contains_key(log.nodes[i]) {
        seq![log.nodes[i]] + outputs_in_order(log, i + 1)
    } else {
        outputs_in_order(log, i + 1)
    }
}

/// The first output, from number `i` on, one of whose inputs is `input`.
pub open spec fn reverse_dep(log: LogView, input: Seq<char>, i: int) -> Option<Seq<char>>
    decreases log.nodes.len() - i,
{
    if i < 0 || i >= log.nodes.len() {
        None
    } else if log.entries.contains_key(log.nodes[i]) && log.entries[log.nodes[i]].inputs.contains(
        input,
    ) {
        Some(log.nodes[i])
    } else {
        reverse_dep(log, input, i + 1)
    }
}

/// What writing the entries of `outputs` that are live, from `i` on, does to
/// the log `new`.
pub open spec fn rewritten(
    old_log: LogView,
    new: LogView,
    outputs: Seq<Seq<char>>,
    live: spec_fn(Seq<char>) -> bool,
    i: int,
) -> (LogView, Seq<u8>, bool)
    decreases outputs.len() - i,
{
    if i < 0 || i >= outputs.len() {
        (new, seq![], true)
    } else if !live(outputs[i]) {
        rewritten(old_log, new, outputs, live, i + 1)
    } else {
        let (next, bytes, ok) = recorded(new, outputs[i], old_log.entries[outputs[i]]);
        if !ok {
            (next, bytes, false)
        } else {
            let (last, more, done) = rewritten(old_log, next, outputs, live, i + 1);
            (last, bytes + more, done)
        }
    }
}

/// The file that holds the live entries of a log and nothing else. `None` is an
/// entry that cannot be recorded.
pub open spec fn compacted(log: LogView, live: spec_fn(Seq<char>) -> bool) -> Option<Seq<u8>> {
    let (new, bytes, ok) = rewritten(log, empty_log(), outputs_in_order(log, 0), live, 0);
    if ok {
        Some(header() + bytes)
    } else {
        None
    }
}

/// The path of the log of a build directory.
pub open spec fn log_path(builddir: Option<Seq<char>>, windows: bool) -> Seq<char> {
    match builddir {
        Some(dir) => paths::file_in(dir, ".ninja_deps"@, windows),
        None => ".ninja_deps"@,
    }
}

/// The path of the log of a build directory.
pub fn deps_log_path(builddir: Option<&str>) -> (r: String)
    ensures
        r@ == log_path(
            match builddir {
                Some(dir) => Some(dir@),
                None => None,
            },
            false,
        ),
{
    deps_log_path_on(builddir, false)
}

/// The path of the log of a build directory on a system.
pub fn deps_log_path_on(builddir: Option<&str>, windows: bool) -> (r: String)
    ensures
        r@ == log_path(
            match builddir {
                Some(dir) => Some(dir@),
                None => None,
            },
            windows,
        ),
{
    match builddir {
        Some(dir) => join_file(dir, ".ninja_deps", windows),
        None => ".ninja_deps".to_owned(),
    }
}

/// `std::str::from_utf8`: the text whose UTF-8 encoding `bytes` are, and `None`
/// exactly when they are not valid UTF-8.
#[verifier::external_body]
pub(crate) fn decode_text(bytes: &[u8]) -> (r: Option<String>)
    ensures
        match r {
            Some(text) => valid_utf8(bytes@) && text@ == decode_utf8(bytes@),
            None => !valid_utf8(bytes@),
        },
{
    match std::str::from_utf8(bytes) {
        Ok(text) => Some(text.to_owned()),
        Err(_) => None,
    }
}

/// The contents of a dependency log.
#[derive(Debug)]
pub struct DepsLog {
    nodes: Vec<String>,
    ids: RapidHashMap<String, u32>,
    entries: RapidHashMap<String, DepsEntry>,
    invalidated: bool,
    recovered: bool,
}

/// An entry cannot be recorded: a path is empty or too long, or there are too
/// many inputs.
#[derive(Clone, Copy, Debug, PartialEq, Eq, Structural)]
pub struct RecordTooLarge;

impl DepsLog {
    pub closed spec fn view(&self) -> LogView {
        LogView { nodes: text::strings(self.nodes@), entries: self.entries.deep_view() }
    }

    pub closed spec fn invalidated(&self) -> bool {
        self.invalidated
    }

    pub closed spec fn recovered(&self) -> bool {
        self.recovered
    }

    /// No path has two numbers, and the numbers are those of `ids`.
    pub closed spec fn well_formed(&self) -> bool {
        &&& self@.nodes.no_duplicates()
        &&& forall|path: Seq<char>| #[trigger]
            self.ids.deep_view().contains_key(path) <==> self@.nodes.contains(path)
        &&& forall|i: int|
            0 <= i < self@.nodes.len() ==> self.ids.deep_view()[#[trigger] self@.nodes[i]]
                == i as u32
    }

    /// A log that holds nothing.
    pub fn new() -> (r: DepsLog)
        ensures
            r.well_formed(),
            r@ == empty_log(),
            !r.invalidated(),
            !r.recovered(),
    {
        let r: DepsLog = DepsLog {
            nodes: Vec::new(),
            ids: map_new(),
            entries: map_new(),
            invalidated: false,
            recovered: false,
        };
        proof {
            assert(r@ =~= empty_log());
        }
        r
    }

    /// Gives `path` the next number.
    fn push_node(&mut self, path: String)
        requires
            old(self).well_formed(),
            !old(self)@.nodes.contains(path@),
        ensures
            final(self).well_formed(),
            final(self)@ == (LogView { nodes: old(self)@.nodes.push(path@), ..old(self)@ }),
            final(self).invalidated() == old(self).invalidated(),
            final(self).recovered() == old(self).recovered(),
    {
        let ghost before = self@;
        let ghost ids = self.ids.deep_view();
        let ghost view = path@;
        let id: u32 = self.nodes.len() as u32;
        map_insert(&mut self.ids, path.clone(), id);
        self.nodes.push(path);
        proof {
            let nodes = self@.nodes;
            assert(nodes =~= before.nodes.push(view));
            assert forall|x: Seq<char>| #[trigger]
                self.ids.deep_view().contains_key(x) <==> nodes.contains(x) by {
                if before.nodes.contains(x) {
                    let i = choose|i: int| 0 <= i < before.nodes.len() && before.nodes[i] == x;
                    assert(nodes[i] == x);
                }
                if x == view {
                    assert(nodes[before.nodes.len() as int] == x);
                }
                if nodes.contains(x) {
                    let i = choose|i: int| 0 <= i < nodes.len() && nodes[i] == x;
                    if i < before.nodes.len() {
                        assert(before.nodes[i] == x);
                    }
                }
            }
            assert forall|i: int| 0 <= i < nodes.len() implies self.ids.deep_view()[
                #[trigger] nodes[i]
            ] == i as u32 by {
                if i < before.nodes.len() {
                    assert(nodes[i] == before.nodes[i]);
                    assert(before.nodes.contains(before.nodes[i]));
                }
            }
        }
    }

    /// Reads a path record. On `false` it is malformed.
    fn parse_path_record(&mut self, payload: &[u8]) -> (ok: bool)
        requires
            old(self).well_formed(),
        ensures
            ok == (with_path(old(self)@, payload@) is Some),
            ok ==> with_path(old(self)@, payload@) == Some(final(self)@),
            !ok ==> final(self)@ == old(self)@,
            final(self).well_formed(),
            final(self).invalidated() == old(self).invalidated(),
            final(self).recovered() == old(self).recovered(),
    {
        if payload.len() < 5 {
            return false;
        }
        let n: usize = payload.len() - 4;
        let sum: u32 = u32_from_le_bytes(slice_subrange(payload, n, payload.len()));
        let id: u32 = self.nodes.len() as u32;
        if sum != u32::MAX - id {
            return false;
        }
        let ghost body = payload@.take(n as int);
        let mut end: usize = n;
        let mut stripped: usize = 0;
        proof {
            assert(payload@.subrange(n as int, payload@.len() as int) =~= payload@.subrange(
                n as int,
                n + 4,
            ));
            assert(body.take(n as int) =~= body);
        }
        while stripped < 3 && end > 0 && payload[end - 1] == 0
            invariant
                n == payload@.len() - 4,
                end <= n,
                stripped <= 3,
                body == payload@.take(n as int),
                without_padding(body, 3) == without_padding(
                    body.take(end as int),
                    (3 - stripped) as nat,
                ),
            decreases end,
        {
            proof {
                assert(body.take(end as int).drop_last() =~= body.take(end - 1));
                assert(body.take(end as int).last() == payload@[end - 1]);
            }
            end -= 1;
            stripped += 1;
        }
        proof {
            if end > 0 {
                assert(body.take(end as int).last() == payload@[end - 1]);
            }
            assert(without_padding(body, 3) == body.take(end as int));
            assert(payload@.subrange(0, end as int) =~= body.take(end as int));
        }
        if end == 0 {
            return false;
        }
        let path: String = match decode_text(slice_subrange(payload, 0, end)) {
            Some(path) => path,
            None => {
                return false;
            },
        };
        if map_get(&self.ids, path.as_str()).is_some() {
            return false;
        }
        self.push_node(path);
        true
    }

    /// Reads a dependency record. On `false` it is malformed.
    fn parse_deps_record(&mut self, payload: &[u8]) -> (ok: bool)
        requires
            old(self).well_formed(),
        ensures
            ok == (with_deps(old(self)@, payload@) is Some),
            ok ==> with_deps(old(self)@, payload@) == Some(final(self)@),
            !ok ==> final(self)@ == old(self)@,
            final(self).well_formed(),
            final(self).invalidated() == old(self).invalidated(),
            final(self).recovered() == old(self).recovered(),
    {
        let ghost before = self@;
        let n: usize = payload.len();
        if n < 12 || n % 4 != 0 {
            return false;
        }
        let output: u32 = u32_from_le_bytes(slice_subrange(payload, 0, 4));
        if output as usize >= self.nodes.len() {
            return false;
        }
        let low: u32 = u32_from_le_bytes(slice_subrange(payload, 4, 8));
        let high: u32 = u32_from_le_bytes(slice_subrange(payload, 8, 12));
        let mtime: u64 = low as u64 + high as u64 * 0x1_0000_0000;
        let ghost ids = words_from(payload@, 12);
        let mut inputs: Vec<String> = Vec::new();
        let mut i: usize = 12;
        while i < n
            invariant
                n == payload@.len(),
                n % 4 == 0,
                i % 4 == 0,
                12 <= i <= n,
                self@ == before,
                *self == *old(self),
                self.well_formed(),
                payload@.len() >= 12,
                ids == words_from(payload@, 12),
                4 * inputs@.len() + 12 == i,
                inputs@.len() <= ids.len(),
                ids.skip(inputs@.len() as int) =~= words_from(payload@, i as int),
                forall|k: int|
                    0 <= k < inputs@.len() ==> (#[trigger] ids[k]) < before.nodes.len()
                        && inputs@[k]@ == before.nodes[ids[k] as int],
            decreases n - i,
        {
            let id: u32 = u32_from_le_bytes(slice_subrange(payload, i, i + 4));
            proof {
                let rest = words_from(payload@, i as int);
                assert(rest.len() > 0 && rest[0] == id);
                assert(ids.skip(inputs@.len() as int).len() > 0);
                assert(ids[inputs@.len() as int] == ids.skip(inputs@.len() as int)[0]);
            }
            if id as usize >= self.nodes.len() {
                return false;
            }
            let path: String = self.nodes[id as usize].clone();
            let ghost shorter = ids.skip(inputs@.len() as int);
            inputs.push(path);
            i += 4;
            proof {
                assert(ids.skip(inputs@.len() as int) =~= shorter.skip(1));
                assert(shorter.skip(1) =~= words_from(payload@, i as int));
            }
        }
        proof {
            assert(ids.skip(inputs@.len() as int).len() == 0);
            assert(text::strings(inputs@) =~= paths_of(before.nodes, ids));
        }
        let key: String = self.nodes[output as usize].clone();
        map_insert(&mut self.entries, key, DepsEntry { mtime, inputs });
        proof {
            assert(self@ =~= with_deps(before, payload@)->Some_0);
        }
        true
    }

    /// Reads the contents of a log file, and tells what is to be done with it.
    pub fn load(data: &[u8]) -> (r: (DepsLog, Repair))
        ensures
            r.0.well_formed(),
            r.0@ == loaded(data@),
            r.1 == repair(data@),
            r.0.invalidated() == (repair(data@) is Remove),
            r.0.recovered() == (repair(data@) is Truncate),
    {
        let mut log: DepsLog = DepsLog::new();
        let n: usize = data.len();
        if !starts_with_header(data) {
            log.invalidated = true;
            return (log, Repair::Remove);
        }
        let ghost body = data@.skip(16);
        let ghost whole = replay(empty_log(), body);
        let mut records: usize = 0;
        let mut offset: usize = 16;
        proof {
            assert(body.skip(0) =~= body);
        }
        while offset < n
            invariant
                n == data@.len(),
                16 <= offset <= n,
                records <= offset,
                log.well_formed(),
                !log.invalidated(),
                !log.recovered(),
                has_header(data@),
                body == data@.skip(16),
                whole == replay(empty_log(), body),
                ({
                    let r = replay(log@, body.skip(offset - 16));
                    &&& whole.log == r.log
                    &&& whole.valid == offset - 16 + r.valid
                    &&& whole.records == records + r.records
                    &&& whole.clean == r.clean
                }),
            decreases n - offset,
        {
            let ghost rest = body.skip(offset - 16);
            let taken: Option<(bool, &[u8])> = take_record(data, offset);
            proof {
                assert(rest =~= data@.skip(offset as int));
            }
            let (deps, payload) = match taken {
                Some(x) => x,
                None => {
                    log.recovered = true;
                    return (log, Repair::Truncate(offset));
                },
            };
            let ok: bool = if deps {
                log.parse_deps_record(payload)
            } else {
                log.parse_path_record(payload)
            };
            if !ok {
                log.recovered = true;
                return (log, Repair::Truncate(offset));
            }
            if deps {
                records += 1;
            }
            offset += 4 + payload.len();
            proof {
                assert(rest.skip(4 + payload@.len() as int) =~= body.skip(offset - 16));
            }
        }
        proof {
            assert(body.skip(offset - 16) =~= seq![]);
        }
        let live: usize = map_len(&log.entries);
        if records > 1000 && records as u128 > 3 * live as u128 {
            (log, Repair::Compact)
        } else {
            (log, Repair::Keep)
        }
    }

    /// Whether the file was no log.
    pub fn was_invalidated(&self) -> (r: bool)
        ensures
            r == self.invalidated(),
    {
        self.invalidated
    }

    /// Whether the end of the file was malformed.
    pub fn was_recovered(&self) -> (r: bool)
        ensures
            r == self.recovered(),
    {
        self.recovered
    }

    /// The dependencies of an output.
    pub fn get(&self, output: &str) -> (r: Option<&DepsEntry>)
        ensures
            match r {
                Some(entry) => self@.entries.contains_key(output@) && self@.entries[output@]
                    == entry.deep_view(),
                None => !self@.entries.contains_key(output@),
            },
    {
        map_get(&self.entries, output)
    }

    /// The paths by their numbers.
    pub fn nodes(&self) -> (r: &Vec<String>)
        ensures
            text::strings(r@) == self@.nodes,
    {
        &self.nodes
    }

    /// The outputs and their dependencies. Their order is not fixed.
    pub fn entries(&self) -> (r: Vec<(&String, &DepsEntry)>)
        ensures
            forall|i: int, j: int|
                0 <= i < j < r@.len() ==> (#[trigger] r@[i]).0@ != (#[trigger] r@[j]).0@,
            forall|i: int|
                0 <= i < r@.len() ==> self@.entries.contains_key((#[trigger] r@[i]).0@)
                    && r@[i].1.deep_view() == self@.entries[r@[i].0@],
            forall|output: Seq<char>| #[trigger]
                self@.entries.contains_key(output) ==> exists|i: int|
                    0 <= i < r@.len() && (#[trigger] r@[i]).0@ == output,
    {
        map_entries(&self.entries)
    }

    /// The outputs whose dependencies the log holds, by their numbers.
    pub fn outputs_in_node_order(&self) -> (r: Vec<&str>)
        ensures
            crate::spell::views(r@) == outputs_in_order(self@, 0),
    {
        let mut r: Vec<&str> = Vec::new();
        let mut i: usize = 0;
        while i < self.nodes.len()
            invariant
                i <= self.nodes@.len(),
                crate::spell::views(r@) + outputs_in_order(self@, i as int) =~= outputs_in_order(
                    self@,
                    0,
                ),
            decreases self.nodes@.len() - i,
        {
            let path: &str = self.nodes[i].as_str();
            if map_get(&self.entries, path).is_some() {
                let ghost before = crate::spell::views(r@);
                r.push(path);
                proof {
                    assert(crate::spell::views(r@) =~= before.push(path@));
                }
            }
            i += 1;
        }
        r
    }

    /// The first output one of whose inputs is `input`.
    pub fn first_reverse_dep(&self, input: &str) -> (r: Option<&str>)
        ensures
            match r {
                Some(output) => reverse_dep(self@, input@, 0) == Some(output@),
                None => reverse_dep(self@, input@, 0) is None,
            },
    {
        let mut i: usize = 0;
        while i < self.nodes.len()
            invariant
                i <= self.nodes@.len(),
                reverse_dep(self@, input@, 0) == reverse_dep(self@, input@, i as int),
            decreases self.nodes@.len() - i,
        {
            let path: &str = self.nodes[i].as_str();
            if let Some(entry) = map_get(&self.entries, path) {
                if holds(&entry.inputs, input) {
                    return Some(path);
                }
            }
            i += 1;
        }
        None
    }

    /// Gives `path` a number, if it has none, and appends its record to `out`.
    /// `None` is a path without a record.
    fn ensure_id(&mut self, path: &str, out: &mut Vec<u8>) -> (r: Option<u32>)
        requires
            old(self).well_formed(),
        ensures
            final(self).well_formed(),
            final(self)@.entries == old(self)@.entries,
            final(self).invalidated() == old(self).invalidated(),
            final(self).recovered() == old(self).recovered(),
            match r {
                Some(id) => {
                    &&& final(self)@.nodes.contains(path@)
                    &&& id == number_of(final(self)@.nodes, path@)
                    &&& old(self)@.nodes.contains(path@) ==> final(self)@ == old(self)@
                        && final(out)@ == old(out)@
                    &&& !old(self)@.nodes.contains(path@) ==> is_encodable(path@)
                        && final(self)@.nodes == old(self)@.nodes.push(path@) && final(out)@
                        == old(out)@ + path_record(old(self)@.nodes.len(), path@)
                },
                None => {
                    &&& !old(self)@.nodes.contains(path@)
                    &&& !is_encodable(path@)
                    &&& final(self)@ == old(self)@
                    &&& final(out)@ == old(out)@
                },
            },
    {
        if let Some(id) = map_get(&self.ids, path) {
            proof {
                let i = self@.nodes.index_of(path@);
                assert(self@.nodes[i] == path@);
            }
            return Some(*id);
        }
        let id: u32 = self.nodes.len() as u32;
        let bytes: &[u8] = path.as_bytes();
        let n: usize = bytes.len();
        if n == 0 || n > MAX_RECORD_SIZE {
            proof {
                assert(padding(n as int) >= 0);
            }
            return None;
        }
        let pad: usize = (4 - n % 4) % 4;
        let size: usize = n + pad + 4;
        if size > MAX_RECORD_SIZE {
            return None;
        }
        let ghost before = out@;
        push_bytes(out, u32_to_le_bytes(size as u32).as_slice());
        push_bytes(out, bytes);
        let mut i: usize = 0;
        let ghost middle = out@;
        while i < pad
            invariant
                i <= pad,
                out@ =~= middle + zeros(i as int),
            decreases pad - i,
        {
            out.push(0);
            i += 1;
        }
        push_bytes(out, u32_to_le_bytes(u32::MAX - id).as_slice());
        proof {
            assert(out@ =~= before + path_record(self@.nodes.len(), path@));
        }
        let ghost nodes = self@.nodes;
        self.push_node(path.to_owned());
        proof {
            let i = self@.nodes.index_of(path@);
            assert(self@.nodes[nodes.len() as int] == path@);
            assert(self@.nodes.contains(path@));
            assert(self@.nodes[i] == path@);
            assert(i == nodes.len());
        }
        Some(id)
    }

    /// Gives the paths of `list` numbers, and appends their records to `out`.
    fn ensure_ids(&mut self, list: &Vec<String>, out: &mut Vec<u8>) -> (ok: bool)
        requires
            old(self).well_formed(),
        ensures
            final(self).well_formed(),
            final(self)@.entries == old(self)@.entries,
            final(self).invalidated() == old(self).invalidated(),
            final(self).recovered() == old(self).recovered(),
            ({
                let (nodes, bytes, done) = interned(
                    old(self)@.nodes,
                    text::strings(list@),
                    0,
                );
                &&& final(self)@.nodes == nodes
                &&& final(out)@ == old(out)@ + bytes
                &&& ok == done
            }),
    {
        let ghost all = text::strings(list@);
        let ghost goal = interned(self@.nodes, all, 0);
        let ghost start = out@;
        let mut i: usize = 0;
        while i < list.len()
            invariant
                all == text::strings(list@),
                goal == interned(old(self)@.nodes, all, 0),
                start == old(out)@,
                i <= list@.len(),
                self.well_formed(),
                self@.entries == old(self)@.entries,
                self.invalidated() == old(self).invalidated(),
                self.recovered() == old(self).recovered(),
                ({
                    let (nodes, bytes, done) = interned(self@.nodes, all, i as int);
                    &&& goal.0 == nodes
                    &&& start + goal.1 =~= out@ + bytes
                    &&& goal.2 == done
                }),
            decreases list@.len() - i,
        {
            proof {
                assert(all[i as int] == list@[i as int]@);
            }
            let ghost out0 = out@;
            let ghost nodes0 = self@.nodes;
            if self.ensure_id(list[i].as_str(), out).is_none() {
                proof {
                    assert(out@ + Seq::<u8>::empty() =~= out@);
                }
                return false;
            }
            proof {
                if !nodes0.contains(all[i as int]) {
                    let rest = interned(self@.nodes, all, i + 1).1;
                    let first = path_record(nodes0.len(), all[i as int]);
                    assert(out0 + (first + rest) =~= out@ + rest);
                }
            }
            i += 1;
        }
        proof {
            assert(out@ + Seq::<u8>::empty() =~= out@);
        }
        true
    }

    /// Records the dependencies of an output, and appends what the file gets to
    /// `out`.
    pub fn record(
        &mut self,
        output: &str,
        mtime: u64,
        inputs: &Vec<String>,
        out: &mut Vec<u8>,
    ) -> (r: Result<(), RecordTooLarge>)
        requires
            old(self).well_formed(),
        ensures
            final(self).well_formed(),
            final(self).invalidated() == old(self).invalidated(),
            final(self).recovered() == old(self).recovered(),
            ({
                let (log, bytes, ok) = recorded(
                    old(self)@,
                    output@,
                    EntryView { mtime, inputs: text::strings(inputs@) },
                );
                &&& final(self)@ == log
                &&& final(out)@ == old(out)@ + bytes
                &&& r is Ok <==> ok
            }),
    {
        let ghost before = self@;
        let ghost list = text::strings(inputs@);
        let ghost entry = EntryView { mtime, inputs: list };
        if let Some(known) = map_get(&self.entries, output) {
            if known.mtime == mtime && same_lists(&known.inputs, inputs) {
                proof {
                    assert(known.deep_view() =~= entry);
                    assert(out@ + Seq::<u8>::empty() =~= out@);
                }
                return Ok(());
            }
            proof {
                assert(known.deep_view() != entry);
            }
        }
        let mut all: Vec<String> = Vec::new();
        all.push(output.to_owned());
        let mut i: usize = 0;
        while i < inputs.len()
            invariant
                i <= inputs@.len(),
                list == text::strings(inputs@),
                text::strings(all@) =~= seq![output@] + list.take(i as int),
            decreases inputs@.len() - i,
        {
            let ghost earlier = text::strings(all@);
            let path: String = inputs[i].clone();
            let ghost view = path@;
            all.push(path);
            proof {
                assert(text::strings(all@) =~= earlier.push(view));
            }
            i += 1;
        }
        proof {
            assert(list.take(list.len() as int) =~= list);
        }
        let ghost start = out@;
        let ghost (nodes, bytes, ok) = interned(before.nodes, seq![output@] + list, 0);
        if !self.ensure_ids(&all, out) {
            proof {
                assert(self@ =~= (LogView { nodes, ..before }));
            }
            return Err(RecordTooLarge);
        }
        proof {
            assert(self@ =~= (LogView { nodes, ..before }));
            lemma_interned_holds(before.nodes, seq![output@] + list, 0);
            assert((seq![output@] + list)[0] == output@);
        }
        if inputs.len() > (MAX_RECORD_SIZE - 12) / 4 {
            return Err(RecordTooLarge);
        }
        let size: u32 = 12 + 4 * inputs.len() as u32;
        let output_id: u32 = self.id_of(output);
        push_bytes(out, u32_to_le_bytes(0x8000_0000 + size).as_slice());
        push_bytes(out, u32_to_le_bytes(output_id).as_slice());
        push_bytes(out, u32_to_le_bytes((mtime % 0x1_0000_0000) as u32).as_slice());
        push_bytes(out, u32_to_le_bytes((mtime / 0x1_0000_0000) as u32).as_slice());
        let ghost ids = numbers_of(nodes, list);
        let ghost middle = out@;
        let mut i: usize = 0;
        proof {
            assert(ids.take(0) =~= seq![]);
        }
        while i < inputs.len()
            invariant
                i <= inputs@.len(),
                list == text::strings(inputs@),
                self.well_formed(),
                self.invalidated() == old(self).invalidated(),
                self.recovered() == old(self).recovered(),
                self@ == (LogView { nodes, ..before }),
                ids == numbers_of(nodes, list),
                forall|k: int|
                    0 <= k < (seq![output@] + list).len() ==> nodes.contains(
                        #[trigger] (seq![output@] + list)[k],
                    ),
                out@ =~= middle + words(ids.take(i as int)),
            decreases inputs@.len() - i,
        {
            proof {
                assert((seq![output@] + list)[i + 1] == inputs@[i as int]@);
                assert(ids.take(i + 1).drop_last() =~= ids.take(i as int));
            }
            let id: u32 = self.id_of(inputs[i].as_str());
            proof {
                assert(id == ids[i as int]);
            }
            push_bytes(out, u32_to_le_bytes(id).as_slice());
            i += 1;
        }
        proof {
            assert(ids.take(ids.len() as int) =~= ids);
            assert(out@ =~= start + (bytes + deps_record(number_of(nodes, output@), mtime, ids)));
        }
        map_insert(
            &mut self.entries,
            output.to_owned(),
            DepsEntry { mtime, inputs: copy_list(inputs) },
        );
        proof {
            assert(self@ =~= (LogView {
                nodes,
                entries: before.entries.insert(output@, entry),
            }));
        }
        Ok(())
    }

    /// The number of a path that has one.
    fn id_of(&self, path: &str) -> (r: u32)
        requires
            self.well_formed(),
            self@.nodes.contains(path@),
        ensures
            r == number_of(self@.nodes, path@),
    {
        proof {
            let i = self@.nodes.index_of(path@);
            assert(self@.nodes[i] == path@);
        }
        match map_get(&self.ids, path) {
            Some(id) => *id,
            None => 0,
        }
    }
}

/// Every path of the list has a number once all of them have been given one.
pub proof fn lemma_interned_holds(nodes: Seq<Seq<char>>, list: Seq<Seq<char>>, i: int)
    requires
        0 <= i <= list.len(),
    ensures
        ({
            let (later, bytes, ok) = interned(nodes, list, i);
            &&& nodes.is_prefix_of(later)
            &&& ok ==> forall|k: int| i <= k < list.len() ==> later.contains(#[trigger] list[k])
        }),
    decreases list.len() - i,
{
    if i < list.len() {
        let (later, bytes, ok) = interned(nodes, list, i);
        if nodes.contains(list[i]) {
            lemma_interned_holds(nodes, list, i + 1);
            let k = choose|k: int| 0 <= k < nodes.len() && nodes[k] == list[i];
            assert(later[k] == list[i]);
        } else if is_encodable(list[i]) {
            let grown = nodes.push(list[i]);
            lemma_interned_holds(grown, list, i + 1);
            assert(later[nodes.len() as int] == grown[nodes.len() as int]);
            assert(nodes.is_prefix_of(later)) by {
                assert(nodes =~= later.subrange(0, nodes.len() as int));
            }
        } else {
            assert(nodes =~= nodes.subrange(0, nodes.len() as int));
        }
    } else {
        assert(nodes =~= nodes.subrange(0, nodes.len() as int));
    }
}

fn push_bytes(out: &mut Vec<u8>, bytes: &[u8])
    ensures
        final(out)@ == old(out)@ + bytes@,
{
    out.extend_from_slice(bytes);
}

fn same_lists(a: &Vec<String>, b: &Vec<String>) -> (r: bool)
    ensures
        r == (text::strings(a@) == text::strings(b@)),
{
    if a.len() != b.len() {
        proof {
            assert(text::strings(a@).len() != text::strings(b@).len());
        }
        return false;
    }
    let mut i: usize = 0;
    while i < a.len()
        invariant
            a@.len() == b@.len(),
            i <= a@.len(),
            forall|k: int| 0 <= k < i ==> text::strings(a@)[k] == text::strings(b@)[k],
        decreases a@.len() - i,
    {
        if !same_str(a[i].as_str(), b[i].as_str()) {
            proof {
                assert(text::strings(a@)[i as int] != text::strings(b@)[i as int]);
            }
            return false;
        }
        i += 1;
    }
    proof {
        assert(text::strings(a@) =~= text::strings(b@));
    }
    true
}

pub proof fn lemma_signature()
    ensures
        signature().len() == 12,
        header().len() == 16,
{
    reveal_strlit("# ninjadeps\n");
    is_ascii_chars_encode_utf8("# ninjadeps\n"@);
    lemma_auto_spec_u32_to_from_le_bytes();
}

/// The header of a log file.
pub fn log_header() -> (r: Vec<u8>)
    ensures
        r@ == header(),
{
    let mut r: Vec<u8> = Vec::new();
    push_bytes(&mut r, "# ninjadeps\n".as_bytes());
    push_bytes(&mut r, u32_to_le_bytes(4).as_slice());
    proof {
        assert(r@ =~= header());
    }
    r
}

fn starts_with_header(data: &[u8]) -> (r: bool)
    ensures
        r == has_header(data@),
{
    let expected: &[u8] = "# ninjadeps\n".as_bytes();
    proof {
        lemma_signature();
    }
    if data.len() < 16 {
        return false;
    }
    let mut i: usize = 0;
    while i < 12
        invariant
            i <= 12,
            data@.len() >= 16,
            expected@ == signature(),
            expected@.len() == 12,
            forall|k: int| 0 <= k < i ==> data@[k] == expected@[k],
        decreases 12 - i,
    {
        if data[i] != expected[i] {
            proof {
                assert(data@.take(12)[i as int] != signature()[i as int]);
            }
            return false;
        }
        i += 1;
    }
    proof {
        assert(data@.take(12) =~= signature());
    }
    u32_from_le_bytes(slice_subrange(data, 12, 16)) == 4
}

/// The first record behind `offset`.
fn take_record(data: &[u8], offset: usize) -> (r: Option<(bool, &[u8])>)
    requires
        offset < data@.len(),
    ensures
        match r {
            Some((deps, payload)) => first_record(data@.skip(offset as int)) == Some(
                (deps, payload@),
            ) && offset + 4 + payload@.len() <= data@.len(),
            None => first_record(data@.skip(offset as int)) is None,
        },
{
    let ghost rest = data@.skip(offset as int);
    let left: usize = data.len() - offset;
    if left < 4 {
        return None;
    }
    let word: u32 = u32_from_le_bytes(slice_subrange(data, offset, offset + 4));
    proof {
        assert(rest.subrange(0, 4) =~= data@.subrange(offset as int, offset + 4));
    }
    let deps: bool = word >= 0x8000_0000;
    let size: usize = if deps {
        (word - 0x8000_0000) as usize
    } else {
        word as usize
    };
    if size == 0 || size > MAX_RECORD_SIZE || size > left - 4 {
        return None;
    }
    proof {
        assert(rest.subrange(4, 4 + size as int) =~= data@.subrange(
            offset + 4,
            offset + 4 + size,
        ));
    }
    Some((deps, slice_subrange(data, offset + 4, offset + 4 + size)))
}

/// Whether `is_live` tells exactly which outputs are live.
pub open spec fn tells<F: Fn(&str) -> bool>(is_live: F, live: spec_fn(Seq<char>) -> bool) -> bool {
    forall|output: &str, r: bool| #[trigger] is_live.ensures((output,), r) ==> r == live(output@)
}

impl DepsLog {
    /// Writes the live entries of the log to a new file, which is returned, and
    /// reads it back. `is_live` is asked for each output at most once, and its answers
    /// settle the result.
    pub fn recompact_retain<F: Fn(&str) -> bool>(&mut self, is_live: F) -> (r: Result<
        Vec<u8>,
        RecordTooLarge,
    >)
        requires
            old(self).well_formed(),
            forall|output: &str| #[trigger] is_live.requires((output,)),
        ensures
            final(self).well_formed(),
            forall|live: spec_fn(Seq<char>) -> bool| #[trigger]
                tells(is_live, live) ==> match r {
                    Ok(bytes) => compacted(old(self)@, live) == Some(bytes@),
                    Err(_) => compacted(old(self)@, live) is None,
                },
            exists|answers: Map<Seq<char>, bool>|
                {
                    &&& #[trigger] asking::are_answers(is_live, answers)
                    &&& forall|live: spec_fn(Seq<char>) -> bool| #[trigger]
                        asking::agrees(live, answers) ==> match r {
                            Ok(bytes) => compacted(old(self)@, live) == Some(bytes@),
                            Err(_) => compacted(old(self)@, live) is None,
                        }
                },
            match r {
                Ok(bytes) => final(self)@ == loaded(bytes@) && final(self).invalidated() == (repair(
                    bytes@,
                ) is Remove) && final(self).recovered() == (repair(bytes@) is Truncate),
                Err(_) => final(self)@ == old(self)@ && final(self).invalidated() == old(
                    self,
                ).invalidated() && final(self).recovered() == old(self).recovered(),
            },
    {
        let mut answers: RapidHashMap<String, bool> = map_new();
        let mut compact: DepsLog = DepsLog::new();
        let mut out: Vec<u8> = log_header();
        let ghost before = self@;
        let ghost order = outputs_in_order(before, 0);
        let outputs: Vec<&str> = self.outputs_in_node_order();
        proof {
            lemma_outputs_have_entries(before, 0);
        }
        let mut i: usize = 0;
        while i < outputs.len()
            invariant
                before == self@,
                self.well_formed(),
                *self == *old(self),
                i <= outputs@.len(),
                order == outputs_in_order(before, 0),
                crate::spell::views(outputs@) == order,
                compact.well_formed(),
                forall|output: &str| #[trigger] is_live.requires((output,)),
                asking::are_answers(is_live, answers.deep_view()),
                forall|k: int|
                    0 <= k < order.len() ==> before.entries.contains_key(#[trigger] order[k]),
                forall|live: spec_fn(Seq<char>) -> bool| #[trigger]
                    asking::agrees(live, answers.deep_view()) ==> ({
                        let (_, all, done) = rewritten(before, empty_log(), order, live, 0);
                        let (_, rest, done_rest) = rewritten(
                            before,
                            compact@,
                            order,
                            live,
                            i as int,
                        );
                        header() + all =~= out@ + rest && done == done_rest
                    }),
            decreases outputs@.len() - i,
        {
            let output: &str = outputs[i];
            proof {
                assert(crate::spell::views(outputs@)[i as int] == output@);
                assert(order[i as int] == output@);
            }
            let ghost known = answers.deep_view();
            let keep: bool = ask(&is_live, &mut answers, output);
            if keep {
                let ghost out0 = out@;
                let ghost compact0 = compact@;
                if let Some(entry) = map_get(&self.entries, output) {
                    let ghost (next, bytes, ok) = recorded(
                        compact0,
                        output@,
                        before.entries[output@],
                    );
                    proof {
                        assert(entry.deep_view() == before.entries[output@]);
                    }
                    let r: Result<(), RecordTooLarge> = compact.record(
                        output,
                        entry.mtime,
                        &entry.inputs,
                        &mut out,
                    );
                    proof {
                        assert forall|live: spec_fn(Seq<char>) -> bool| #[trigger]
                            asking::agrees(live, answers.deep_view()) implies ({
                            let (_, all, done) = rewritten(before, empty_log(), order, live, 0);
                            if ok {
                                let (_, rest, done_rest) = rewritten(
                                    before,
                                    compact@,
                                    order,
                                    live,
                                    i + 1,
                                );
                                header() + all =~= out@ + rest && done == done_rest
                            } else {
                                !done
                            }
                        }) by {
                            assert(asking::agrees(live, known));
                            assert(live(output@));
                            if ok {
                                let more = rewritten(before, next, order, live, i + 1).1;
                                assert(out0 + (bytes + more) =~= (out0 + bytes) + more);
                            }
                        }
                    }
                    if r.is_err() {
                        proof {
                            assert forall|live: spec_fn(Seq<char>) -> bool| #[trigger]
                                tells(is_live, live) implies compacted(before, live) is None by {
                                asking::lemma_telling_agrees(is_live, answers.deep_view(), live);
                            }
                        }
                        return Err(RecordTooLarge);
                    }
                }
            } else {
                proof {
                    assert forall|live: spec_fn(Seq<char>) -> bool| #[trigger]
                        asking::agrees(live, answers.deep_view()) implies ({
                        let (_, all, done) = rewritten(before, empty_log(), order, live, 0);
                        let (_, rest, done_rest) = rewritten(
                            before,
                            compact@,
                            order,
                            live,
                            i + 1,
                        );
                        header() + all =~= out@ + rest && done == done_rest
                    }) by {
                        assert(asking::agrees(live, known));
                        assert(!live(output@));
                    }
                }
            }
            i += 1;
        }
        proof {
            assert forall|live: spec_fn(Seq<char>) -> bool| #[trigger]
                asking::agrees(live, answers.deep_view()) implies compacted(before, live) == Some(out@) by {
                assert(out@ + Seq::<u8>::empty() =~= out@);
            }
            assert forall|live: spec_fn(Seq<char>) -> bool| #[trigger]
                tells(is_live, live) implies compacted(before, live) == Some(out@) by {
                asking::lemma_telling_agrees(is_live, answers.deep_view(), live);
            }
        }
        let (log, _repair) = DepsLog::load(out.as_slice());
        *self = log;
        Ok(out)
    }

    /// Writes the entries of the log to a new file, which is returned, and reads
    /// it back.
    pub fn recompact(&mut self) -> (r: Result<Vec<u8>, RecordTooLarge>)
        requires
            old(self).well_formed(),
        ensures
            final(self).well_formed(),
            match r {
                Ok(bytes) => compacted(old(self)@, |output: Seq<char>| true) == Some(bytes@)
                    && final(self)@ == loaded(bytes@) && final(self).invalidated() == (repair(
                    bytes@,
                ) is Remove) && final(self).recovered() == (repair(bytes@) is Truncate),
                Err(_) => compacted(old(self)@, |output: Seq<char>| true) is None
                    && final(self)@ == old(self)@ && final(self).invalidated() == old(
                    self,
                ).invalidated() && final(self).recovered() == old(self).recovered(),
            },
    {
        let all = |output: &str| -> (r: bool)
            ensures
                r,
            { true };
        let ghost live: spec_fn(Seq<char>) -> bool = |output: Seq<char>| true;
        proof {
            assert(tells(all, live));
        }
        self.recompact_retain(all)
    }
}

/// Every output in the order of the log has an entry.
pub proof fn lemma_outputs_have_entries(log: LogView, i: int)
    requires
        0 <= i <= log.nodes.len(),
    ensures
        forall|k: int|
            0 <= k < outputs_in_order(log, i).len() ==> log.entries.contains_key(
                #[trigger] outputs_in_order(log, i)[k],
            ),
        forall|path: Seq<char>|
            #![trigger outputs_in_order(log, i).contains(path)]
            outputs_in_order(log, i).contains(path) <==> log.entries.contains_key(path)
                && log.nodes.skip(i).contains(path),
    decreases log.nodes.len() - i,
{
    let list = outputs_in_order(log, i);
    if i < log.nodes.len() {
        lemma_outputs_have_entries(log, i + 1);
        let rest = outputs_in_order(log, i + 1);
        let first = log.nodes[i];
        let nodes = log.nodes.skip(i);
        let later = log.nodes.skip(i + 1);
        assert(nodes[0] == first);
        assert forall|k: int| 0 <= k < list.len() implies log.entries.contains_key(
            #[trigger] list[k],
        ) by {
            if log.entries.contains_key(first) && k > 0 {
                assert(list[k] == rest[k - 1]);
            }
        }
        assert forall|path: Seq<char>|
            #![trigger list.contains(path)]
            list.contains(path) <==> log.entries.contains_key(path) && nodes.contains(path) by {
            if later.contains(path) {
                let k = choose|k: int| 0 <= k < later.len() && later[k] == path;
                assert(nodes[k + 1] == path);
            }
            if nodes.contains(path) && path != first {
                let k = choose|k: int| 0 <= k < nodes.len() && nodes[k] == path;
                assert(later[k - 1] == path);
            }
            if rest.contains(path) && log.entries.contains_key(first) {
                let k = choose|k: int| 0 <= k < rest.len() && rest[k] == path;
                assert(list[k + 1] == path);
            }
            if list.contains(path) {
                let k = choose|k: int| 0 <= k < list.len() && list[k] == path;
                if log.entries.contains_key(first) {
                    if k == 0 {
                        assert(path == first);
                    } else {
                        assert(rest[k - 1] == path);
                    }
                } else {
                    assert(rest.contains(path));
                }
            }
            if log.entries.contains_key(first) && path == first {
                assert(list[0] == path);
            }
        }
    }
}

} // verus!
