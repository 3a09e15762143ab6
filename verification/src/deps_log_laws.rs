//! What holds of dependency logs: what was written is read back, a damaged end
//! costs only itself, and compaction keeps what is live.
use crate::deps_log;
use crate::deps_log::EntryView;
use crate::deps_log::LogView;
use crate::deps_log::Replay;
use crate::deps_log::MAX_RECORD_SIZE;
use vstd::bytes::*;
use vstd::prelude::*;
use vstd::utf8::*;

verus! {

proof fn lemma_first_record_of_prefix(a: Seq<u8>, b: Seq<u8>)
    requires
        deps_log::first_record(a) is Some,
    ensures
        deps_log::first_record(a + b) == deps_log::first_record(a),
        4 + deps_log::first_record(a)->Some_0.1.len() <= a.len(),
{
    let word = deps_log::word_at(a, 0);
    assert((a + b).subrange(0, 4) =~= a.subrange(0, 4));
    let size = deps_log::first_record(a)->Some_0.1.len() as int;
    assert((a + b).subrange(4, 4 + size) =~= a.subrange(4, 4 + size));
}

/// Reading records and then more records is reading all of them.
proof fn lemma_replay_concat(log: LogView, a: Seq<u8>, b: Seq<u8>)
    requires
        deps_log::replay(log, a).clean,
    ensures
        ({
            let first = deps_log::replay(log, a);
            let second = deps_log::replay(first.log, b);
            deps_log::replay(log, a + b) == (Replay {
                log: second.log,
                valid: first.valid + second.valid,
                records: first.records + second.records,
                clean: second.clean,
            })
        }),
        deps_log::replay(log, a).valid == a.len(),
    decreases a.len(),
{
    if a.len() == 0 {
        assert(a + b =~= b);
    } else {
        lemma_first_record_of_prefix(a, b);
        let (deps, payload) = deps_log::first_record(a)->Some_0;
        let n = 4 + payload.len() as int;
        let next = deps_log::applied(log, deps, payload)->Some_0;
        assert((a + b).skip(n) =~= a.skip(n) + b);
        lemma_replay_concat(next, a.skip(n), b);
    }
}

/// What was read before a malformed record is read the same without what follows.
proof fn lemma_replay_of_valid_part(log: LogView, rest: Seq<u8>)
    ensures
        ({
            let r = deps_log::replay(log, rest);
            &&& r.valid <= rest.len()
            &&& deps_log::replay(log, rest.take(r.valid as int)) == (Replay { clean: true, ..r })
        }),
    decreases rest.len(),
{
    let r = deps_log::replay(log, rest);
    if rest.len() == 0 {
        assert(rest.take(0) =~= rest);
    } else if deps_log::first_record(rest) is Some && deps_log::applied(
        log,
        deps_log::first_record(rest)->Some_0.0,
        deps_log::first_record(rest)->Some_0.1,
    ) is Some {
        let (deps, payload) = deps_log::first_record(rest)->Some_0;
        let n = 4 + payload.len() as int;
        let next = deps_log::applied(log, deps, payload)->Some_0;
        lemma_replay_of_valid_part(next, rest.skip(n));
        let cut = rest.take(r.valid as int);
        assert(cut.subrange(0, 4) =~= rest.subrange(0, 4));
        assert(cut.subrange(4, n) =~= rest.subrange(4, n));
        assert(cut.skip(n) =~= rest.skip(n).take(r.valid - n));
    } else {
        assert(rest.take(0) =~= seq![]);
    }
}

/// A log file that is cut off where it first is malformed holds what was read
/// of it, and is whole.
pub proof fn law_truncated_log_is_whole(data: Seq<u8>)
    requires
        deps_log::has_header(data),
        data.len() <= usize::MAX,
    ensures
        deps_log::repair(data) matches deps_log::Repair::Truncate(n) ==> {
            &&& 16 <= n <= data.len()
            &&& deps_log::loaded(data.take(n as int)) == deps_log::loaded(data)
            &&& !(deps_log::repair(data.take(n as int)) is Truncate)
            &&& !(deps_log::repair(data.take(n as int)) is Remove)
        },
{
    let rest = data.skip(16);
    let r = deps_log::replay(deps_log::empty_log(), rest);
    lemma_replay_of_valid_part(deps_log::empty_log(), rest);
    let n = 16 + r.valid as int;
    let cut = data.take(n);
    assert(cut.skip(16) =~= rest.take(r.valid as int));
    assert(cut.take(12) =~= data.take(12));
    assert(cut.subrange(12, 16) =~= data.subrange(12, 16));
}

/// A shorter piece of a log file holds no other paths than the whole file: its
/// paths are the first ones, with the same numbers.
proof fn lemma_replay_grows(log: LogView, rest: Seq<u8>)
    ensures
        log.nodes.is_prefix_of(deps_log::replay(log, rest).log.nodes),
        log.entries.dom().subset_of(deps_log::replay(log, rest).log.entries.dom()),
    decreases rest.len(),
{
    let r = deps_log::replay(log, rest);
    if rest.len() > 0 && deps_log::first_record(rest) is Some && deps_log::applied(
        log,
        deps_log::first_record(rest)->Some_0.0,
        deps_log::first_record(rest)->Some_0.1,
    ) is Some {
        let (deps, payload) = deps_log::first_record(rest)->Some_0;
        let next = deps_log::applied(log, deps, payload)->Some_0;
        lemma_replay_grows(next, rest.skip(4 + payload.len() as int));
        assert(log.nodes =~= r.log.nodes.subrange(0, log.nodes.len() as int)) by {
            assert(next.nodes =~= r.log.nodes.subrange(0, next.nodes.len() as int));
            assert(log.nodes =~= next.nodes.subrange(0, log.nodes.len() as int));
        }
    } else {
        assert(log.nodes =~= r.log.nodes.subrange(0, log.nodes.len() as int));
    }
}

proof fn lemma_replay_of_shorter(log: LogView, a: Seq<u8>, b: Seq<u8>)
    ensures
        deps_log::replay(log, a).log.nodes.is_prefix_of(
            deps_log::replay(log, a + b).log.nodes,
        ),
        deps_log::replay(log, a).log.entries.dom().subset_of(
            deps_log::replay(log, a + b).log.entries.dom(),
        ),
    decreases a.len(),
{
    if a.len() > 0 && deps_log::first_record(a) is Some {
        lemma_first_record_of_prefix(a, b);
        let (deps, payload) = deps_log::first_record(a)->Some_0;
        let n = 4 + payload.len() as int;
        if let Some(next) = deps_log::applied(log, deps, payload) {
            assert((a + b).skip(n) =~= a.skip(n) + b);
            lemma_replay_of_shorter(next, a.skip(n), b);
        } else {
            lemma_replay_grows(log, a + b);
        }
    } else {
        lemma_replay_grows(log, a + b);
    }
}

/// Losing the end of a log file loses paths and outputs only from the end: what
/// a shorter file holds of them the longer one holds too.
pub proof fn law_shorter_log_holds_less(data: Seq<u8>, n: int)
    requires
        deps_log::has_header(data),
        16 <= n <= data.len(),
    ensures
        deps_log::loaded(data.take(n)).nodes.is_prefix_of(deps_log::loaded(data).nodes),
        deps_log::loaded(data.take(n)).entries.dom().subset_of(
            deps_log::loaded(data).entries.dom(),
        ),
{
    let cut = data.take(n);
    assert(cut.take(12) =~= data.take(12));
    assert(cut.subrange(12, 16) =~= data.subrange(12, 16));
    lemma_replay_of_shorter(deps_log::empty_log(), cut.skip(16), data.skip(n));
    assert(cut.skip(16) + data.skip(n) =~= data.skip(16));
}

/// Whether the record of a path gives the path back: where it has less than
/// three bytes of padding, its last byte is not zero.
pub open spec fn is_readable(path: Seq<char>) -> bool {
    let bytes = encode_utf8(path);
    bytes.len() > 0 && (deps_log::padding(bytes.len() as int) == 3 || bytes.last() != 0)
}

proof fn lemma_word(pre: Seq<u8>, x: u32, post: Seq<u8>)
    ensures
        deps_log::word_at(pre + spec_u32_to_le_bytes(x) + post, pre.len() as int) == x,
        spec_u32_to_le_bytes(x).len() == 4,
{
    lemma_auto_spec_u32_to_from_le_bytes();
    let s = pre + spec_u32_to_le_bytes(x) + post;
    assert(s.subrange(pre.len() as int, pre.len() as int + 4) =~= spec_u32_to_le_bytes(x));
}

proof fn lemma_without_padding(bytes: Seq<u8>, p: int, n: nat)
    requires
        0 <= p <= n,
        n == p || (bytes.len() > 0 && bytes.last() != 0),
    ensures
        deps_log::without_padding(bytes + deps_log::zeros(p), n) == bytes,
    decreases p,
{
    let s = bytes + deps_log::zeros(p);
    if p == 0 {
        assert(s =~= bytes);
    } else {
        assert(s.last() == 0);
        assert(s.drop_last() =~= bytes + deps_log::zeros(p - 1));
        lemma_without_padding(bytes, p - 1, (n - 1) as nat);
    }
}

/// Reading the record of a new path gives it the next number.
proof fn lemma_replay_path_record(log: LogView, path: Seq<char>)
    requires
        !log.nodes.contains(path),
        deps_log::is_encodable(path),
        is_readable(path),
    ensures
        deps_log::replay(log, deps_log::path_record(log.nodes.len(), path)) == (Replay {
            log: LogView { nodes: log.nodes.push(path), ..log },
            valid: deps_log::path_record(log.nodes.len(), path).len(),
            records: 0,
            clean: true,
        }),
{
    let k = log.nodes.len();
    let bytes = encode_utf8(path);
    let n = bytes.len() as int;
    let p = deps_log::padding(n);
    let size = n + p + 4;
    let head = spec_u32_to_le_bytes(size as u32);
    let tail = spec_u32_to_le_bytes(deps_log::checksum(k));
    let record = deps_log::path_record(k, path);
    let payload = bytes + deps_log::zeros(p) + tail;
    lemma_auto_spec_u32_to_from_le_bytes();
    assert(record =~= head + payload);
    assert(seq![] + head + payload =~= head + payload);
    lemma_word(seq![], size as u32, payload);
    assert(payload.len() == size);
    assert(record.subrange(4, 4 + size) =~= payload);
    assert(deps_log::first_record(record) == Some((false, payload)));
    lemma_word(bytes + deps_log::zeros(p), deps_log::checksum(k), seq![]);
    assert(bytes + deps_log::zeros(p) + tail + Seq::<u8>::empty() =~= payload);
    assert(payload.take(size - 4) =~= bytes + deps_log::zeros(p));
    lemma_without_padding(bytes, p, 3);
    encode_utf8_valid_utf8(path);
    encode_utf8_decode_utf8(path);
    assert(record.skip(4 + size) =~= seq![]);
    assert(deps_log::replay(
        LogView { nodes: log.nodes.push(path), ..log },
        record.skip(4 + size),
    ).clean);
}

/// Reading the records of new paths gives them numbers.
proof fn lemma_replay_interned(log: LogView, list: Seq<Seq<char>>, i: int)
    requires
        0 <= i <= list.len(),
        forall|k: int| i <= k < list.len() ==> log.nodes.contains(list[k]) || is_readable(
            #[trigger] list[k],
        ),
    ensures
        ({
            let (nodes, bytes, ok) = deps_log::interned(log.nodes, list, i);
            deps_log::replay(log, bytes) == (Replay {
                log: LogView { nodes, ..log },
                valid: bytes.len(),
                records: 0,
                clean: true,
            })
        }),
    decreases list.len() - i,
{
    if i < list.len() {
        if log.nodes.contains(list[i]) {
            lemma_replay_interned(log, list, i + 1);
        } else if deps_log::is_encodable(list[i]) {
            let path = list[i];
            let next = LogView { nodes: log.nodes.push(path), ..log };
            let record = deps_log::path_record(log.nodes.len(), path);
            let rest = deps_log::interned(next.nodes, list, i + 1).1;
            assert forall|k: int| i + 1 <= k < list.len() implies next.nodes.contains(list[k])
                || is_readable(#[trigger] list[k]) by {
                if log.nodes.contains(list[k]) {
                    let x = choose|x: int| 0 <= x < log.nodes.len() && log.nodes[x] == list[k];
                    assert(next.nodes[x] == list[k]);
                }
            }
            lemma_replay_path_record(log, path);
            lemma_replay_interned(next, list, i + 1);
            lemma_replay_concat(log, record, rest);
        }
    }
}

proof fn lemma_words_front(ids: Seq<u32>)
    requires
        ids.len() > 0,
    ensures
        deps_log::words(ids) == spec_u32_to_le_bytes(ids[0]) + deps_log::words(ids.drop_first()),
    decreases ids.len(),
{
    if ids.len() == 1 {
        assert(ids.drop_last() =~= seq![]);
        assert(ids.drop_first() =~= seq![]);
        assert(deps_log::words(ids) =~= spec_u32_to_le_bytes(ids[0]) + deps_log::words(
            ids.drop_first(),
        ));
    } else {
        lemma_words_front(ids.drop_last());
        assert(ids.drop_last().drop_first() =~= ids.drop_first().drop_last());
        assert(deps_log::words(ids) =~= spec_u32_to_le_bytes(ids[0]) + deps_log::words(
            ids.drop_first(),
        ));
    }
}

proof fn lemma_words_read_back(pre: Seq<u8>, ids: Seq<u32>)
    ensures
        deps_log::words_from(pre + deps_log::words(ids), pre.len() as int) == ids,
        deps_log::words(ids).len() == 4 * ids.len(),
    decreases ids.len(),
{
    let s = pre + deps_log::words(ids);
    if ids.len() == 0 {
        assert(deps_log::words_from(s, pre.len() as int) =~= ids);
    } else {
        lemma_words_front(ids);
        let rest = ids.drop_first();
        let head = spec_u32_to_le_bytes(ids[0]);
        lemma_word(pre, ids[0], deps_log::words(rest));
        assert(s =~= pre + head + deps_log::words(rest));
        lemma_words_read_back(pre + head, rest);
        assert(seq![ids[0]] + rest =~= ids);
    }
}

proof fn lemma_halves(mtime: u64)
    ensures
        deps_log::time_of(deps_log::low_half(mtime), deps_log::high_half(mtime)) == mtime,
{
}

/// Reading a dependency record gives the entry.
proof fn lemma_replay_deps_record(log: LogView, output: Seq<char>, entry: EntryView)
    requires
        log.nodes.len() <= 0x1_0000_0000,
        log.nodes.contains(output),
        forall|k: int|
            0 <= k < entry.inputs.len() ==> log.nodes.contains(#[trigger] entry.inputs[k]),
        12 + 4 * entry.inputs.len() <= MAX_RECORD_SIZE,
    ensures
        ({
            let record = deps_log::deps_record(
                deps_log::number_of(log.nodes, output),
                entry.mtime,
                deps_log::numbers_of(log.nodes, entry.inputs),
            );
            deps_log::replay(log, record) == (Replay {
                log: LogView { entries: log.entries.insert(output, entry), ..log },
                valid: record.len(),
                records: 1,
                clean: true,
            })
        }),
{
    let nodes = log.nodes;
    let id = deps_log::number_of(nodes, output);
    let ids = deps_log::numbers_of(nodes, entry.inputs);
    let (low, high) = (deps_log::low_half(entry.mtime), deps_log::high_half(entry.mtime));
    let size = 12 + 4 * ids.len() as int;
    let word = (0x8000_0000u32 + size) as u32;
    let record = deps_log::deps_record(id, entry.mtime, ids);
    let (w0, w1, w2, w3) = (
        spec_u32_to_le_bytes(word),
        spec_u32_to_le_bytes(id),
        spec_u32_to_le_bytes(low),
        spec_u32_to_le_bytes(high),
    );
    let rest = deps_log::words(ids);
    let payload = w1 + w2 + w3 + rest;
    lemma_auto_spec_u32_to_from_le_bytes();
    lemma_words_read_back(w1 + w2 + w3, ids);
    assert(record =~= w0 + payload);
    lemma_word(seq![], word, payload);
    assert(Seq::<u8>::empty() + w0 + payload =~= record);
    assert(payload.len() == size);
    assert(record.subrange(4, 4 + size) =~= payload);
    assert(deps_log::first_record(record) == Some((true, payload)));
    lemma_word(seq![], id, w2 + w3 + rest);
    assert(Seq::<u8>::empty() + w1 + (w2 + w3 + rest) =~= payload);
    lemma_word(w1, low, w3 + rest);
    assert(w1 + w2 + (w3 + rest) =~= payload);
    lemma_word(w1 + w2, high, rest);
    lemma_halves(entry.mtime);
    let at = nodes.index_of(output);
    assert(nodes[at] == output);
    assert(id == at);
    assert forall|i: int| 0 <= i < ids.len() implies (#[trigger] ids[i]) < nodes.len()
        && nodes[ids[i] as int] == entry.inputs[i] by {
        assert(nodes.contains(entry.inputs[i]));
        let x = nodes.index_of(entry.inputs[i]);
        assert(nodes[x] == entry.inputs[i]);
    }
    assert(deps_log::paths_of(nodes, ids) =~= entry.inputs);
    let next = LogView { entries: log.entries.insert(output, entry), ..log };
    assert(deps_log::with_deps(log, payload) == Some(next));
    assert(record.skip(4 + size) =~= seq![]);
    assert(deps_log::replay(next, record.skip(4 + size)).clean);
}

/// Whether the paths of an entry that a log does not know yet can be read back.
pub open spec fn are_readable(log: LogView, output: Seq<char>, entry: EntryView) -> bool {
    &&& log.nodes.contains(output) || is_readable(output)
    &&& forall|k: int|
        0 <= k < entry.inputs.len() ==> log.nodes.contains(entry.inputs[k]) || is_readable(
            #[trigger] entry.inputs[k],
        )
}

proof fn lemma_recorded(log: LogView, output: Seq<char>, entry: EntryView)
    requires
        are_readable(log, output, entry),
        deps_log::recorded(log, output, entry).0.nodes.len() <= 0x1_0000_0000,
    ensures
        ({
            let (next, bytes, ok) = deps_log::recorded(log, output, entry);
            let r = deps_log::replay(log, bytes);
            r.log == next && r.clean && r.valid == bytes.len()
        }),
{
    if log.entries.contains_key(output) && log.entries[output] == entry {
    } else {
        let list = seq![output] + entry.inputs;
        let (nodes, bytes, ok) = deps_log::interned(log.nodes, list, 0);
        assert forall|k: int| 0 <= k < list.len() implies log.nodes.contains(list[k])
            || is_readable(#[trigger] list[k]) by {
            if k > 0 {
                assert(list[k] == entry.inputs[k - 1]);
            }
        }
        lemma_replay_interned(log, list, 0);
        let grown = LogView { nodes, ..log };
        if ok && 12 + 4 * entry.inputs.len() <= MAX_RECORD_SIZE {
            deps_log::lemma_interned_holds(log.nodes, list, 0);
            assert(nodes.contains(list[0]));
            assert forall|k: int| 0 <= k < entry.inputs.len() implies nodes.contains(
                #[trigger] entry.inputs[k],
            ) by {
                assert(list[k + 1] == entry.inputs[k]);
                assert(nodes.contains(list[k + 1]));
            }
            lemma_replay_deps_record(grown, output, entry);
            let record = deps_log::deps_record(
                deps_log::number_of(nodes, output),
                entry.mtime,
                deps_log::numbers_of(nodes, entry.inputs),
            );
            lemma_replay_concat(log, bytes, record);
        }
    }
}

/// What recording an entry appends to a whole log file is read back: the file
/// then holds what the log holds.
pub proof fn law_recorded_entry_is_read_back(data: Seq<u8>, output: Seq<char>, entry: EntryView)
    requires
        deps_log::has_header(data),
        deps_log::repair(data) is Keep || deps_log::repair(data) is Compact,
        are_readable(deps_log::loaded(data), output, entry),
        deps_log::recorded(deps_log::loaded(data), output, entry).0.nodes.len() <= 0x1_0000_0000,
    ensures
        ({
            let (next, bytes, ok) = deps_log::recorded(deps_log::loaded(data), output, entry);
            &&& deps_log::has_header(data + bytes)
            &&& deps_log::loaded(data + bytes) == next
            &&& !(deps_log::repair(data + bytes) is Truncate)
            &&& ok ==> deps_log::loaded(data + bytes).entries[output] == entry
        }),
{
    let log = deps_log::loaded(data);
    let (next, bytes, ok) = deps_log::recorded(log, output, entry);
    let rest = data.skip(16);
    lemma_recorded(log, output, entry);
    lemma_replay_concat(deps_log::empty_log(), rest, bytes);
    assert((data + bytes).skip(16) =~= rest + bytes);
    assert((data + bytes).take(12) =~= data.take(12));
    assert((data + bytes).subrange(12, 16) =~= data.subrange(12, 16));
}

/// Recording an entry that the log holds writes nothing.
pub proof fn law_recording_again_writes_nothing(
    log: LogView,
    output: Seq<char>,
    entry: EntryView,
)
    requires
        deps_log::recorded(log, output, entry).2,
    ensures
        ({
            let next = deps_log::recorded(log, output, entry).0;
            deps_log::recorded(next, output, entry) == (next, Seq::<u8>::empty(), true)
        }),
{
}

/// A new log file holds nothing, and is whole.
pub proof fn law_header_is_an_empty_log()
    ensures
        deps_log::has_header(deps_log::header()),
        deps_log::loaded(deps_log::header()) == deps_log::empty_log(),
        deps_log::repair(deps_log::header()) is Keep,
{
    let h = deps_log::header();
    deps_log::lemma_signature();
    lemma_word(deps_log::signature(), 4, seq![]);
    assert(deps_log::signature() + spec_u32_to_le_bytes(4) + Seq::<u8>::empty() =~= h);
    assert(h.take(12) =~= deps_log::signature());
    assert(h.skip(16) =~= seq![]);
}

/// Whether every path of a log can be read back.
pub open spec fn is_readable_log(log: LogView) -> bool {
    forall|output: Seq<char>|
        log.entries.contains_key(output) && log.nodes.contains(output) ==> is_readable(output)
            && forall|k: int|
            0 <= k < log.entries[output].inputs.len() ==> is_readable(
                #[trigger] (#[trigger] log.entries[output]).inputs[k],
            )
}

proof fn lemma_rewritten(
    old_log: LogView,
    new: LogView,
    outputs: Seq<Seq<char>>,
    live: spec_fn(Seq<char>) -> bool,
    i: int,
)
    requires
        0 <= i <= outputs.len(),
        is_readable_log(old_log),
        forall|k: int|
            0 <= k < outputs.len() ==> old_log.entries.contains_key(#[trigger] outputs[k])
                && old_log.nodes.contains(outputs[k]),
        deps_log::rewritten(old_log, new, outputs, live, i).2,
        deps_log::rewritten(old_log, new, outputs, live, i).0.nodes.len() <= 0x1_0000_0000,
    ensures
        ({
            let (last, bytes, ok) = deps_log::rewritten(old_log, new, outputs, live, i);
            let r = deps_log::replay(new, bytes);
            &&& new.nodes.is_prefix_of(last.nodes)
            &&& r.log == last
            &&& r.clean
            &&& forall|path: Seq<char>|
                #![trigger last.entries.contains_key(path)]
                last.entries.contains_key(path) <==> new.entries.contains_key(path) || (live(
                    path,
                ) && outputs.skip(i).contains(path))
            &&& forall|path: Seq<char>|
                #![trigger last.entries[path]]
                live(path) && outputs.skip(i).contains(path) ==> last.entries[path]
                    == old_log.entries[path]
            &&& forall|path: Seq<char>|
                #![trigger last.entries[path]]
                new.entries.contains_key(path) && !(live(path) && outputs.skip(i).contains(path))
                    ==> last.entries[path] == new.entries[path]
        }),
    decreases outputs.len() - i,
{
    let (last, bytes, ok) = deps_log::rewritten(old_log, new, outputs, live, i);
    if i == outputs.len() {
        assert(outputs.skip(i) =~= seq![]);
        assert(new.nodes =~= last.nodes.subrange(0, new.nodes.len() as int));
    } else {
        let output = outputs[i];
        let here = outputs.skip(i);
        let later = outputs.skip(i + 1);
        assert(here[0] == output);
        assert forall|path: Seq<char>|
            #![trigger here.contains(path)]
            here.contains(path) <==> path == output || later.contains(path) by {
            if later.contains(path) {
                let k = choose|k: int| 0 <= k < later.len() && later[k] == path;
                assert(here[k + 1] == path);
            }
            if here.contains(path) && path != output {
                let k = choose|k: int| 0 <= k < here.len() && here[k] == path;
                assert(later[k - 1] == path);
            }
        }
        if !live(output) {
            lemma_rewritten(old_log, new, outputs, live, i + 1);
        } else {
            let entry = old_log.entries[output];
            let (next, first, done) = deps_log::recorded(new, output, entry);
            let rest = deps_log::rewritten(old_log, next, outputs, live, i + 1);
            lemma_rewritten(old_log, next, outputs, live, i + 1);
            assert(are_readable(new, output, entry));
            assert(next.nodes.len() <= last.nodes.len());
            lemma_recorded(new, output, entry);
            lemma_replay_concat(new, first, rest.1);
            assert(new.nodes.is_prefix_of(next.nodes)) by {
                deps_log::lemma_interned_holds(new.nodes, seq![output] + entry.inputs, 0);
                assert(new.nodes =~= new.nodes.subrange(0, new.nodes.len() as int));
            }
            assert(new.nodes =~= last.nodes.subrange(0, new.nodes.len() as int)) by {
                assert(next.nodes =~= last.nodes.subrange(0, next.nodes.len() as int));
            }
            assert(next.entries =~= new.entries.insert(output, entry));
        }
    }
}

/// A compacted log file is whole, and holds the live entries of the log and no
/// others.
pub proof fn law_compaction_keeps_live_entries(log: LogView, live: spec_fn(Seq<char>) -> bool)
    requires
        is_readable_log(log),
        deps_log::compacted(log, live) is Some,
        deps_log::rewritten(
            log,
            deps_log::empty_log(),
            deps_log::outputs_in_order(log, 0),
            live,
            0,
        ).0.nodes.len() <= 0x1_0000_0000,
    ensures
        ({
            let data = deps_log::compacted(log, live)->Some_0;
            let new = deps_log::loaded(data);
            &&& deps_log::has_header(data)
            &&& !(deps_log::repair(data) is Truncate)
            &&& new == deps_log::rewritten(
                log,
                deps_log::empty_log(),
                deps_log::outputs_in_order(log, 0),
                live,
                0,
            ).0
            &&& forall|path: Seq<char>|
                #![trigger new.entries.contains_key(path)]
                new.entries.contains_key(path) <==> log.entries.contains_key(path)
                    && log.nodes.contains(path) && live(path)
            &&& forall|path: Seq<char>|
                #![trigger new.entries[path]]
                new.entries.contains_key(path) ==> new.entries[path] == log.entries[path]
        }),
{
    let empty = deps_log::empty_log();
    let order = deps_log::outputs_in_order(log, 0);
    let (last, bytes, ok) = deps_log::rewritten(log, empty, order, live, 0);
    deps_log::lemma_outputs_have_entries(log, 0);
    assert(log.nodes.skip(0) =~= log.nodes);
    assert(order.skip(0) =~= order);
    assert forall|k: int| 0 <= k < order.len() implies log.entries.contains_key(
        #[trigger] order[k],
    ) && log.nodes.contains(order[k]) by {
        assert(order.contains(order[k]));
    }
    lemma_rewritten(log, empty, order, live, 0);
    law_header_is_an_empty_log();
    deps_log::lemma_signature();
    let data = deps_log::header() + bytes;
    let h = deps_log::header();
    assert(data.skip(16) =~= bytes);
    assert(data.take(12) =~= h.take(12));
    assert(data.subrange(12, 16) =~= h.subrange(12, 16));
}

proof fn lemma_scalar_ends(scalar: u32)
    requires
        scalar != 0,
        is_scalar(scalar),
    ensures
        encode_scalar(scalar).len() > 0,
        encode_scalar(scalar).last() != 0,
{
    assert(0x80u8 | (scalar & 0x3F) as u8 != 0) by (bit_vector);
    assert(scalar <= 0x7F && scalar != 0 ==> (scalar & 0x7F) as u8 != 0) by (bit_vector);
}

proof fn lemma_bytes_end(path: Seq<char>)
    requires
        path.len() > 0,
        path.last() != '\0',
    ensures
        encode_utf8(path).len() > 0,
        encode_utf8(path).last() != 0,
    decreases path.len(),
{
    char_is_scalar(path[0]);
    let rest = path.drop_first();
    if path.len() == 1 {
        let c = path[0];
        char_u32_cast(c, c as u32);
        assert(c != '\0');
        assert(c as u32 != 0) by {
            if c as u32 == 0 {
                char_u32_cast(c, 0);
            }
        }
        lemma_scalar_ends(c as u32);
        assert(encode_utf8(rest) =~= seq![]);
        assert(encode_utf8(path) =~= encode_scalar(path[0] as u32));
    } else {
        assert(rest.last() == path.last());
        lemma_bytes_end(rest);
        assert(encode_utf8(path).last() == encode_utf8(rest).last());
    }
}

/// Whether a path has a last character that is not NUL.
pub open spec fn ends_well(path: Seq<char>) -> bool {
    path.len() > 0 && path.last() != '\0'
}

/// A path that does not end in NUL is read back as it was written.
pub proof fn law_ordinary_path_is_readable(path: Seq<char>)
    requires
        ends_well(path),
    ensures
        is_readable(path),
{
    lemma_bytes_end(path);
}

/// An output and what is recorded of it.
pub struct Recording {
    pub output: Seq<char>,
    pub entry: EntryView,
}

/// What the first `n` recordings of a list do to a log: the log after them, what is
/// appended to the file, and whether each was recorded.
pub open spec fn recorded_all(log: LogView, list: Seq<Recording>, n: int) -> (
    LogView,
    Seq<u8>,
    bool,
)
    decreases n,
{
    if n <= 0 {
        (log, seq![], true)
    } else {
        let (before, bytes, ok) = recorded_all(log, list, n - 1);
        let (next, more, fine) = deps_log::recorded(
            before,
            list[n - 1].output,
            list[n - 1].entry,
        );
        (next, bytes + more, ok && fine)
    }
}

/// The last entry of an output among the first `n` recordings of a list.
pub open spec fn last_entry(list: Seq<Recording>, output: Seq<char>, n: int) -> Option<EntryView>
    decreases n,
{
    if n <= 0 {
        None
    } else if list[n - 1].output == output {
        Some(list[n - 1].entry)
    } else {
        last_entry(list, output, n - 1)
    }
}

proof fn lemma_recording_grows(log: LogView, output: Seq<char>, entry: EntryView)
    ensures
        log.nodes.len() <= deps_log::recorded(log, output, entry).0.nodes.len(),
{
    if !(log.entries.contains_key(output) && log.entries[output] == entry) {
        deps_log::lemma_interned_holds(log.nodes, seq![output] + entry.inputs, 0);
    }
}

/// Whether the paths of a recording can be read back.
pub open spec fn is_readable_recording(r: Recording) -> bool {
    &&& is_readable(r.output)
    &&& forall|k: int| 0 <= k < r.entry.inputs.len() ==> is_readable(#[trigger] r.entry.inputs[k])
}

/// A log file that any sequence of recordings has written to an empty one is whole, and
/// what is read back from it is the last entry of each output, with its time and its
/// inputs in their order.
pub proof fn law_recordings_are_read_back(list: Seq<Recording>, n: int)
    requires
        0 <= n <= list.len(),
        forall|i: int| 0 <= i < list.len() ==> is_readable_recording(#[trigger] list[i]),
        recorded_all(deps_log::empty_log(), list, n).0.nodes.len() <= 0x1_0000_0000,
    ensures
        ({
            let (log, bytes, ok) = recorded_all(deps_log::empty_log(), list, n);
            let data = deps_log::header() + bytes;
            &&& deps_log::loaded(data) == log
            &&& deps_log::repair(data) is Keep || deps_log::repair(data) is Compact
            &&& ok ==> forall|output: Seq<char>|
                #![trigger log.entries.contains_key(output)]
                match last_entry(list, output, n) {
                    Some(entry) => log.entries.contains_key(output) && log.entries[output] == entry,
                    None => !log.entries.contains_key(output),
                }
        }),
    decreases n,
{
    law_header_is_an_empty_log();
    let start = deps_log::empty_log();
    let (log, bytes, ok) = recorded_all(start, list, n);
    if n == 0 {
        assert(deps_log::header() + bytes =~= deps_log::header());
    } else {
        let (before, written, fine) = recorded_all(start, list, n - 1);
        let r = list[n - 1];
        lemma_recording_grows(before, r.output, r.entry);
        law_recordings_are_read_back(list, n - 1);
        assert(is_readable_recording(list[n - 1]));
        let data = deps_log::header() + written;
        assert(deps_log::has_header(data));
        law_recorded_entry_is_read_back(data, r.output, r.entry);
        let more = deps_log::recorded(before, r.output, r.entry).1;
        assert(data + more =~= deps_log::header() + bytes);
        if ok {
            assert forall|output: Seq<char>|
                #![trigger log.entries.contains_key(output)]
                match last_entry(list, output, n) {
                    Some(entry) => log.entries.contains_key(output) && log.entries[output] == entry,
                    None => !log.entries.contains_key(output),
                } by {
                match last_entry(list, output, n - 1) {
                    Some(entry) => assert(before.entries.contains_key(output)
                        && before.entries[output] == entry),
                    None => assert(!before.entries.contains_key(output)),
                }
            }
        }
    }
}

} // verus!
