//! The order of the paths in a dependency log, and what compaction makes of it.
use crate::deps_log;
use crate::deps_log::EntryView;
use crate::deps_log::LogView;
use crate::deps_log_laws;
use vstd::prelude::*;

verus! {

/// Whether `x` occurs in `list`, and no `y` occurs up to there.
pub open spec fn precedes(list: Seq<Seq<char>>, x: Seq<char>, y: Seq<char>) -> bool {
    exists|p: int|
        0 <= p < list.len() && #[trigger] list[p] == x && forall|q: int|
            0 <= q <= p ==> #[trigger] list[q] != y
}

/// `nodes` and behind them, once each and in their order, the paths of `list`
/// that are not yet among them.
pub open spec fn extended(nodes: Seq<Seq<char>>, list: Seq<Seq<char>>) -> Seq<Seq<char>>
    decreases list.len(),
{
    if list.len() == 0 {
        nodes
    } else {
        let before = extended(nodes, list.drop_last());
        if before.contains(list.last()) {
            before
        } else {
            before.push(list.last())
        }
    }
}

/// The live ones of `outputs` from `i` on, in their order.
pub open spec fn kept(
    outputs: Seq<Seq<char>>,
    live: spec_fn(Seq<char>) -> bool,
    i: int,
) -> Seq<Seq<char>>
    decreases outputs.len() - i,
{
    if i < 0 || i >= outputs.len() {
        seq![]
    } else if live(outputs[i]) {
        seq![outputs[i]] + kept(outputs, live, i + 1)
    } else {
        kept(outputs, live, i + 1)
    }
}

/// The paths that the entries of `outputs` name: each output, and behind it its
/// inputs.
pub open spec fn mentioned(log: LogView, outputs: Seq<Seq<char>>) -> Seq<Seq<char>>
    decreases outputs.len(),
{
    if outputs.len() == 0 {
        seq![]
    } else {
        seq![outputs[0]] + log.entries[outputs[0]].inputs + mentioned(log, outputs.skip(1))
    }
}

/// Every output is named.
proof fn lemma_mentioned_holds(log: LogView, outputs: Seq<Seq<char>>)
    ensures
        forall|k: int|
            0 <= k < outputs.len() ==> mentioned(log, outputs).contains(#[trigger] outputs[k]),
    decreases outputs.len(),
{
    if outputs.len() > 0 {
        let rest = outputs.skip(1);
        let names = mentioned(log, outputs);
        let inputs = log.entries[outputs[0]].inputs;
        lemma_mentioned_holds(log, rest);
        assert forall|k: int| 0 <= k < outputs.len() implies names.contains(
            #[trigger] outputs[k],
        ) by {
            if k == 0 {
                assert(names[0] == outputs[0]);
            } else {
                let later = mentioned(log, rest);
                assert(rest[k - 1] == outputs[k]);
                let m = choose|m: int| 0 <= m < later.len() && later[m] == rest[k - 1];
                assert(names[1 + inputs.len() + m] == outputs[k]);
            }
        }
    }
}

proof fn lemma_extended_concat(nodes: Seq<Seq<char>>, a: Seq<Seq<char>>, b: Seq<Seq<char>>)
    ensures
        extended(nodes, a + b) == extended(extended(nodes, a), b),
    decreases b.len(),
{
    if b.len() == 0 {
        assert(a + b =~= a);
    } else {
        assert((a + b).drop_last() =~= a + b.drop_last());
        lemma_extended_concat(nodes, a, b.drop_last());
    }
}

proof fn lemma_extended_front(nodes: Seq<Seq<char>>, x: Seq<char>, rest: Seq<Seq<char>>)
    ensures
        extended(nodes, seq![x] + rest) == extended(
            if nodes.contains(x) {
                nodes
            } else {
                nodes.push(x)
            },
            rest,
        ),
{
    lemma_extended_concat(nodes, seq![x], rest);
    assert(seq![x].drop_last() =~= seq![]);
    reveal_with_fuel(extended, 2);
}

proof fn lemma_extended_holds(nodes: Seq<Seq<char>>, list: Seq<Seq<char>>)
    ensures
        nodes.no_duplicates() ==> extended(nodes, list).no_duplicates(),
        forall|x: Seq<char>| #[trigger]
            extended(nodes, list).contains(x) <==> nodes.contains(x) || list.contains(x),
    decreases list.len(),
{
    let all = extended(nodes, list);
    if list.len() > 0 {
        let before = extended(nodes, list.drop_last());
        let last = list.last();
        lemma_extended_holds(nodes, list.drop_last());
        assert forall|x: Seq<char>| #[trigger] all.contains(x) <==> nodes.contains(x)
            || list.contains(x) by {
            assert(list =~= list.drop_last().push(last));
            if all.contains(x) && x != last {
                let k = choose|k: int| 0 <= k < all.len() && all[k] == x;
                assert(before[k] == x);
            }
            if before.contains(x) {
                let k = choose|k: int| 0 <= k < before.len() && before[k] == x;
                assert(all[k] == x);
            }
            if list.drop_last().contains(x) {
                let k = choose|k: int| 0 <= k < list.drop_last().len() && list.drop_last()[k] == x;
                assert(list[k] == x);
            }
            if list.contains(x) && x != last {
                let k = choose|k: int| 0 <= k < list.len() && list[k] == x;
                assert(list.drop_last()[k] == x);
            }
            assert(list[list.len() - 1] == last);
            if !before.contains(last) {
                assert(all[all.len() - 1] == last);
            }
        }
    }
}

/// Numbering the paths of a list extends the paths by it.
proof fn lemma_interned_extends(nodes: Seq<Seq<char>>, list: Seq<Seq<char>>, i: int)
    requires
        0 <= i <= list.len(),
        deps_log::interned(nodes, list, i).2,
    ensures
        deps_log::interned(nodes, list, i).0 == extended(nodes, list.skip(i)),
    decreases list.len() - i,
{
    if i < list.len() {
        assert(list.skip(i) =~= seq![list[i]] + list.skip(i + 1));
        lemma_extended_front(nodes, list[i], list.skip(i + 1));
        if nodes.contains(list[i]) {
            lemma_interned_extends(nodes, list, i + 1);
        } else {
            lemma_interned_extends(nodes.push(list[i]), list, i + 1);
        }
    } else {
        assert(list.skip(i) =~= seq![]);
    }
}

/// Writing entries extends the paths by those that the entries name.
proof fn lemma_rewritten_extends(
    old_log: LogView,
    new: LogView,
    outputs: Seq<Seq<char>>,
    live: spec_fn(Seq<char>) -> bool,
    i: int,
)
    requires
        0 <= i <= outputs.len(),
        outputs.no_duplicates(),
        forall|k: int|
            i <= k < outputs.len() ==> !new.entries.contains_key(#[trigger] outputs[k]),
        deps_log::rewritten(old_log, new, outputs, live, i).2,
    ensures
        deps_log::rewritten(old_log, new, outputs, live, i).0.nodes == extended(
            new.nodes,
            mentioned(old_log, kept(outputs, live, i)),
        ),
    decreases outputs.len() - i,
{
    if i < outputs.len() {
        if live(outputs[i]) {
            let entry = old_log.entries[outputs[i]];
            let (next, bytes, ok) = deps_log::recorded(new, outputs[i], entry);
            let rest = kept(outputs, live, i + 1);
            let names = seq![outputs[i]] + entry.inputs;
            lemma_interned_extends(new.nodes, names, 0);
            assert(names.skip(0) =~= names);
            lemma_rewritten_extends(old_log, next, outputs, live, i + 1);
            assert(kept(outputs, live, i).skip(1) =~= rest);
            lemma_extended_concat(new.nodes, names, mentioned(old_log, rest));
        } else {
            lemma_rewritten_extends(old_log, new, outputs, live, i + 1);
        }
    }
}

/// Numbers are given in the order in which paths are first named.
proof fn lemma_extended_precedes(list: Seq<Seq<char>>, x: Seq<char>, y: Seq<char>)
    requires
        precedes(list, x, y),
    ensures
        precedes(extended(seq![], list), x, y),
    decreases list.len(),
{
    let p = choose|p: int|
        0 <= p < list.len() && #[trigger] list[p] == x && forall|q: int|
            0 <= q <= p ==> #[trigger] list[q] != y;
    let all = extended(seq![], list);
    let front = list.drop_last();
    let before = extended(seq![], front);
    if p < front.len() {
        assert(front[p] == x);
        assert forall|q: int| 0 <= q <= p implies #[trigger] front[q] != y by {
            assert(list[q] != y);
        }
        lemma_extended_precedes(front, x, y);
        let r = choose|r: int|
            0 <= r < before.len() && #[trigger] before[r] == x && forall|q: int|
                0 <= q <= r ==> #[trigger] before[q] != y;
        assert(all[r] == x);
        assert forall|q: int| 0 <= q <= r implies #[trigger] all[q] != y by {
            assert(before[q] != y);
        }
    } else {
        lemma_extended_holds(seq![], list);
        assert(list.contains(x));
        assert(all.contains(x));
        assert(!list.contains(y));
        assert(!all.contains(y));
        let r = choose|r: int| 0 <= r < all.len() && all[r] == x;
        assert(all[r] == x);
    }
}

proof fn lemma_outputs_precede(log: LogView, i: int, x: Seq<char>, y: Seq<char>)
    requires
        0 <= i <= log.nodes.len(),
        log.entries.contains_key(x),
        precedes(log.nodes.skip(i), x, y),
    ensures
        precedes(deps_log::outputs_in_order(log, i), x, y),
    decreases log.nodes.len() - i,
{
    let nodes = log.nodes.skip(i);
    let p = choose|p: int|
        0 <= p < nodes.len() && #[trigger] nodes[p] == x && forall|q: int|
            0 <= q <= p ==> #[trigger] nodes[q] != y;
    let list = deps_log::outputs_in_order(log, i);
    let rest = deps_log::outputs_in_order(log, i + 1);
    assert(nodes[0] == log.nodes[i]);
    assert(nodes[0] != y);
    if p == 0 {
        assert(list[0] == x);
    } else {
        let later = log.nodes.skip(i + 1);
        assert(later[p - 1] == x);
        assert forall|q: int| 0 <= q <= p - 1 implies #[trigger] later[q] != y by {
            assert(nodes[q + 1] != y);
        }
        lemma_outputs_precede(log, i + 1, x, y);
        let r = choose|r: int|
            0 <= r < rest.len() && #[trigger] rest[r] == x && forall|q: int|
                0 <= q <= r ==> #[trigger] rest[q] != y;
        if log.entries.contains_key(log.nodes[i]) {
            assert(list[r + 1] == x);
            assert forall|q: int| 0 <= q <= r + 1 implies #[trigger] list[q] != y by {
                if q > 0 {
                    assert(rest[q - 1] != y);
                }
            }
        }
    }
}

proof fn lemma_one_precedes(list: Seq<Seq<char>>, x: Seq<char>, y: Seq<char>)
    requires
        x != y,
        list.contains(x) || list.contains(y),
    ensures
        precedes(list, x, y) || precedes(list, y, x),
    decreases list.len(),
{
    let n = list.len() - 1;
    let front = list.drop_last();
    if front.contains(x) || front.contains(y) {
        lemma_one_precedes(front, x, y);
        let (a, b) = if precedes(front, x, y) {
            (x, y)
        } else {
            (y, x)
        };
        let p = choose|p: int|
            0 <= p < front.len() && #[trigger] front[p] == a && forall|q: int|
                0 <= q <= p ==> #[trigger] front[q] != b;
        assert(list[p] == a);
        assert forall|q: int| 0 <= q <= p implies #[trigger] list[q] != b by {
            assert(front[q] != b);
        }
        assert(precedes(list, a, b));
    } else {
        assert forall|q: int| 0 <= q < n implies #[trigger] list[q] != x && list[q] != y by {
            assert(front[q] == list[q]);
        }
        assert(list[n] == x || list[n] == y);
        if list[n] == x {
            assert(precedes(list, x, y));
        } else {
            assert(precedes(list, y, x));
        }
    }
}

proof fn lemma_same_order(a: Seq<Seq<char>>, b: Seq<Seq<char>>)
    requires
        a.no_duplicates(),
        b.no_duplicates(),
        forall|x: Seq<char>| #[trigger] a.contains(x) <==> b.contains(x),
        forall|i: int, j: int|
            #![trigger a[i], a[j]]
            0 <= i < j < a.len() ==> precedes(b, a[i], a[j]),
    ensures
        a == b,
    decreases a.len(),
{
    if a.len() == 0 {
        if b.len() > 0 {
            assert(b.contains(b[0]));
            assert(a.contains(b[0]));
        }
        assert(a =~= b);
    } else {
        assert(a.contains(a[0]));
        assert(b.contains(a[0]));
        assert(b.contains(b[0]));
        assert(a.contains(b[0]));
        let j = choose|j: int| 0 <= j < a.len() && a[j] == b[0];
        if j > 0 {
            assert(precedes(b, a[0], a[j]));
            let p = choose|p: int|
                0 <= p < b.len() && #[trigger] b[p] == a[0] && forall|q: int|
                    0 <= q <= p ==> #[trigger] b[q] != a[j];
            assert(b[0] != a[j]);
        }
        let a1 = a.skip(1);
        let b1 = b.skip(1);
        assert forall|x: Seq<char>| #[trigger] a1.contains(x) <==> b1.contains(x) by {
            if a1.contains(x) {
                let k = choose|k: int| 0 <= k < a1.len() && a1[k] == x;
                assert(a[k + 1] == x);
                assert(a.contains(x));
                let m = choose|m: int| 0 <= m < b.len() && b[m] == x;
                assert(b1[m - 1] == x);
            }
            if b1.contains(x) {
                let k = choose|k: int| 0 <= k < b1.len() && b1[k] == x;
                assert(b[k + 1] == x);
                assert(b.contains(x));
                assert(a.contains(x));
                let m = choose|m: int| 0 <= m < a.len() && a[m] == x;
                assert(a1[m - 1] == x);
            }
        }
        assert forall|i: int, j: int|
            #![trigger a1[i], a1[j]]
            0 <= i < j < a1.len() implies precedes(b1, a1[i], a1[j]) by {
            assert(a1[i] == a[i + 1]);
            assert(a1[j] == a[j + 1]);
            assert(precedes(b, a[i + 1], a[j + 1]));
            let p = choose|p: int|
                0 <= p < b.len() && #[trigger] b[p] == a[i + 1] && forall|q: int|
                    0 <= q <= p ==> #[trigger] b[q] != a[j + 1];
            assert(b1[p - 1] == a1[i]);
            assert forall|q: int| 0 <= q <= p - 1 implies #[trigger] b1[q] != a1[j] by {
                assert(b[q + 1] != a[j + 1]);
            }
        }
        lemma_same_order(a1, b1);
        assert(a =~= seq![a[0]] + a1);
        assert(b =~= seq![b[0]] + b1);
    }
}

proof fn lemma_kept(outputs: Seq<Seq<char>>, live: spec_fn(Seq<char>) -> bool, i: int)
    requires
        0 <= i <= outputs.len(),
        outputs.no_duplicates(),
    ensures
        kept(outputs, live, i).no_duplicates(),
        forall|x: Seq<char>| #[trigger]
            kept(outputs, live, i).contains(x) <==> live(x) && exists|k: int|
                i <= k < outputs.len() && #[trigger] outputs[k] == x,
    decreases outputs.len() - i,
{
    let list = kept(outputs, live, i);
    if i < outputs.len() {
        lemma_kept(outputs, live, i + 1);
        let rest = kept(outputs, live, i + 1);
        let first = outputs[i];
        assert forall|x: Seq<char>| #[trigger] list.contains(x) <==> live(x) && exists|k: int|
            i <= k < outputs.len() && #[trigger] outputs[k] == x by {
            if list.contains(x) {
                let k = choose|k: int| 0 <= k < list.len() && list[k] == x;
                if live(first) {
                    if k > 0 {
                        assert(rest[k - 1] == x);
                        assert(rest.contains(x));
                    }
                } else {
                    assert(rest.contains(x));
                }
            }
            if rest.contains(x) && live(first) {
                let k = choose|k: int| 0 <= k < rest.len() && rest[k] == x;
                assert(list[k + 1] == x);
            }
            if live(first) {
                assert(list[0] == first);
            }
            if live(x) && exists|k: int| i <= k < outputs.len() && #[trigger] outputs[k] == x {
                let k = choose|k: int| i <= k < outputs.len() && #[trigger] outputs[k] == x;
                if k > i {
                    assert(rest.contains(x));
                }
            }
        }
        if live(first) {
            assert(!rest.contains(first));
            assert forall|a: int, b: int| 0 <= a < b < list.len() implies list[a] != list[b] by {
                assert(list[b] == rest[b - 1]);
                if a > 0 {
                    assert(list[a] == rest[a - 1]);
                }
            }
        }
    }
}

proof fn lemma_outputs_once(log: LogView, i: int)
    requires
        0 <= i <= log.nodes.len(),
        log.nodes.no_duplicates(),
    ensures
        deps_log::outputs_in_order(log, i).no_duplicates(),
    decreases log.nodes.len() - i,
{
    if i < log.nodes.len() {
        lemma_outputs_once(log, i + 1);
        let list = deps_log::outputs_in_order(log, i);
        let rest = deps_log::outputs_in_order(log, i + 1);
        deps_log::lemma_outputs_have_entries(log, i + 1);
        let first = log.nodes[i];
        if log.entries.contains_key(first) {
            assert(!rest.contains(first)) by {
                if rest.contains(first) {
                    let later = log.nodes.skip(i + 1);
                    let k = choose|k: int| 0 <= k < later.len() && later[k] == first;
                    assert(log.nodes[i + 1 + k] == first);
                }
            }
            assert forall|a: int, b: int| 0 <= a < b < list.len() implies list[a] != list[b] by {
                assert(list[b] == rest[b - 1]);
                if a > 0 {
                    assert(list[a] == rest[a - 1]);
                }
            }
        }
    }
}

proof fn lemma_replay_once(log: LogView, rest: Seq<u8>)
    requires
        log.nodes.no_duplicates(),
    ensures
        deps_log::replay(log, rest).log.nodes.no_duplicates(),
    decreases rest.len(),
{
    if rest.len() > 0 {
        if let Some((deps, payload)) = deps_log::first_record(rest) {
            if let Some(next) = deps_log::applied(log, deps, payload) {
                lemma_replay_once(next, rest.skip(4 + payload.len() as int));
            }
        }
    }
}

/// No path has two numbers in the log that a file holds.
pub proof fn law_loaded_paths_have_one_number(data: Seq<u8>)
    ensures
        deps_log::loaded(data).nodes.no_duplicates(),
{
    lemma_replay_once(deps_log::empty_log(), data.skip(16));
}

proof fn lemma_interned_once(nodes: Seq<Seq<char>>, list: Seq<Seq<char>>, i: int)
    requires
        nodes.no_duplicates(),
    ensures
        deps_log::interned(nodes, list, i).0.no_duplicates(),
    decreases list.len() - i,
{
    if 0 <= i < list.len() {
        if nodes.contains(list[i]) {
            lemma_interned_once(nodes, list, i + 1);
        } else if deps_log::is_encodable(list[i]) {
            lemma_interned_once(nodes.push(list[i]), list, i + 1);
        }
    }
}

/// Recording an entry keeps the numbers of paths: a path gets at most one, and
/// keeps it.
pub proof fn law_recorded_paths_keep_their_numbers(
    log: LogView,
    output: Seq<char>,
    entry: EntryView,
)
    requires
        log.nodes.no_duplicates(),
    ensures
        deps_log::recorded(log, output, entry).0.nodes.no_duplicates(),
        log.nodes.is_prefix_of(deps_log::recorded(log, output, entry).0.nodes),
{
    let list = seq![output] + entry.inputs;
    lemma_interned_once(log.nodes, list, 0);
    deps_log::lemma_interned_holds(log.nodes, list, 0);
}

/// Compaction keeps the outputs that are live in their order exactly when the
/// entries that are kept first name them in that order.
pub proof fn law_compaction_keeps_output_order(log: LogView, live: spec_fn(Seq<char>) -> bool)
    requires
        log.nodes.no_duplicates(),
        deps_log_laws::is_readable_log(log),
        deps_log::compacted(log, live) is Some,
        deps_log::rewritten(
            log,
            deps_log::empty_log(),
            deps_log::outputs_in_order(log, 0),
            live,
            0,
        ).0.nodes.len() <= 0x1_0000_0000,
    ensures
        ({
            let new = deps_log::loaded(deps_log::compacted(log, live)->Some_0);
            let outputs = kept(deps_log::outputs_in_order(log, 0), live, 0);
            deps_log::outputs_in_order(new, 0) == outputs <==> forall|i: int, j: int|
                0 <= i < j < outputs.len() ==> precedes(
                    mentioned(log, outputs),
                    #[trigger] outputs[i],
                    #[trigger] outputs[j],
                )
        }),
{
    let new = deps_log::loaded(deps_log::compacted(log, live)->Some_0);
    let order = deps_log::outputs_in_order(log, 0);
    let outputs = kept(order, live, 0);
    let names = mentioned(log, outputs);
    let after = deps_log::outputs_in_order(new, 0);
    deps_log_laws::law_compaction_keeps_live_entries(log, live);
    lemma_outputs_once(log, 0);
    deps_log::lemma_outputs_have_entries(log, 0);
    assert(log.nodes.skip(0) =~= log.nodes);
    lemma_rewritten_extends(log, deps_log::empty_log(), order, live, 0);
    assert(new.nodes == extended(seq![], names));
    lemma_extended_holds(seq![], names);
    lemma_outputs_once(new, 0);
    deps_log::lemma_outputs_have_entries(new, 0);
    assert(new.nodes.skip(0) =~= new.nodes);
    lemma_kept(order, live, 0);
    lemma_mentioned_holds(log, outputs);
    assert forall|x: Seq<char>| #[trigger] outputs.contains(x) <==> after.contains(x) by {
        if outputs.contains(x) {
            assert(order.contains(x));
            assert(new.entries.contains_key(x));
        }
        if after.contains(x) {
            assert(new.entries.contains_key(x));
            assert(order.contains(x));
            let k = choose|k: int| 0 <= k < order.len() && order[k] == x;
            assert(order[k] == x);
        }
    }
    assert forall|x: Seq<char>, y: Seq<char>|
        outputs.contains(x) && #[trigger] precedes(names, x, y) implies precedes(after, x, y) by {
        lemma_extended_precedes(names, x, y);
        lemma_outputs_precede(new, 0, x, y);
    }
    if forall|i: int, j: int|
        0 <= i < j < outputs.len() ==> precedes(
            names,
            #[trigger] outputs[i],
            #[trigger] outputs[j],
        ) {
        lemma_same_order(outputs, after);
    }
    if after == outputs {
        assert forall|i: int, j: int| 0 <= i < j < outputs.len() implies precedes(
            names,
            #[trigger] outputs[i],
            #[trigger] outputs[j],
        ) by {
            let x = outputs[i];
            let y = outputs[j];
            if !precedes(names, x, y) {
                assert(names.contains(x));
                lemma_one_precedes(names, x, y);
                assert(precedes(after, y, x));
                let p = choose|p: int|
                    0 <= p < after.len() && #[trigger] after[p] == y && forall|q: int|
                        0 <= q <= p ==> #[trigger] after[q] != x;
                assert(p == j);
                assert(after[i] != x);
            }
        }
    }
}

/// Entries first name their outputs in the order of the outputs, where no output
/// is an input of an earlier one.
pub proof fn law_outputs_are_named_in_order(log: LogView, outputs: Seq<Seq<char>>, i: int, j: int)
    requires
        0 <= i < j < outputs.len(),
        outputs.no_duplicates(),
        forall|k: int|
            0 <= k < j ==> !log.entries[#[trigger] outputs[k]].inputs.contains(outputs[j]),
    ensures
        precedes(mentioned(log, outputs), outputs[i], outputs[j]),
    decreases outputs.len(),
{
    let names = mentioned(log, outputs);
    let inputs = log.entries[outputs[0]].inputs;
    let y = outputs[j];
    assert(names[0] == outputs[0]);
    if i > 0 {
        let rest = outputs.skip(1);
        assert forall|k: int| 0 <= k < j - 1 implies !log.entries[#[trigger] rest[k]].inputs.contains(
            rest[j - 1],
        ) by {
            assert(rest[k] == outputs[k + 1]);
        }
        law_outputs_are_named_in_order(log, rest, i - 1, j - 1);
        let later = mentioned(log, rest);
        let p = choose|p: int|
            0 <= p < later.len() && #[trigger] later[p] == rest[i - 1] && forall|q: int|
                0 <= q <= p ==> #[trigger] later[q] != rest[j - 1];
        let n = 1 + inputs.len() as int;
        assert(names[n + p] == outputs[i]);
        assert forall|q: int| 0 <= q <= n + p implies #[trigger] names[q] != y by {
            if 0 < q < n {
                assert(names[q] == inputs[q - 1]);
                assert(inputs.contains(inputs[q - 1]));
            } else if q >= n {
                assert(names[q] == later[q - n]);
            }
        }
    }
}

} // verus!
