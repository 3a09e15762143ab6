//! What can be relied on where dyndep files add to the edges of a manifest.
use crate::closure_laws;
use crate::dyndep;
use crate::dyndep::RecordView;
use crate::dyndep_apply;
use crate::dyndep_apply::Outputs;
use crate::manifest::EdgeView;
use crate::manifest::ManifestView;
use crate::paths;
use vstd::prelude::*;

verus! {

/// Paths by the names by which they are known.
pub open spec fn known_paths(list: Seq<Seq<char>>, windows: bool) -> Seq<Seq<char>> {
    list.map_values(|path: Seq<char>| paths::canonical(path, windows).0)
}

/// Whether `next` is `list` with those of `more` behind it that it does not hold, each once.
pub open spec fn extends(
    list: Seq<Seq<char>>,
    next: Seq<Seq<char>>,
    more: Seq<Seq<char>>,
) -> bool {
    &&& list.len() <= next.len()
    &&& forall|i: int| 0 <= i < list.len() ==> #[trigger] next[i] == list[i]
    &&& forall|i: int| 0 <= i < more.len() ==> next.contains(#[trigger] more[i])
    &&& forall|i: int| list.len() <= i < next.len() ==> more.contains(#[trigger] next[i])
    &&& forall|i: int, j: int|
        0 <= i < j < next.len() && list.len() <= j ==> #[trigger] next[i] != #[trigger] next[j]
    &&& more.no_duplicates() && (forall|i: int|
        0 <= i < more.len() ==> !list.contains(#[trigger] more[i])) ==> next == list + more
}

/// Whether an edge has become `next` by what a record says of it: the implicit inputs and
/// outputs of the record come behind those that the edge had, `restat` is bound where the
/// record says so, and all else stays.
pub open spec fn gains(e: EdgeView, next: EdgeView, record: RecordView, windows: bool) -> bool {
    &&& extends(
        e.implicit_inputs,
        next.implicit_inputs,
        known_paths(record.implicit_inputs, windows),
    )
    &&& extends(
        e.implicit_outputs,
        next.implicit_outputs,
        known_paths(record.implicit_outputs, windows),
    )
    &&& record.restat ==> next.bindings == e.bindings.insert("restat"@, "1"@)
    &&& !record.restat ==> next.bindings == e.bindings
    &&& next.explicit_outputs == e.explicit_outputs
    &&& next.rule == e.rule
    &&& next.explicit_inputs == e.explicit_inputs
    &&& next.order_only_inputs == e.order_only_inputs
    &&& next.validations == e.validations
    &&& next.source == e.source
    &&& next.line == e.line
    &&& next.scope == e.scope
    &&& next.slash_bits == e.slash_bits
}

/// Whether a record is one of the edge `k` to which a map leads from the record's output.
pub open spec fn is_of(
    map: Map<Seq<char>, usize>,
    record: RecordView,
    windows: bool,
    k: usize,
) -> bool {
    let output = paths::canonical(record.output, windows).0;
    map.contains_key(output) && map[output] == k
}

/// Whether one of the first `n` records adds an output.
pub open spec fn adds_output(
    records: Seq<RecordView>,
    windows: bool,
    n: int,
    path: Seq<char>,
) -> bool {
    exists|i: int|
        0 <= i < n && known_paths((#[trigger] records[i]).implicit_outputs, windows).contains(path)
}

/// Whether edges have become those of `next` by the records of a file: each edge gains what
/// its record says, and edges without a record stay as they are. The outputs that are added
/// are outputs of their edges; those that were there still are.
pub open spec fn are_applied(
    o: Outputs,
    next: Outputs,
    records: Seq<RecordView>,
    windows: bool,
) -> bool {
    &&& next.edges.len() == o.edges.len()
    &&& forall|k: usize, i: int|
        k < o.edges.len() && 0 <= i < records.len() && #[trigger] is_of(
            o.map,
            records[i],
            windows,
            k,
        ) ==> gains(o.edges[k as int], next.edges[k as int], records[i], windows)
    &&& forall|k: usize|
        k < o.edges.len() && (forall|i: int|
            0 <= i < records.len() ==> !is_of(o.map, #[trigger] records[i], windows, k))
            ==> #[trigger] next.edges[k as int] == o.edges[k as int]
    &&& forall|path: Seq<char>| #[trigger]
        next.map.contains_key(path) <==> o.map.contains_key(path) || adds_output(
            records,
            windows,
            records.len() as int,
            path,
        )
    &&& forall|path: Seq<char>| #[trigger]
        o.map.contains_key(path) ==> next.map[path] == o.map[path]
    &&& forall|k: usize, i: int, j: int|
        0 <= i < records.len() && #[trigger] is_of(o.map, records[i], windows, k) && 0 <= j
            < records[i].implicit_outputs.len() ==> next.map[paths::canonical(
            #[trigger] records[i].implicit_outputs[j],
            windows,
        ).0] == k
}

/// Whether a file may be applied: the output of each record has an edge, no two records have
/// the same edge, and the edges of the records are those that are bound to the file.
pub open spec fn fits(
    o: Outputs,
    bound: Seq<Seq<char>>,
    file: Seq<char>,
    records: Seq<RecordView>,
    windows: bool,
) -> bool {
    let name = paths::canonical(file, windows).0;
    &&& forall|i: int|
        0 <= i < records.len() ==> o.map.contains_key(
            paths::canonical((#[trigger] records[i]).output, windows).0,
        )
    &&& forall|i: int, j: int, k: usize|
        0 <= i < j < records.len() && #[trigger] is_of(o.map, records[i], windows, k)
            ==> !#[trigger] is_of(o.map, records[j], windows, k)
    &&& forall|i: int, k: usize|
        0 <= i < records.len() && #[trigger] is_of(o.map, records[i], windows, k)
            ==> bound[k as int] == name
    &&& forall|k: usize|
        k < bound.len() && #[trigger] bound[k as int] == name && name.len() > 0 ==> exists|i: int|
            0 <= i < records.len() && is_of(o.map, #[trigger] records[i], windows, k)
}

/// Whether the outputs that records add are outputs of no edge yet, and none is added twice.
pub open spec fn adds_new_outputs(
    map: Map<Seq<char>, usize>,
    records: Seq<RecordView>,
    windows: bool,
    n: int,
) -> bool {
    &&& forall|path: Seq<char>| #[trigger]
        adds_output(records, windows, n, path) ==> !map.contains_key(path)
    &&& forall|i: int|
        0 <= i < n ==> known_paths(
            (#[trigger] records[i]).implicit_outputs,
            windows,
        ).no_duplicates()
    &&& forall|i: int, j: int, path: Seq<char>|
        0 <= i < j < n && #[trigger] known_paths(records[i].implicit_outputs, windows).contains(
            path,
        ) ==> !#[trigger] known_paths(records[j].implicit_outputs, windows).contains(path)
}

pub proof fn lemma_known(list: Seq<Seq<char>>, windows: bool)
    ensures
        dyndep_apply::canonical_list(list, windows) == known_paths(list, windows),
{
    assert(dyndep_apply::canonical_list(list, windows) =~= known_paths(list, windows));
}

proof fn lemma_extended(
    list: Seq<Seq<char>>,
    next: Seq<Seq<char>>,
    more: Seq<Seq<char>>,
    path: Seq<char>,
)
    requires
        extends(list, next, more),
    ensures
        next.contains(path) ==> extends(list, next, more.push(path)),
        !next.contains(path) ==> extends(list, next.push(path), more.push(path)),
{
    let longer = more.push(path);
    let after = if next.contains(path) {
        next
    } else {
        next.push(path)
    };
    assert forall|i: int| 0 <= i < longer.len() implies after.contains(#[trigger] longer[i]) by {
        if i < more.len() {
            assert(longer[i] == more[i]);
            assert(next.contains(more[i]));
            let x = next.index_of(more[i]);
            assert(after[x] == longer[i]);
        } else if !next.contains(path) {
            assert(after[next.len() as int] == path);
        }
    }
    assert forall|i: int| list.len() <= i < after.len() implies longer.contains(
        #[trigger] after[i],
    ) by {
        if i < next.len() {
            assert(after[i] == next[i]);
            assert(more.contains(next[i]));
            let x = more.index_of(next[i]);
            assert(longer[x] == after[i]);
        } else {
            assert(longer[more.len() as int] == path);
        }
    }
    assert forall|i: int, j: int|
        0 <= i < j < after.len() && list.len() <= j implies #[trigger] after[i]
        != #[trigger] after[j] by {
        if j < next.len() {
            assert(next[i] != next[j]);
        } else {
            assert(next.contains(next[i]));
        }
    }
    assert(forall|i: int| 0 <= i < list.len() ==> next[i] == list[i]);
    if longer.no_duplicates() && forall|i: int|
        0 <= i < longer.len() ==> !list.contains(#[trigger] longer[i]) {
        assert forall|i: int, j: int|
            0 <= i < more.len() && 0 <= j < more.len() && i != j implies more[i] != more[j] by {
            assert(longer[i] == more[i] && longer[j] == more[j]);
        }
        assert forall|i: int| 0 <= i < more.len() implies !list.contains(#[trigger] more[i]) by {
            assert(longer[i] == more[i]);
        }
        assert(next == list + more);
        assert(longer[more.len() as int] == path);
        if next.contains(path) {
            let x = next.index_of(path);
            if x < list.len() {
                assert(list.contains(list[x]));
            } else {
                assert(longer[x - list.len()] == path);
            }
        }
        assert(after =~= list + longer);
    }
}

proof fn lemma_joined(list: Seq<Seq<char>>, more: Seq<Seq<char>>, n: int)
    requires
        0 <= n <= more.len(),
    ensures
        extends(list, dyndep_apply::joined(list, more, n), more.take(n)),
    decreases n,
{
    if n > 0 {
        lemma_joined(list, more, n - 1);
        lemma_extended(
            list,
            dyndep_apply::joined(list, more, n - 1),
            more.take(n - 1),
            more[n - 1],
        );
        assert(more.take(n) =~= more.take(n - 1).push(more[n - 1]));
    } else {
        assert(list + more.take(0) =~= list);
    }
}

spec fn are_added(o: Outputs, next: Outputs, k: usize, list: Seq<Seq<char>>) -> bool {
    let e = o.edges[k as int];
    let f = next.edges[k as int];
    &&& next.edges == o.edges.update(
        k as int,
        EdgeView { implicit_outputs: f.implicit_outputs, ..e },
    )
    &&& extends(e.implicit_outputs, f.implicit_outputs, list)
    &&& forall|path: Seq<char>| #[trigger]
        next.map.contains_key(path) <==> o.map.contains_key(path) || list.contains(path)
    &&& forall|path: Seq<char>| #[trigger]
        next.map.contains_key(path) ==> next.map[path] == (if list.contains(path) {
            k
        } else {
            o.map[path]
        })
}

proof fn lemma_added(o: Outputs, k: usize, list: Seq<Seq<char>>, n: int)
    requires
        0 <= n <= list.len(),
        k < o.edges.len(),
    ensures
        ({
            let (next, error) = dyndep_apply::with_outputs(o, k, list, n);
            &&& error is None <==> list.take(n).no_duplicates() && forall|i: int|
                0 <= i < n ==> !o.map.contains_key(#[trigger] list[i])
            &&& error is None ==> are_added(o, next, k, list.take(n))
        }),
    decreases n,
{
    let few = list.take(n);
    if n > 0 {
        lemma_added(o, k, list, n - 1);
        let (before, error) = dyndep_apply::with_outputs(o, k, list, n - 1);
        let (next, failed) = dyndep_apply::with_outputs(o, k, list, n);
        let path = list[n - 1];
        let fewer = list.take(n - 1);
        assert(few =~= fewer.push(path));
        if few.no_duplicates() {
            assert forall|i: int, j: int|
                0 <= i < fewer.len() && 0 <= j < fewer.len() && i != j implies fewer[i]
                != fewer[j] by {
                assert(few[i] == fewer[i] && few[j] == fewer[j]);
            }
            if fewer.contains(path) {
                let x = fewer.index_of(path);
                assert(few[x] == few[n - 1]);
            }
        }
        if error is None {
            if failed is None {
                assert(!before.map.contains_key(path));
                assert(!fewer.contains(path));
                assert forall|i: int, j: int|
                    0 <= i < few.len() && 0 <= j < few.len() && i != j implies few[i]
                    != few[j] by {
                    if i < n - 1 {
                        assert(fewer[i] == few[i]);
                        assert(fewer.contains(few[i]));
                    }
                    if j < n - 1 {
                        assert(fewer[j] == few[j]);
                        assert(fewer.contains(few[j]));
                    }
                }
                let e = o.edges[k as int];
                lemma_extended(
                    e.implicit_outputs,
                    before.edges[k as int].implicit_outputs,
                    fewer,
                    path,
                );
                assert(next.edges =~= o.edges.update(
                    k as int,
                    EdgeView {
                        implicit_outputs: next.edges[k as int].implicit_outputs,
                        ..e
                    },
                ));
                assert forall|x: Seq<char>| few.contains(x) <==> fewer.contains(x) || x
                    == path by {
                    if fewer.contains(x) {
                        assert(few[fewer.index_of(x)] == x);
                    }
                    if x == path {
                        assert(few[n - 1] == x);
                    }
                    if few.contains(x) && x != path {
                        assert(fewer[few.index_of(x)] == x);
                    }
                }
            }
        }
    } else {
        assert(few =~= seq![]);
        assert(o.edges.update(k as int, o.edges[k as int]) =~= o.edges);
        assert(o.edges[k as int].implicit_outputs + few =~= o.edges[k as int].implicit_outputs);
    }
}

spec fn is_applied(
    o: Outputs,
    next: Outputs,
    k: usize,
    record: RecordView,
    windows: bool,
) -> bool {
    let list = known_paths(record.implicit_outputs, windows);
    &&& next.edges == o.edges.update(k as int, next.edges[k as int])
    &&& gains(o.edges[k as int], next.edges[k as int], record, windows)
    &&& forall|path: Seq<char>| #[trigger]
        next.map.contains_key(path) <==> o.map.contains_key(path) || list.contains(path)
    &&& forall|path: Seq<char>| #[trigger]
        next.map.contains_key(path) ==> next.map[path] == (if list.contains(path) {
            k
        } else {
            o.map[path]
        })
}

proof fn lemma_record_applied(o: Outputs, k: usize, record: RecordView, windows: bool)
    requires
        k < o.edges.len(),
    ensures
        ({
            let (next, error) = dyndep_apply::with_record(o, k, record, windows);
            let list = known_paths(record.implicit_outputs, windows);
            &&& error is None <==> list.no_duplicates() && forall|i: int|
                0 <= i < list.len() ==> !o.map.contains_key(#[trigger] list[i])
            &&& error is None ==> is_applied(o, next, k, record, windows)
        }),
{
    let e = o.edges[k as int];
    let inputs = known_paths(record.implicit_inputs, windows);
    let list = known_paths(record.implicit_outputs, windows);
    lemma_known(record.implicit_inputs, windows);
    lemma_known(record.implicit_outputs, windows);
    lemma_joined(e.implicit_inputs, inputs, inputs.len() as int);
    assert(inputs.take(inputs.len() as int) =~= inputs);
    let grown = dyndep_apply::with_inputs(o, k, inputs);
    lemma_added(grown, k, list, list.len() as int);
    assert(list.take(list.len() as int) =~= list);
    let (next, error) = dyndep_apply::with_record(o, k, record, windows);
    if error is None {
        assert(next.edges =~= o.edges.update(k as int, next.edges[k as int]));
    }
}

/// What holds once the first `n` records have been applied to the edges `found` for them.
spec fn are_applied_to(
    o: Outputs,
    next: Outputs,
    found: Seq<usize>,
    records: Seq<RecordView>,
    windows: bool,
    n: int,
) -> bool {
    &&& next.edges.len() == o.edges.len()
    &&& forall|i: int|
        0 <= i < n ==> gains(
            o.edges[#[trigger] found[i] as int],
            next.edges[found[i] as int],
            records[i],
            windows,
        )
    &&& forall|k: usize|
        k < o.edges.len() && !found.take(n).contains(k) ==> #[trigger] next.edges[k as int]
            == o.edges[k as int]
    &&& forall|path: Seq<char>| #[trigger]
        next.map.contains_key(path) <==> o.map.contains_key(path) || adds_output(
            records,
            windows,
            n,
            path,
        )
    &&& forall|path: Seq<char>| #[trigger]
        o.map.contains_key(path) ==> next.map[path] == o.map[path]
    &&& forall|i: int, path: Seq<char>|
        0 <= i < n && #[trigger] known_paths(records[i].implicit_outputs, windows).contains(path)
            ==> next.map[path] == found[i]
}

proof fn lemma_one_more_output(records: Seq<RecordView>, windows: bool, n: int, path: Seq<char>)
    requires
        0 < n <= records.len(),
    ensures
        adds_output(records, windows, n, path) <==> adds_output(records, windows, n - 1, path)
            || known_paths(records[n - 1].implicit_outputs, windows).contains(path),
{
    if adds_output(records, windows, n, path) {
        let i = choose|i: int|
            0 <= i < n && known_paths(
                (#[trigger] records[i]).implicit_outputs,
                windows,
            ).contains(path);
        if i < n - 1 {
            assert(adds_output(records, windows, n - 1, path));
        }
    }
    if adds_output(records, windows, n - 1, path) {
        let i = choose|i: int|
            0 <= i < n - 1 && known_paths(
                (#[trigger] records[i]).implicit_outputs,
                windows,
            ).contains(path);
        assert(known_paths(records[i].implicit_outputs, windows).contains(path));
    }
}

proof fn lemma_records_applied(
    o: Outputs,
    bound: Seq<Seq<char>>,
    file: Seq<char>,
    found: Seq<usize>,
    records: Seq<RecordView>,
    windows: bool,
    n: int,
)
    requires
        0 <= n <= records.len() == found.len(),
        found.no_duplicates(),
        forall|i: int| 0 <= i < found.len() ==> (#[trigger] found[i]) < o.edges.len(),
    ensures
        ({
            let (next, error) = dyndep_apply::with_records(
                o,
                bound,
                file,
                found,
                records,
                windows,
                n,
            );
            &&& error is None <==> adds_new_outputs(o.map, records, windows, n) && forall|i: int|
                0 <= i < n ==> bound[#[trigger] found[i] as int] == paths::canonical(
                    file,
                    windows,
                ).0
            &&& error is None ==> are_applied_to(o, next, found, records, windows, n)
        }),
    decreases n,
{
    let (next, error) = dyndep_apply::with_records(o, bound, file, found, records, windows, n);
    let name = paths::canonical(file, windows).0;
    if n > 0 {
        lemma_records_applied(o, bound, file, found, records, windows, n - 1);
        let (before, earlier) = dyndep_apply::with_records(
            o,
            bound,
            file,
            found,
            records,
            windows,
            n - 1,
        );
        let k = found[n - 1];
        let record = records[n - 1];
        let list = known_paths(record.implicit_outputs, windows);
        assert forall|path: Seq<char>| #[trigger]
            adds_output(records, windows, n, path) <==> adds_output(records, windows, n - 1, path)
                || list.contains(path) by {
            lemma_one_more_output(records, windows, n, path);
        }
        if adds_new_outputs(o.map, records, windows, n) {
            assert forall|path: Seq<char>| #[trigger]
                adds_output(records, windows, n - 1, path) implies !o.map.contains_key(path) by {
                assert(adds_output(records, windows, n, path));
            }
            assert(adds_new_outputs(o.map, records, windows, n - 1));
        }
        if earlier is None {
            lemma_record_applied(before, k, record, windows);
            if adds_new_outputs(o.map, records, windows, n) {
                assert forall|i: int| 0 <= i < list.len() implies !before.map.contains_key(
                    #[trigger] list[i],
                ) by {
                    let path = list[i];
                    assert(list.contains(path));
                    assert(adds_output(records, windows, n, path));
                    if adds_output(records, windows, n - 1, path) {
                        let x = choose|x: int|
                            0 <= x < n - 1 && known_paths(
                                (#[trigger] records[x]).implicit_outputs,
                                windows,
                            ).contains(path);
                        assert(known_paths(records[x].implicit_outputs, windows).contains(path));
                        assert(known_paths(records[n - 1].implicit_outputs, windows).contains(
                            path,
                        ));
                    }
                }
                assert(list.no_duplicates());
            }
            if error is None {
                assert(bound[k as int] == name);
                assert forall|path: Seq<char>| #[trigger]
                    adds_output(records, windows, n, path) implies !o.map.contains_key(path) by {
                    if list.contains(path) {
                        assert(list[list.index_of(path)] == path);
                        assert(!before.map.contains_key(path));
                    }
                }
                assert forall|i: int, j: int, path: Seq<char>|
                    0 <= i < j < n && #[trigger] known_paths(
                        records[i].implicit_outputs,
                        windows,
                    ).contains(path) implies !#[trigger] known_paths(
                    records[j].implicit_outputs,
                    windows,
                ).contains(path) by {
                    if j == n - 1 && list.contains(path) {
                        assert(list[list.index_of(path)] == path);
                        assert(adds_output(records, windows, n - 1, path));
                        assert(before.map.contains_key(path));
                    }
                }
                assert(adds_new_outputs(o.map, records, windows, n));
                assert(!found.take(n - 1).contains(k)) by {
                    if found.take(n - 1).contains(k) {
                        let x = found.take(n - 1).index_of(k);
                        assert(found[x] == found[n - 1]);
                    }
                }
                assert(before.edges[k as int] == o.edges[k as int]);
                assert forall|i: int| 0 <= i < n implies gains(
                    o.edges[#[trigger] found[i] as int],
                    next.edges[found[i] as int],
                    records[i],
                    windows,
                ) by {
                    if i < n - 1 {
                        assert(found[i] != k);
                        assert(next.edges[found[i] as int] == before.edges[found[i] as int]);
                    }
                }
                assert forall|j: usize|
                    j < o.edges.len() && !found.take(
                        n,
                    ).contains(j) implies #[trigger] next.edges[j as int]
                    == o.edges[j as int] by {
                    assert(found.take(n)[n - 1] == k);
                    if found.take(n - 1).contains(j) {
                        assert(found.take(n)[found.take(n - 1).index_of(j)] == j);
                    }
                    assert(before.edges[j as int] == o.edges[j as int]);
                }
                assert forall|path: Seq<char>| #[trigger]
                    o.map.contains_key(path) implies next.map[path] == o.map[path] by {
                    assert(before.map.contains_key(path));
                    if list.contains(path) {
                        assert(list[list.index_of(path)] == path);
                    }
                    assert(next.map.contains_key(path));
                }
                assert forall|i: int, path: Seq<char>|
                    0 <= i < n && #[trigger] known_paths(
                        records[i].implicit_outputs,
                        windows,
                    ).contains(path) implies next.map[path] == found[i] by {
                    if i < n - 1 {
                        assert(adds_output(records, windows, n - 1, path));
                        assert(before.map.contains_key(path));
                        if list.contains(path) {
                            assert(list[list.index_of(path)] == path);
                        }
                    }
                    assert(next.map.contains_key(path));
                }
            }
        }
    } else {
        assert forall|path: Seq<char>| !#[trigger] adds_output(records, windows, 0, path) by {}
    }
}

proof fn lemma_located(
    map: Map<Seq<char>, usize>,
    file: Seq<char>,
    records: Seq<RecordView>,
    windows: bool,
    n: int,
)
    requires
        0 <= n <= records.len(),
    ensures
        dyndep_apply::located(map, file, records, windows, n) matches Ok(found) ==> {
            &&& found.len() == n
            &&& found.no_duplicates()
            &&& forall|i: int|
                0 <= i < n ==> map.contains_key(
                    paths::canonical((#[trigger] records[i]).output, windows).0,
                )
            &&& forall|i: int| 0 <= i < n ==> is_of(map, records[i], windows, #[trigger] found[i])
        },
        dyndep_apply::located(map, file, records, windows, n) is Ok <==> {
            &&& forall|i: int|
                0 <= i < n ==> map.contains_key(
                    paths::canonical((#[trigger] records[i]).output, windows).0,
                )
            &&& forall|i: int, j: int, k: usize|
                0 <= i < j < n && #[trigger] is_of(map, records[i], windows, k)
                    ==> !#[trigger] is_of(map, records[j], windows, k)
        },
    decreases n,
{
    if n > 0 {
        lemma_located(map, file, records, windows, n - 1);
        let output = paths::canonical(records[n - 1].output, windows).0;
        if let Ok(found) = dyndep_apply::located(map, file, records, windows, n - 1) {
            if map.contains_key(output) {
                let k = map[output];
                assert(is_of(map, records[n - 1], windows, k));
                if found.contains(k) {
                    let i = found.index_of(k);
                    assert(is_of(map, records[i], windows, found[i]));
                } else {
                    let more = found.push(k);
                    assert forall|i: int, j: int|
                        0 <= i < more.len() && 0 <= j < more.len() && i != j implies more[i]
                        != more[j] by {
                        if i < n - 1 {
                            assert(found.contains(found[i]));
                        }
                        if j < n - 1 {
                            assert(found.contains(found[j]));
                        }
                    }
                    assert forall|i: int, j: int, x: usize|
                        0 <= i < j < n && #[trigger] is_of(
                            map,
                            records[i],
                            windows,
                            x,
                        ) implies !#[trigger] is_of(map, records[j], windows, x) by {
                        if j == n - 1 {
                            assert(is_of(map, records[i], windows, found[i]));
                            assert(found.contains(found[i]));
                        }
                    }
                }
            }
        }
    }
}

proof fn lemma_unmentioned(bound: Seq<Seq<char>>, file: Seq<char>, found: Seq<usize>, i: int)
    requires
        0 <= i <= bound.len() <= usize::MAX,
    ensures
        dyndep_apply::unmentioned(bound, file, found, i) is None <==> forall|k: usize|
            i <= k < bound.len() && #[trigger] bound[k as int] == file && file.len() > 0
                ==> found.contains(k),
    decreases bound.len() - i,
{
    if i < bound.len() {
        let k = i as usize;
        if !(bound[k as int].len() > 0 && bound[k as int] == file && !found.contains(k)) {
            lemma_unmentioned(bound, file, found, i + 1);
        }
    }
}

/// A dyndep file is applied exactly where it fits the manifest and adds outputs that are
/// new, and then adds to each edge what the record of the edge says and nothing else.
pub proof fn law_dyndep_file_adds_what_it_says(
    o: Outputs,
    bound: Seq<Seq<char>>,
    file: Seq<char>,
    records: Seq<RecordView>,
    windows: bool,
)
    requires
        dyndep_apply::points_into(o.map, o.edges.len()),
        bound.len() == o.edges.len() <= usize::MAX,
    ensures
        ({
            let (next, error) = dyndep_apply::with_file(o, bound, file, records, windows);
            &&& error is None <==> fits(o, bound, file, records, windows) && adds_new_outputs(
                o.map,
                records,
                windows,
                records.len() as int,
            )
            &&& error is None ==> are_applied(o, next, records, windows)
        }),
{
    let n = records.len() as int;
    let name = paths::canonical(file, windows).0;
    lemma_located(o.map, file, records, windows, n);
    if let Ok(found) = dyndep_apply::located(o.map, file, records, windows, n) {
        lemma_unmentioned(bound, name, found, 0);
        assert forall|k: usize|
            found.contains(k) <==> exists|i: int|
                0 <= i < records.len() && is_of(o.map, #[trigger] records[i], windows, k) by {
            if found.contains(k) {
                let i = found.index_of(k);
                assert(is_of(o.map, records[i], windows, found[i]));
            }
            if exists|i: int|
                0 <= i < records.len() && is_of(o.map, #[trigger] records[i], windows, k) {
                let i = choose|i: int|
                    0 <= i < records.len() && is_of(o.map, #[trigger] records[i], windows, k);
                assert(is_of(o.map, records[i], windows, found[i]));
                assert(found[i] == k);
            }
        }
        assert forall|i: int| 0 <= i < found.len() implies (#[trigger] found[i])
            < o.edges.len() by {
            assert(is_of(o.map, records[i], windows, found[i]));
        }
        lemma_records_applied(o, bound, file, found, records, windows, n);
        let (next, error) = dyndep_apply::with_records(
            o,
            bound,
            file,
            found,
            records,
            windows,
            n,
        );
        assert((forall|i: int| 0 <= i < n ==> bound[#[trigger] found[i] as int] == name) <==> (
        forall|i: int, k: usize|
            0 <= i < records.len() && #[trigger] is_of(o.map, records[i], windows, k)
                ==> bound[k as int] == name)) by {
            if forall|i: int| 0 <= i < n ==> bound[#[trigger] found[i] as int] == name {
                assert forall|i: int, k: usize|
                    0 <= i < records.len() && #[trigger] is_of(
                        o.map,
                        records[i],
                        windows,
                        k,
                    ) implies bound[k as int] == name by {
                    assert(is_of(o.map, records[i], windows, found[i]));
                    assert(found[i] == k);
                }
            }
            if forall|i: int, k: usize|
                0 <= i < records.len() && #[trigger] is_of(o.map, records[i], windows, k)
                    ==> bound[k as int] == name {
                assert forall|i: int| 0 <= i < n implies bound[#[trigger] found[i] as int]
                    == name by {
                    assert(is_of(o.map, records[i], windows, found[i]));
                }
            }
        }
        if dyndep_apply::with_file(o, bound, file, records, windows).1 is None {
            assert(found.take(n) =~= found);
            assert forall|k: usize, i: int|
                k < o.edges.len() && 0 <= i < records.len() && #[trigger] is_of(
                    o.map,
                    records[i],
                    windows,
                    k,
                ) implies gains(
                o.edges[k as int],
                next.edges[k as int],
                records[i],
                windows,
            ) by {
                assert(is_of(o.map, records[i], windows, found[i]));
                assert(found[i] == k);
            }
            assert forall|k: usize|
                k < o.edges.len() && (forall|i: int|
                    0 <= i < records.len() ==> !is_of(o.map, #[trigger] records[i], windows, k))
                implies #[trigger] next.edges[k as int] == o.edges[k as int] by {
                assert(!found.contains(k));
            }
            assert forall|k: usize, i: int, j: int|
                0 <= i < records.len() && #[trigger] is_of(o.map, records[i], windows, k) && 0 <= j
                    < records[i].implicit_outputs.len() implies next.map[paths::canonical(
                #[trigger] records[i].implicit_outputs[j],
                windows,
            ).0] == k by {
                let list = known_paths(records[i].implicit_outputs, windows);
                assert(list[j] == paths::canonical(records[i].implicit_outputs[j], windows).0);
                assert(list.contains(list[j]));
                assert(is_of(o.map, records[i], windows, found[i]));
                assert(found[i] == k);
            }
        }
    }
}

proof fn lemma_still_points(
    o: Outputs,
    next: Outputs,
    bound: Seq<Seq<char>>,
    file: Seq<char>,
    records: Seq<RecordView>,
    windows: bool,
)
    requires
        dyndep_apply::points_into(o.map, o.edges.len()),
        fits(o, bound, file, records, windows),
        are_applied(o, next, records, windows),
    ensures
        dyndep_apply::points_into(next.map, next.edges.len()),
{
    assert forall|path: Seq<char>| #[trigger] next.map.contains_key(path) implies next.map[path]
        < next.edges.len() by {
        if !o.map.contains_key(path) {
            assert(adds_output(records, windows, records.len() as int, path));
            let i = choose|i: int|
                0 <= i < records.len() && known_paths(
                    (#[trigger] records[i]).implicit_outputs,
                    windows,
                ).contains(path);
            let list = known_paths(records[i].implicit_outputs, windows);
            let j = list.index_of(path);
            assert(list[j] == path);
            let k = o.map[paths::canonical(records[i].output, windows).0];
            assert(is_of(o.map, records[i], windows, k));
            assert(records[i].implicit_outputs[j] == records[i].implicit_outputs[j]);
        }
    }
}

proof fn lemma_files_applied(
    o: Outputs,
    bound: Seq<Seq<char>>,
    files: Seq<Seq<char>>,
    parsed: Seq<Result<Seq<RecordView>, Seq<char>>>,
    windows: bool,
    n: int,
)
    requires
        dyndep_apply::points_into(o.map, o.edges.len()),
        bound.len() == o.edges.len() <= usize::MAX,
        0 <= n,
        dyndep_apply::with_files(o, bound, files, parsed, windows, n).1 is None,
    ensures
        ({
            let next = dyndep_apply::with_files(o, bound, files, parsed, windows, n).0;
            &&& next.edges.len() == o.edges.len()
            &&& dyndep_apply::points_into(next.map, next.edges.len())
        }),
    decreases n,
{
    if n > 0 {
        lemma_files_applied(o, bound, files, parsed, windows, n - 1);
        let before = dyndep_apply::with_files(o, bound, files, parsed, windows, n - 1).0;
        let next = dyndep_apply::with_files(o, bound, files, parsed, windows, n).0;
        let records = parsed[n - 1]->Ok_0;
        law_dyndep_file_adds_what_it_says(before, bound, files[n - 1], records, windows);
        lemma_still_points(before, next, bound, files[n - 1], records, windows);
    }
}

/// Where dyndep files are applied one behind the other, each of them could be read, and adds
/// what it says to what those before it have left.
pub proof fn law_each_dyndep_file_is_applied(
    m: ManifestView,
    files: Seq<Seq<char>>,
    parsed: Seq<Result<Seq<RecordView>, Seq<char>>>,
    windows: bool,
    n: int,
    i: int,
)
    requires
        m.edges.len() <= usize::MAX,
        0 <= i < n,
        dyndep_apply::with_files(
            dyndep_apply::outputs_in(m),
            dyndep_apply::bound_files(m, windows),
            files,
            parsed,
            windows,
            n,
        ).1 is None,
    ensures
        ({
            let o = dyndep_apply::outputs_in(m);
            let bound = dyndep_apply::bound_files(m, windows);
            let before = dyndep_apply::with_files(o, bound, files, parsed, windows, i);
            let next = dyndep_apply::with_files(o, bound, files, parsed, windows, i + 1);
            &&& before.1 is None
            &&& next.1 is None
            &&& parsed[i] matches Ok(records) && are_applied(before.0, next.0, records, windows)
        }),
    decreases n,
{
    let o = dyndep_apply::outputs_in(m);
    let bound = dyndep_apply::bound_files(m, windows);
    closure_laws::lemma_map_points(m.edges);
    if i < n - 1 {
        law_each_dyndep_file_is_applied(m, files, parsed, windows, n - 1, i);
    } else {
        lemma_files_applied(o, bound, files, parsed, windows, i);
        let before = dyndep_apply::with_files(o, bound, files, parsed, windows, i).0;
        law_dyndep_file_adds_what_it_says(before, bound, files[i], parsed[i]->Ok_0, windows);
    }
}

/// Where the text of a dyndep file is applied to a manifest, the records that are read from
/// it are, and nothing else of the manifest changes.
pub proof fn law_dyndep_text_adds_its_records(
    m: ManifestView,
    file: Seq<char>,
    source: Seq<char>,
    windows: bool,
)
    requires
        m.edges.len() <= usize::MAX,
        dyndep_apply::with_source(m, file, Ok(source), windows).1 is None,
    ensures
        ({
            let o = dyndep_apply::outputs_in(m);
            let next = dyndep_apply::with_source(m, file, Ok(source), windows).0;
            let known = dyndep::Known { map: o.map, windows };
            &&& next == (ManifestView { edges: next.edges, ..m })
            &&& dyndep::dyndep_among(source, file, Some(known)) is Ok
            &&& exists|after: Outputs|
                after.edges == next.edges && #[trigger] are_applied(
                    o,
                    after,
                    dyndep::dyndep_among(source, file, Some(known))->Ok_0,
                    windows,
                )
        }),
{
    let o = dyndep_apply::outputs_in(m);
    let known = dyndep::Known { map: o.map, windows };
    let parsed = seq![dyndep::dyndep_among(source, file, Some(known))];
    let bound = dyndep_apply::bound_files(m, windows);
    law_each_dyndep_file_is_applied(m, seq![file], parsed, windows, 1, 0);
    assert(dyndep_apply::with_files(o, bound, seq![file], parsed, windows, 0).0 == o);
    let after = dyndep_apply::with_files(o, bound, seq![file], parsed, windows, 1).0;
    assert(are_applied(o, after, parsed[0]->Ok_0, windows));
}

} // verus!
