//! What dyndep files add to the edges of a manifest.
use crate::binding;
use crate::closure;
use crate::closure::output_map;
use crate::collections::map_get;
use crate::collections::map_insert;
use crate::dyndep;
use crate::dyndep::parse_dyndep_among;
use crate::dyndep::DyndepRecord;
use crate::dyndep::KnownOutputs;
use crate::dyndep::RecordView;
use crate::manifest;
use crate::manifest::Edge;
use crate::manifest::EdgeView;
use crate::manifest::Manifest;
use crate::manifest::ManifestView;
use crate::manifest::ScopeView;
use crate::paths;
use crate::paths::canonicalize_owned_path_with_bits;
use crate::render;
use crate::render::render_unescaped_binding;
use crate::spell;
use crate::text;
use crate::text::holds;
use crate::text::same_str;
use crate::validate;
use rapidhash::RapidHashMap;
use vstd::prelude::*;
use vstd::string::*;

verus! {

/// Edges, and the edge of each output.
#[verifier::ext_equal]
pub struct Outputs {
    pub edges: Seq<EdgeView>,
    pub map: Map<Seq<char>, usize>,
}

/// Whether outputs have edges among the first `n`.
pub open spec fn points_into(map: Map<Seq<char>, usize>, n: nat) -> bool {
    forall|path: Seq<char>| #[trigger] map.contains_key(path) ==> map[path] < n
}

/// The dyndep file that an edge is bound to; empty where it is bound to none.
pub open spec fn bound_file(scopes: Seq<ScopeView>, e: EdgeView, windows: bool) -> Seq<char> {
    paths::canonical(
        binding::valued(scopes, e, render::lists_of(e, None), "dyndep"@, 0),
        windows,
    ).0
}

/// The dyndep files that edges are bound to.
pub open spec fn bound_files(m: ManifestView, windows: bool) -> Seq<Seq<char>> {
    Seq::new(m.edges.len(), |i: int| bound_file(m.scopes, m.edges[i], windows))
}

pub open spec fn canonical_list(list: Seq<Seq<char>>, windows: bool) -> Seq<Seq<char>> {
    Seq::new(list.len(), |i: int| paths::canonical(list[i], windows).0)
}

/// The edges of the first `n` records, or what is wrong with the first record
/// whose output has no edge or whose edge has a record already.
pub open spec fn located(
    map: Map<Seq<char>, usize>,
    file: Seq<char>,
    records: Seq<RecordView>,
    windows: bool,
    n: int,
) -> Result<Seq<usize>, Seq<char>>
    decreases n,
{
    if n <= 0 {
        Ok(seq![])
    } else {
        let output = paths::canonical(records[n - 1].output, windows).0;
        match located(map, file, records, windows, n - 1) {
            Err(message) => Err(message),
            Ok(found) => if !map.contains_key(output) {
                Err(file + ": no build statement exists for '"@ + output + "'"@)
            } else if found.contains(map[output]) {
                Err(file + ": multiple statements for '"@ + output + "'"@)
            } else {
                Ok(found.push(map[output]))
            },
        }
    }
}

/// The first edge, from `i` on, that is bound to `file` and not among `found`.
pub open spec fn unmentioned(
    bound: Seq<Seq<char>>,
    file: Seq<char>,
    found: Seq<usize>,
    i: int,
) -> Option<int>
    decreases bound.len() - i,
{
    if i < 0 || i >= bound.len() {
        None
    } else if bound[i].len() > 0 && bound[i] == file && !found.contains(i as usize) {
        Some(i)
    } else {
        unmentioned(bound, file, found, i + 1)
    }
}

/// The first output of an edge.
pub open spec fn first_output(e: EdgeView, otherwise: Seq<char>) -> Seq<char> {
    if manifest::outputs_of(e).len() > 0 {
        manifest::outputs_of(e)[0]
    } else {
        otherwise
    }
}

/// `list` with the first `n` of `more`, as far as it does not hold them.
pub open spec fn joined(list: Seq<Seq<char>>, more: Seq<Seq<char>>, n: int) -> Seq<Seq<char>>
    decreases n,
{
    if n <= 0 {
        list
    } else {
        let before = joined(list, more, n - 1);
        if before.contains(more[n - 1]) {
            before
        } else {
            before.push(more[n - 1])
        }
    }
}

/// Edges once edge `k` has more implicit inputs.
pub open spec fn with_inputs(o: Outputs, k: usize, inputs: Seq<Seq<char>>) -> Outputs {
    let e = o.edges[k as int];
    Outputs {
        edges: o.edges.update(
            k as int,
            EdgeView {
                implicit_inputs: joined(e.implicit_inputs, inputs, inputs.len() as int),
                ..e
            },
        ),
        ..o
    }
}

/// Edges once edge `k` has the first `n` of `list` as implicit outputs, and what
/// is wrong with the first that is an output already.
pub open spec fn with_outputs(o: Outputs, k: usize, list: Seq<Seq<char>>, n: int) -> (
    Outputs,
    Option<Seq<char>>,
)
    decreases n,
{
    if n <= 0 {
        (o, None)
    } else {
        let (before, error) = with_outputs(o, k, list, n - 1);
        let path = list[n - 1];
        let e = before.edges[k as int];
        if error is Some {
            (before, error)
        } else if before.map.contains_key(path) {
            (before, Some("multiple rules generate "@ + path))
        } else {
            (
                Outputs {
                    edges: before.edges.update(
                        k as int,
                        EdgeView {
                            implicit_outputs: if e.implicit_outputs.contains(path) {
                                e.implicit_outputs
                            } else {
                                e.implicit_outputs.push(path)
                            },
                            ..e
                        },
                    ),
                    map: before.map.insert(path, k),
                },
                None,
            )
        }
    }
}

/// Edges once edge `k` is run again only where its outputs change.
pub open spec fn with_restat(o: Outputs, k: usize) -> Outputs {
    let e = o.edges[k as int];
    Outputs {
        edges: o.edges.update(
            k as int,
            EdgeView { bindings: e.bindings.insert("restat"@, "1"@), ..e },
        ),
        ..o
    }
}

/// Edges once edge `k` has what a record says of it, and what is wrong with the
/// record.
pub open spec fn with_record(o: Outputs, k: usize, record: RecordView, windows: bool) -> (
    Outputs,
    Option<Seq<char>>,
) {
    let grown = with_inputs(o, k, canonical_list(record.implicit_inputs, windows));
    let outputs = canonical_list(record.implicit_outputs, windows);
    let (next, error) = with_outputs(grown, k, outputs, outputs.len() as int);
    if error is Some || !record.restat {
        (next, error)
    } else {
        (with_restat(next, k), None)
    }
}

/// Edges once they have what the first `n` records of `file` say of them, and what
/// is wrong with the first record that cannot be.
pub open spec fn with_records(
    o: Outputs,
    bound: Seq<Seq<char>>,
    file: Seq<char>,
    found: Seq<usize>,
    records: Seq<RecordView>,
    windows: bool,
    n: int,
) -> (Outputs, Option<Seq<char>>)
    decreases n,
{
    if n <= 0 {
        (o, None)
    } else {
        let (before, error) = with_records(o, bound, file, found, records, windows, n - 1);
        let k = found[n - 1];
        if error is Some {
            (before, error)
        } else if bound[k as int] != paths::canonical(file, windows).0 {
            (
                before,
                Some(
                    "dyndep file '"@ + file + "' mentions output '"@ + first_output(
                        before.edges[k as int],
                        paths::canonical(records[n - 1].output, windows).0,
                    ) + "' whose build statement does not have a dyndep binding for the file"@,
                ),
            )
        } else {
            with_record(before, k, records[n - 1], windows)
        }
    }
}

/// Edges once they have what a dyndep file says of them, and what is wrong with
/// the file.
pub open spec fn with_file(
    o: Outputs,
    bound: Seq<Seq<char>>,
    file: Seq<char>,
    records: Seq<RecordView>,
    windows: bool,
) -> (Outputs, Option<Seq<char>>) {
    match located(o.map, file, records, windows, records.len() as int) {
        Err(message) => (o, Some(message)),
        Ok(found) => match unmentioned(bound, paths::canonical(file, windows).0, found, 0) {
            Some(k) => (
                o,
                Some(
                    "'"@ + first_output(o.edges[k], seq![])
                        + "' not mentioned in its dyndep file '"@ + file + "'"@,
                ),
            ),
            None => with_records(
                o,
                bound,
                file,
                found,
                records,
                windows,
                records.len() as int,
            ),
        },
    }
}

pub fn canonical_paths(list: &Vec<String>, windows: bool) -> (r: Vec<String>)
    ensures
        text::strings(r@) == canonical_list(text::strings(list@), windows),
{
    let mut r: Vec<String> = Vec::new();
    let mut i: usize = 0;
    while i < list.len()
        invariant
            i <= list@.len(),
            r@.len() == i,
            forall|k: int|
                0 <= k < i ==> #[trigger] r@[k]@ == paths::canonical(list@[k]@, windows).0,
        decreases list@.len() - i,
    {
        let (path, _) = canonicalize_owned_path_with_bits(list[i].clone(), windows);
        r.push(path);
        i += 1;
    }
    proof {
        assert(text::strings(r@) =~= canonical_list(text::strings(list@), windows));
    }
    r
}

fn join_inputs(edge: &mut Edge, inputs: Vec<String>)
    ensures
        final(edge).deep_view() == (EdgeView {
            implicit_inputs: joined(
                old(edge).deep_view().implicit_inputs,
                text::strings(inputs@),
                inputs@.len() as int,
            ),
            ..old(edge).deep_view()
        }),
{
    let ghost before = edge.deep_view();
    let ghost more = text::strings(inputs@);
    let mut i: usize = 0;
    while i < inputs.len()
        invariant
            i <= inputs@.len(),
            more == text::strings(inputs@),
            edge.deep_view() == (EdgeView {
                implicit_inputs: joined(before.implicit_inputs, more, i as int),
                ..before
            }),
        decreases inputs@.len() - i,
    {
        let ghost list = edge.deep_view().implicit_inputs;
        proof {
            assert(more[i as int] == inputs@[i as int]@);
        }
        if !holds(&edge.implicit_inputs, inputs[i].as_str()) {
            edge.implicit_inputs.push(inputs[i].clone());
            proof {
                assert(edge.deep_view().implicit_inputs =~= list.push(more[i as int]));
            }
        }
        i += 1;
        proof {
            assert(edge.deep_view() =~= (EdgeView {
                implicit_inputs: joined(before.implicit_inputs, more, i as int),
                ..before
            }));
        }
    }
}

fn join_output(edge: &mut Edge, path: &str)
    ensures
        final(edge).deep_view() == (EdgeView {
            implicit_outputs: if old(edge).deep_view().implicit_outputs.contains(path@) {
                old(edge).deep_view().implicit_outputs
            } else {
                old(edge).deep_view().implicit_outputs.push(path@)
            },
            ..old(edge).deep_view()
        }),
{
    let ghost before = edge.deep_view();
    if !holds(&edge.implicit_outputs, path) {
        edge.implicit_outputs.push(path.to_owned());
        proof {
            assert(edge.deep_view().implicit_outputs =~= before.implicit_outputs.push(path@));
        }
    }
    proof {
        assert(edge.deep_view() =~= (EdgeView {
            implicit_outputs: if before.implicit_outputs.contains(path@) {
                before.implicit_outputs
            } else {
                before.implicit_outputs.push(path@)
            },
            ..before
        }));
    }
}

fn join_restat(edge: &mut Edge)
    ensures
        final(edge).deep_view() == (EdgeView {
            bindings: old(edge).deep_view().bindings.insert("restat"@, "1"@),
            ..old(edge).deep_view()
        }),
{
    let ghost before = edge.deep_view();
    map_insert(&mut edge.bindings, "restat".to_owned(), "1".to_owned());
    proof {
        assert(edge.deep_view() =~= (EdgeView {
            bindings: before.bindings.insert("restat"@, "1"@),
            ..before
        }));
    }
}

/// Adds what a record says of edge `k`.
fn apply_record(
    edges: &mut Vec<Edge>,
    map: &mut RapidHashMap<String, usize>,
    k: usize,
    record: &DyndepRecord,
    windows: bool,
) -> (r: Result<(), String>)
    requires
        k < old(edges)@.len(),
        points_into(old(map).deep_view(), old(edges)@.len()),
    ensures
        points_into(final(map).deep_view(), final(edges)@.len()),
        ({
            let (next, error) = with_record(
                Outputs { edges: old(edges).deep_view(), map: old(map).deep_view() },
                k,
                record.deep_view(),
                windows,
            );
            &&& (Outputs { edges: final(edges).deep_view(), map: final(map).deep_view() }) == next
            &&& match r {
                Ok(()) => error is None,
                Err(message) => error == Some(message@),
            }
        }),
        final(edges)@.len() == old(edges)@.len(),
{
    let ghost start = Outputs { edges: edges.deep_view(), map: map.deep_view() };
    let inputs: Vec<String> = canonical_paths(&record.implicit_inputs, windows);
    let ghost input_list = text::strings(inputs@);
    proof {
        assert(start.edges[k as int] == edges@[k as int].deep_view());
    }
    join_inputs(&mut edges[k], inputs);
    let ghost grown = with_inputs(start, k, input_list);
    proof {
        assert(edges.deep_view() =~= grown.edges);
    }
    let outputs: Vec<String> = canonical_paths(&record.implicit_outputs, windows);
    let ghost list = text::strings(outputs@);
    let ghost whole = with_outputs(grown, k, list, list.len() as int);
    let mut i: usize = 0;
    while i < outputs.len()
        invariant
            i <= outputs@.len(),
            list == text::strings(outputs@),
            k < edges@.len(),
            points_into(map.deep_view(), edges@.len()),
            edges@.len() == start.edges.len(),
            start == (Outputs { edges: old(edges).deep_view(), map: old(map).deep_view() }),
            start.edges.len() == old(edges)@.len(),
            whole == with_outputs(grown, k, list, list.len() as int),
            whole == with_record(start, k, record.deep_view(), windows) || whole.1 is None,
            with_outputs(grown, k, list, i as int) == (
                Outputs { edges: edges.deep_view(), map: map.deep_view() },
                None::<Seq<char>>,
            ),
        decreases outputs@.len() - i,
    {
        let path: &str = outputs[i].as_str();
        proof {
            assert(list[i as int] == path@);
        }
        if map_get(map, path).is_some() {
            proof {
                lemma_outputs_fail(grown, k, list, i + 1, list.len() as int);
            }
            let mut message: String = "multiple rules generate ".to_owned();
            message.append(path);
            return Err(message);
        }
        let ghost before = edges.deep_view();
        proof {
            assert(before[k as int] == edges@[k as int].deep_view());
        }
        join_output(&mut edges[k], path);
        map_insert(map, path.to_owned(), k);
        i += 1;
        proof {
            assert(edges.deep_view() =~= with_outputs(grown, k, list, i as int).0.edges);
        }
    }
    if record.restat {
        let ghost before = Outputs { edges: edges.deep_view(), map: map.deep_view() };
        proof {
            assert(before.edges[k as int] == edges@[k as int].deep_view());
        }
        join_restat(&mut edges[k]);
        proof {
            assert(edges.deep_view() =~= with_restat(before, k).edges);
        }
    }
    Ok(())
}

proof fn lemma_outputs_fail(o: Outputs, k: usize, list: Seq<Seq<char>>, n: int, all: int)
    requires
        n <= all,
        with_outputs(o, k, list, n).1 is Some,
    ensures
        with_outputs(o, k, list, all) == with_outputs(o, k, list, n),
    decreases all,
{
    if n < all && all > 0 {
        lemma_outputs_fail(o, k, list, n, all - 1);
    }
}

proof fn lemma_records_fail(
    o: Outputs,
    bound: Seq<Seq<char>>,
    file: Seq<char>,
    found: Seq<usize>,
    records: Seq<RecordView>,
    windows: bool,
    n: int,
    all: int,
)
    requires
        n <= all,
        with_records(o, bound, file, found, records, windows, n).1 is Some,
    ensures
        with_records(o, bound, file, found, records, windows, all) == with_records(
            o,
            bound,
            file,
            found,
            records,
            windows,
            n,
        ),
    decreases all,
{
    if n < all && all > 0 {
        lemma_records_fail(o, bound, file, found, records, windows, n, all - 1);
    }
}

proof fn lemma_located_fails(
    map: Map<Seq<char>, usize>,
    file: Seq<char>,
    records: Seq<RecordView>,
    windows: bool,
    n: int,
    all: int,
)
    requires
        n <= all,
        located(map, file, records, windows, n) is Err,
    ensures
        located(map, file, records, windows, all) == located(map, file, records, windows, n),
    decreases all,
{
    if n < all && all > 0 {
        lemma_located_fails(map, file, records, windows, n, all - 1);
    }
}

fn contains_edge(list: &Vec<usize>, k: usize) -> (r: bool)
    ensures
        r == list@.contains(k),
{
    let mut i: usize = 0;
    while i < list.len()
        invariant
            i <= list@.len(),
            forall|j: int| 0 <= j < i ==> #[trigger] list@[j] != k,
        decreases list@.len() - i,
    {
        if list[i] == k {
            return true;
        }
        i += 1;
    }
    false
}

fn locate(
    map: &RapidHashMap<String, usize>,
    file: &str,
    records: &Vec<DyndepRecord>,
    windows: bool,
    count: usize,
) -> (r: Result<Vec<usize>, String>)
    requires
        points_into(map.deep_view(), count as nat),
    ensures
        match r {
            Ok(found) => located(
                map.deep_view(),
                file@,
                dyndep::record_views(records@),
                windows,
                records@.len() as int,
            ) == Ok::<Seq<usize>, Seq<char>>(found@) && found@.len() == records@.len()
                && forall|i: int| 0 <= i < found@.len() ==> #[trigger] found@[i] < count,
            Err(message) => located(
                map.deep_view(),
                file@,
                dyndep::record_views(records@),
                windows,
                records@.len() as int,
            ) == Err::<Seq<usize>, Seq<char>>(message@),
        },
{
    let ghost all = dyndep::record_views(records@);
    let ghost m = map.deep_view();
    let mut found: Vec<usize> = Vec::new();
    let mut i: usize = 0;
    while i < records.len()
        invariant
            i <= records@.len(),
            all == dyndep::record_views(records@),
            m == map.deep_view(),
            points_into(m, count as nat),
            found@.len() == i,
            forall|i: int| 0 <= i < found@.len() ==> #[trigger] found@[i] < count,
            located(m, file@, all, windows, i as int) == Ok::<Seq<usize>, Seq<char>>(found@),
        decreases records@.len() - i,
    {
        let (output, _) = canonicalize_owned_path_with_bits(records[i].output.clone(), windows);
        proof {
            assert(all[i as int] == records@[i as int].deep_view());
        }
        match map_get(map, output.as_str()) {
            Some(id) => {
                let k: usize = *id;
                if contains_edge(&found, k) {
                    proof {
                        lemma_located_fails(m, file@, all, windows, i + 1, all.len() as int);
                    }
                    let mut message: String = file.to_owned();
                    message.append(": multiple statements for '");
                    message.append(output.as_str());
                    message.append("'");
                    return Err(message);
                }
                found.push(k);
            },
            None => {
                proof {
                    lemma_located_fails(m, file@, all, windows, i + 1, all.len() as int);
                }
                let mut message: String = file.to_owned();
                message.append(": no build statement exists for '");
                message.append(output.as_str());
                message.append("'");
                return Err(message);
            },
        }
        i += 1;
    }
    Ok(found)
}

fn find_unmentioned(bound: &Vec<String>, file: &str, found: &Vec<usize>) -> (r: Option<usize>)
    ensures
        match r {
            Some(k) => unmentioned(text::strings(bound@), file@, found@, 0) == Some(k as int) && k
                < bound@.len(),
            None => unmentioned(text::strings(bound@), file@, found@, 0) is None,
        },
{
    let ghost list = text::strings(bound@);
    let mut i: usize = 0;
    while i < bound.len()
        invariant
            i <= bound@.len(),
            list == text::strings(bound@),
            unmentioned(list, file@, found@, 0) == unmentioned(list, file@, found@, i as int),
        decreases bound@.len() - i,
    {
        proof {
            assert(list[i as int] == bound@[i as int]@);
            reveal_strlit("");
            assert(bound@[i as int]@.len() == 0 ==> bound@[i as int]@ =~= ""@);
        }
        if !same_str(bound[i].as_str(), "") && same_str(bound[i].as_str(), file) && !contains_edge(
            found,
            i,
        ) {
            return Some(i);
        }
        i += 1;
    }
    None
}

fn first_output_or(edge: &Edge, otherwise: &str) -> (r: String)
    ensures
        r@ == first_output(edge.deep_view(), otherwise@),
{
    let outputs: Vec<&str> = edge.outputs();
    if outputs.len() > 0 {
        proof {
            assert(spell::views(outputs@)[0] == outputs@[0]@);
        }
        outputs[0].to_owned()
    } else {
        otherwise.to_owned()
    }
}

/// Adds what a dyndep file says of edges.
fn apply_file(
    edges: &mut Vec<Edge>,
    map: &mut RapidHashMap<String, usize>,
    bound: &Vec<String>,
    file: &str,
    records: &Vec<DyndepRecord>,
    windows: bool,
) -> (r: Result<(), String>)
    requires
        bound@.len() == old(edges)@.len(),
        points_into(old(map).deep_view(), old(edges)@.len()),
    ensures
        points_into(final(map).deep_view(), final(edges)@.len()),
        ({
            let (next, error) = with_file(
                Outputs { edges: old(edges).deep_view(), map: old(map).deep_view() },
                text::strings(bound@),
                file@,
                dyndep::record_views(records@),
                windows,
            );
            &&& (Outputs { edges: final(edges).deep_view(), map: final(map).deep_view() }) == next
            &&& match r {
                Ok(()) => error is None,
                Err(message) => error == Some(message@),
            }
        }),
        final(edges)@.len() == old(edges)@.len(),
{
    let ghost start = Outputs { edges: edges.deep_view(), map: map.deep_view() };
    let ghost all = dyndep::record_views(records@);
    let ghost files = text::strings(bound@);
    let found: Vec<usize> = match locate(map, file, records, windows, edges.len()) {
        Ok(found) => found,
        Err(message) => {
            return Err(message);
        },
    };
    let (canonical, _) = canonicalize_owned_path_with_bits(file.to_owned(), windows);
    if let Some(k) = find_unmentioned(bound, canonical.as_str(), &found) {
        proof {
            assert(start.edges[k as int] == edges@[k as int].deep_view());
            reveal_strlit("");
            assert(""@ =~= seq![]);
        }
        let mut message: String = "'".to_owned();
        message.append(first_output_or(&edges[k], "").as_str());
        message.append("' not mentioned in its dyndep file '");
        message.append(file);
        message.append("'");
        return Err(message);
    }
    let ghost whole = with_records(
        start,
        files,
        file@,
        found@,
        all,
        windows,
        records@.len() as int,
    );
    let mut i: usize = 0;
    while i < records.len()
        invariant
            i <= records@.len(),
            all == dyndep::record_views(records@),
            files == text::strings(bound@),
            bound@.len() == edges@.len(),
            edges@.len() == old(edges)@.len(),
            points_into(map.deep_view(), edges@.len()),
            found@.len() == records@.len(),
            forall|i: int| 0 <= i < found@.len() ==> #[trigger] found@[i] < edges@.len(),
            canonical@ == paths::canonical(file@, windows).0,
            whole == with_records(
                start,
                files,
                file@,
                found@,
                all,
                windows,
                records@.len() as int,
            ),
            whole == with_file(
                Outputs { edges: old(edges).deep_view(), map: old(map).deep_view() },
                files,
                file@,
                all,
                windows,
            ),
            with_records(start, files, file@, found@, all, windows, i as int) == (
                Outputs { edges: edges.deep_view(), map: map.deep_view() },
                None::<Seq<char>>,
            ),
        decreases records@.len() - i,
    {
        let k: usize = found[i];
        proof {
            assert(all[i as int] == records@[i as int].deep_view());
            assert(files[k as int] == bound@[k as int]@);
            assert(edges.deep_view()[k as int] == edges@[k as int].deep_view());
            if with_records(start, files, file@, found@, all, windows, i + 1).1 is Some {
                lemma_records_fail(
                    start,
                    files,
                    file@,
                    found@,
                    all,
                    windows,
                    i + 1,
                    records@.len() as int,
                );
            }
        }
        if !same_str(bound[k].as_str(), canonical.as_str()) {
            let (output, _) = canonicalize_owned_path_with_bits(
                records[i].output.clone(),
                windows,
            );
            let mut message: String = "dyndep file '".to_owned();
            message.append(file);
            message.append("' mentions output '");
            message.append(first_output_or(&edges[k], output.as_str()).as_str());
            message.append(
                "' whose build statement does not have a dyndep binding for the file",
            );
            return Err(message);
        }
        match apply_record(edges, map, k, &records[i], windows) {
            Ok(()) => {},
            Err(message) => {
                return Err(message);
            },
        }
        i += 1;
    }
    Ok(())
}

/// What the reading of dyndep files gave: the records of each, or what is wrong
/// with it.
pub open spec fn parsed_views(v: Seq<Result<Vec<DyndepRecord>, String>>) -> Seq<
    Result<Seq<RecordView>, Seq<char>>,
> {
    Seq::new(
        v.len(),
        |i: int|
            match v[i] {
                Ok(records) => Ok(dyndep::record_views(records@)),
                Err(message) => Err(message@),
            },
    )
}

/// Edges once they have what the first `n` dyndep files say of them, and what is
/// wrong with the first file that cannot be.
pub open spec fn with_files(
    o: Outputs,
    bound: Seq<Seq<char>>,
    files: Seq<Seq<char>>,
    parsed: Seq<Result<Seq<RecordView>, Seq<char>>>,
    windows: bool,
    n: int,
) -> (Outputs, Option<Seq<char>>)
    decreases n,
{
    if n <= 0 {
        (o, None)
    } else {
        let (before, error) = with_files(o, bound, files, parsed, windows, n - 1);
        if error is Some {
            (before, error)
        } else {
            match parsed[n - 1] {
                Err(message) => (before, Some(message)),
                Ok(records) => with_file(before, bound, files[n - 1], records, windows),
            }
        }
    }
}

proof fn lemma_files_fail(
    o: Outputs,
    bound: Seq<Seq<char>>,
    files: Seq<Seq<char>>,
    parsed: Seq<Result<Seq<RecordView>, Seq<char>>>,
    windows: bool,
    n: int,
    all: int,
)
    requires
        n <= all,
        with_files(o, bound, files, parsed, windows, n).1 is Some,
    ensures
        with_files(o, bound, files, parsed, windows, all) == with_files(
            o,
            bound,
            files,
            parsed,
            windows,
            n,
        ),
    decreases all,
{
    if n < all && all > 0 {
        lemma_files_fail(o, bound, files, parsed, windows, n, all - 1);
    }
}

fn find_bound_files(manifest: &Manifest, windows: bool) -> (r: Vec<String>)
    ensures
        text::strings(r@) == bound_files(manifest.deep_view(), windows),
        r@.len() == manifest.edges@.len(),
{
    let ghost m = manifest.deep_view();
    let mut r: Vec<String> = Vec::new();
    let mut i: usize = 0;
    while i < manifest.edges.len()
        invariant
            m == manifest.deep_view(),
            i <= manifest.edges@.len(),
            r@.len() == i,
            forall|k: int| 0 <= k < i ==> #[trigger] r@[k]@ == bound_files(m, windows)[k],
        decreases manifest.edges@.len() - i,
    {
        proof {
            assert(m.edges[i as int] == manifest.edges@[i as int].deep_view());
        }
        let value: String = render_unescaped_binding(manifest, &manifest.edges[i], "dyndep");
        let (path, _) = canonicalize_owned_path_with_bits(value, windows);
        r.push(path);
        i += 1;
    }
    proof {
        assert(text::strings(r@) =~= bound_files(m, windows));
    }
    r
}

/// The edges of a manifest and the edge of each output.
pub open spec fn outputs_in(m: ManifestView) -> Outputs {
    Outputs { edges: m.edges, map: closure::producers(m.edges, m.edges.len() as int, 0) }
}

/// Adds what dyndep files say of edges to a manifest. `parsed` holds what their
/// reading gave.
pub fn apply_dyndep_files(
    manifest: &mut Manifest,
    files: &Vec<String>,
    parsed: &Vec<Result<Vec<DyndepRecord>, String>>,
    windows: bool,
) -> (r: Result<(), String>)
    requires
        files@.len() == parsed@.len(),
    ensures
        ({
            let m = old(manifest).deep_view();
            let (next, error) = with_files(
                outputs_in(m),
                bound_files(m, windows),
                text::strings(files@),
                parsed_views(parsed@),
                windows,
                files@.len() as int,
            );
            &&& final(manifest).deep_view() == (ManifestView { edges: next.edges, ..m })
            &&& match r {
                Ok(()) => error is None,
                Err(message) => error == Some(message@),
            }
        }),
{
    let ghost m = manifest.deep_view();
    let mut map: RapidHashMap<String, usize> = output_map(manifest);
    let bound: Vec<String> = find_bound_files(manifest, windows);
    let ghost names = text::strings(files@);
    let ghost results = parsed_views(parsed@);
    let ghost start = outputs_in(m);
    let ghost whole = with_files(
        start,
        bound_files(m, windows),
        names,
        results,
        windows,
        files@.len() as int,
    );
    let mut i: usize = 0;
    proof {
        assert(manifest.deep_view() =~= (ManifestView { edges: start.edges, ..m }));
    }
    while i < files.len()
        invariant
            i <= files@.len(),
            files@.len() == parsed@.len(),
            names == text::strings(files@),
            results == parsed_views(parsed@),
            m == old(manifest).deep_view(),
            start == outputs_in(m),
            whole == with_files(
                start,
                bound_files(m, windows),
                names,
                results,
                windows,
                files@.len() as int,
            ),
            text::strings(bound@) == bound_files(m, windows),
            bound@.len() == manifest.edges@.len(),
            points_into(map.deep_view(), manifest.edges@.len()),
            manifest.deep_view() == (ManifestView { edges: manifest.edges.deep_view(), ..m }),
            with_files(start, bound_files(m, windows), names, results, windows, i as int) == (
                Outputs { edges: manifest.edges.deep_view(), map: map.deep_view() },
                None::<Seq<char>>,
            ),
        decreases files@.len() - i,
    {
        proof {
            assert(names[i as int] == files@[i as int]@);
            if with_files(
                start,
                bound_files(m, windows),
                names,
                results,
                windows,
                i + 1,
            ).1 is Some {
                lemma_files_fail(
                    start,
                    bound_files(m, windows),
                    names,
                    results,
                    windows,
                    i + 1,
                    files@.len() as int,
                );
            }
        }
        match &parsed[i] {
            Ok(records) => {
                proof {
                    assert(results[i as int] == Ok::<Seq<RecordView>, Seq<char>>(
                        dyndep::record_views(records@),
                    ));
                }
                let r: Result<(), String> = apply_file(
                    &mut manifest.edges,
                    &mut map,
                    &bound,
                    files[i].as_str(),
                    records,
                    windows,
                );
                proof {
                    assert(manifest.deep_view() =~= (ManifestView {
                        edges: manifest.edges.deep_view(),
                        ..m
                    }));
                }
                if let Err(message) = r {
                    return Err(message);
                }
            },
            Err(message) => {
                proof {
                    assert(results[i as int] == Err::<Seq<RecordView>, Seq<char>>(message@));
                }
                return Err(message.clone());
            },
        }
        i += 1;
    }
    Ok(())
}

/// Whether every output has an edge, and none has two.
pub open spec fn is_indexed(o: Outputs) -> bool {
    &&& validate::outputs_are_unique(o.edges)
    &&& forall|i: int, j: int|
        0 <= i < o.edges.len() && 0 <= j < manifest::outputs_of(o.edges[i]).len()
            ==> o.map.contains_key(#[trigger] manifest::outputs_of(o.edges[i])[j])
}

proof fn lemma_same_outputs(a: Outputs, b: Outputs)
    requires
        is_indexed(a),
        a.edges.len() == b.edges.len(),
        a.map == b.map,
        forall|i: int|
            0 <= i < a.edges.len() ==> manifest::outputs_of(#[trigger] b.edges[i])
                == manifest::outputs_of(a.edges[i]),
    ensures
        is_indexed(b),
{
    assert forall|i: int, j: int|
        0 <= i < b.edges.len() && 0 <= j < manifest::outputs_of(
            b.edges[i],
        ).len() implies b.map.contains_key(#[trigger] manifest::outputs_of(b.edges[i])[j]) by {
        assert(manifest::outputs_of(a.edges[i])[j] == manifest::outputs_of(b.edges[i])[j]);
    }
    assert forall|i: int, j: int, c: int, d: int|
        0 <= i < b.edges.len() && 0 <= c < b.edges.len() && 0 <= j < manifest::outputs_of(
            b.edges[i],
        ).len() && 0 <= d < manifest::outputs_of(b.edges[c]).len()
            && #[trigger] manifest::outputs_of(b.edges[i])[j] == #[trigger] manifest::outputs_of(
            b.edges[c],
        )[d] implies i == c && j == d by {
        assert(manifest::outputs_of(a.edges[i])[j] == manifest::outputs_of(a.edges[c])[d]);
    }
}

proof fn lemma_outputs_indexed(o: Outputs, k: usize, list: Seq<Seq<char>>, n: int)
    requires
        is_indexed(o),
        k < o.edges.len(),
        0 <= n <= list.len(),
    ensures
        is_indexed(with_outputs(o, k, list, n).0),
        with_outputs(o, k, list, n).0.edges.len() == o.edges.len(),
    decreases n,
{
    if n > 0 {
        lemma_outputs_indexed(o, k, list, n - 1);
        let (before, error) = with_outputs(o, k, list, n - 1);
        let path = list[n - 1];
        let (next, failed) = with_outputs(o, k, list, n);
        if error is None && failed is None {
            let e = before.edges[k as int];
            let f = next.edges[k as int];
            let old_list = manifest::outputs_of(e);
            let new_list = manifest::outputs_of(f);
            if e.implicit_outputs.contains(path) {
                let x = choose|x: int|
                    0 <= x < e.implicit_outputs.len() && e.implicit_outputs[x] == path;
                assert(old_list[e.explicit_outputs.len() + x] == path);
                assert(before.map.contains_key(manifest::outputs_of(before.edges[k as int])[
                    e.explicit_outputs.len() + x]));
            }
            assert(new_list =~= old_list.push(path));
            assert forall|i: int, j: int|
                0 <= i < next.edges.len() && 0 <= j < manifest::outputs_of(
                    next.edges[i],
                ).len() implies next.map.contains_key(
                #[trigger] manifest::outputs_of(next.edges[i])[j],
            ) by {
                if i == k && j < old_list.len() {
                    assert(before.map.contains_key(
                        manifest::outputs_of(before.edges[k as int])[j],
                    ));
                } else if i != k {
                    assert(before.map.contains_key(manifest::outputs_of(before.edges[i])[j]));
                }
            }
            assert forall|i: int, j: int, c: int, d: int|
                0 <= i < next.edges.len() && 0 <= c < next.edges.len() && 0 <= j
                    < manifest::outputs_of(next.edges[i]).len() && 0 <= d < manifest::outputs_of(
                    next.edges[c],
                ).len() && #[trigger] manifest::outputs_of(next.edges[i])[j]
                    == #[trigger] manifest::outputs_of(next.edges[c])[d] implies i == c && j
                == d by {
                let new_first = i == k && j == old_list.len();
                let new_second = c == k && d == old_list.len();
                if !new_first {
                    assert(manifest::outputs_of(next.edges[i])[j] == manifest::outputs_of(
                        before.edges[i],
                    )[j]);
                    assert(before.map.contains_key(manifest::outputs_of(before.edges[i])[j]));
                }
                if !new_second {
                    assert(manifest::outputs_of(next.edges[c])[d] == manifest::outputs_of(
                        before.edges[c],
                    )[d]);
                    assert(before.map.contains_key(manifest::outputs_of(before.edges[c])[d]));
                }
            }
        }
    }
}

proof fn lemma_record_indexed(o: Outputs, k: usize, record: RecordView, windows: bool)
    requires
        is_indexed(o),
        k < o.edges.len(),
    ensures
        is_indexed(with_record(o, k, record, windows).0),
        with_record(o, k, record, windows).0.edges.len() == o.edges.len(),
{
    let grown = with_inputs(o, k, canonical_list(record.implicit_inputs, windows));
    let outputs = canonical_list(record.implicit_outputs, windows);
    lemma_same_outputs(o, grown);
    lemma_outputs_indexed(grown, k, outputs, outputs.len() as int);
    let (next, error) = with_outputs(grown, k, outputs, outputs.len() as int);
    lemma_same_outputs(next, with_restat(next, k));
}

proof fn lemma_records_indexed(
    o: Outputs,
    bound: Seq<Seq<char>>,
    file: Seq<char>,
    found: Seq<usize>,
    records: Seq<RecordView>,
    windows: bool,
    n: int,
)
    requires
        is_indexed(o),
        0 <= n <= found.len(),
        forall|i: int| 0 <= i < found.len() ==> #[trigger] found[i] < o.edges.len(),
    ensures
        is_indexed(with_records(o, bound, file, found, records, windows, n).0),
        with_records(o, bound, file, found, records, windows, n).0.edges.len() == o.edges.len(),
    decreases n,
{
    if n > 0 {
        lemma_records_indexed(o, bound, file, found, records, windows, n - 1);
        let (before, error) = with_records(o, bound, file, found, records, windows, n - 1);
        lemma_record_indexed(before, found[n - 1], records[n - 1], windows);
    }
}

proof fn lemma_located_edges(
    map: Map<Seq<char>, usize>,
    file: Seq<char>,
    records: Seq<RecordView>,
    windows: bool,
    n: int,
    count: nat,
)
    requires
        points_into(map, count),
        0 <= n <= records.len(),
    ensures
        located(map, file, records, windows, n) matches Ok(found) ==> found.len() == n
            && forall|i: int| 0 <= i < found.len() ==> #[trigger] found[i] < count,
    decreases n,
{
    if n > 0 {
        lemma_located_edges(map, file, records, windows, n - 1, count);
    }
}

proof fn lemma_outputs_point(o: Outputs, k: usize, list: Seq<Seq<char>>, n: int, count: nat)
    requires
        points_into(o.map, count),
        k < count,
    ensures
        points_into(with_outputs(o, k, list, n).0.map, count),
    decreases n,
{
    if n > 0 {
        lemma_outputs_point(o, k, list, n - 1, count);
    }
}

proof fn lemma_records_point(
    o: Outputs,
    bound: Seq<Seq<char>>,
    file: Seq<char>,
    found: Seq<usize>,
    records: Seq<RecordView>,
    windows: bool,
    n: int,
    count: nat,
)
    requires
        points_into(o.map, count),
        0 <= n <= found.len(),
        forall|i: int| 0 <= i < found.len() ==> #[trigger] found[i] < count,
    ensures
        points_into(with_records(o, bound, file, found, records, windows, n).0.map, count),
    decreases n,
{
    if n > 0 {
        lemma_records_point(o, bound, file, found, records, windows, n - 1, count);
        let (before, error) = with_records(o, bound, file, found, records, windows, n - 1);
        let k = found[n - 1];
        let record = records[n - 1];
        let grown = with_inputs(before, k, canonical_list(record.implicit_inputs, windows));
        let outputs = canonical_list(record.implicit_outputs, windows);
        lemma_outputs_point(grown, k, outputs, outputs.len() as int, count);
    }
}

proof fn lemma_files_indexed(
    o: Outputs,
    bound: Seq<Seq<char>>,
    files: Seq<Seq<char>>,
    parsed: Seq<Result<Seq<RecordView>, Seq<char>>>,
    windows: bool,
    n: int,
)
    requires
        is_indexed(o),
        points_into(o.map, o.edges.len()),
    ensures
        ({
            let after = with_files(o, bound, files, parsed, windows, n).0;
            &&& is_indexed(after)
            &&& after.edges.len() == o.edges.len()
            &&& points_into(after.map, o.edges.len())
        }),
    decreases n,
{
    if n > 0 {
        lemma_files_indexed(o, bound, files, parsed, windows, n - 1);
        let (before, error) = with_files(o, bound, files, parsed, windows, n - 1);
        if error is None {
            if let Ok(records) = parsed[n - 1] {
                let file = files[n - 1];
                let count = records.len() as int;
                lemma_located_edges(before.map, file, records, windows, count, o.edges.len());
                if let Ok(found) = located(before.map, file, records, windows, count) {
                    lemma_records_indexed(before, bound, file, found, records, windows, count);
                    lemma_records_point(
                        before,
                        bound,
                        file,
                        found,
                        records,
                        windows,
                        count,
                        o.edges.len(),
                    );
                }
            }
        }
    }
}

proof fn lemma_producers(edges: Seq<EdgeView>, i: int, j: int)
    requires
        0 <= i <= edges.len() <= usize::MAX,
        0 <= j,
        i == edges.len() ==> j == 0,
        i < edges.len() ==> j <= manifest::outputs_of(edges[i]).len(),
    ensures
        points_into(closure::producers(edges, i, j), edges.len()),
        forall|a: int, b: int|
            0 <= a < edges.len() && 0 <= b < manifest::outputs_of(edges[a]).len() && (a < i || (a
                == i && b < j)) ==> closure::producers(edges, i, j).contains_key(
                #[trigger] manifest::outputs_of(edges[a])[b],
            ),
    decreases i, j,
{
    if j > 0 {
        lemma_producers(edges, i, j - 1);
    } else if i > 0 {
        lemma_producers(edges, i - 1, manifest::outputs_of(edges[i - 1]).len() as int);
    }
}

/// Dyndep files do not give an output to two edges: where each path was at most
/// once an output, it still is.
pub proof fn law_dyndep_files_keep_outputs_unique(
    m: ManifestView,
    files: Seq<Seq<char>>,
    parsed: Seq<Result<Seq<RecordView>, Seq<char>>>,
    windows: bool,
    n: int,
)
    requires
        validate::outputs_are_unique(m.edges),
        m.edges.len() <= usize::MAX,
    ensures
        validate::outputs_are_unique(
            with_files(
                outputs_in(m),
                bound_files(m, windows),
                files,
                parsed,
                windows,
                n,
            ).0.edges,
        ),
{
    lemma_producers(m.edges, m.edges.len() as int, 0);
    lemma_files_indexed(outputs_in(m), bound_files(m, windows), files, parsed, windows, n);
}

/// What the reading of files from disk gave: the text of each, or what is said where
/// it could not be read.
pub open spec fn source_views(v: Seq<Result<String, String>>) -> Seq<
    Result<Seq<char>, Seq<char>>,
> {
    Seq::new(
        v.len(),
        |i: int|
            match v[i] {
                Ok(text) => Ok(text@),
                Err(message) => Err(message@),
            },
    )
}

/// A manifest once its edges have what a dyndep file says of them, and what is wrong
/// with the file.
pub open spec fn with_source(
    m: ManifestView,
    file: Seq<char>,
    source: Result<Seq<char>, Seq<char>>,
    windows: bool,
) -> (ManifestView, Option<Seq<char>>) {
    let known = dyndep::Known { map: outputs_in(m).map, windows };
    match source {
        Err(message) => (m, Some(message)),
        Ok(text) => {
            let parsed = dyndep::dyndep_among(text, file, Some(known));
            let (next, error) = with_files(
                outputs_in(m),
                bound_files(m, windows),
                seq![file],
                seq![parsed],
                windows,
                1,
            );
            (ManifestView { edges: next.edges, ..m }, error)
        },
    }
}

/// A manifest once its edges have what the first `n` dyndep files say of them, and
/// what is wrong with the first file that cannot be. Each file is held against the
/// outputs that those before it have added.
pub open spec fn with_sources(
    m: ManifestView,
    files: Seq<Seq<char>>,
    sources: Seq<Result<Seq<char>, Seq<char>>>,
    windows: bool,
    n: int,
) -> (ManifestView, Option<Seq<char>>)
    decreases n,
{
    if n <= 0 {
        (m, None)
    } else {
        let (before, error) = with_sources(m, files, sources, windows, n - 1);
        if error is Some {
            (before, error)
        } else {
            with_source(before, files[n - 1], sources[n - 1], windows)
        }
    }
}

proof fn lemma_sources_fail(
    m: ManifestView,
    files: Seq<Seq<char>>,
    sources: Seq<Result<Seq<char>, Seq<char>>>,
    windows: bool,
    n: int,
    all: int,
)
    requires
        n <= all,
        with_sources(m, files, sources, windows, n).1 is Some,
    ensures
        with_sources(m, files, sources, windows, all) == with_sources(
            m,
            files,
            sources,
            windows,
            n,
        ),
    decreases all,
{
    if n < all && all > 0 {
        lemma_sources_fail(m, files, sources, windows, n, all - 1);
    }
}

fn apply_source(manifest: &mut Manifest, file: &String, source: &str, windows: bool) -> (r: Result<
    (),
    String,
>)
    ensures
        ({
            let (next, error) = with_source(
                old(manifest).deep_view(),
                file@,
                Ok(source@),
                windows,
            );
            &&& final(manifest).deep_view() == next
            &&& match r {
                Ok(()) => error is None,
                Err(message) => error == Some(message@),
            }
        }),
{
    let map: RapidHashMap<String, usize> = output_map(manifest);
    let known: KnownOutputs<'_> = KnownOutputs { outputs: &map, windows };
    let parsed: Result<Vec<DyndepRecord>, String> = parse_dyndep_among(
        source,
        file.as_str(),
        known,
    );
    let mut files: Vec<String> = Vec::new();
    files.push(file.clone());
    let mut results: Vec<Result<Vec<DyndepRecord>, String>> = Vec::new();
    results.push(parsed);
    proof {
        assert(text::strings(files@) =~= seq![file@]);
        let view = dyndep::dyndep_among(source@, file@, dyndep::known_view(Some(known)));
        assert(parsed_views(results@) =~= seq![view]);
    }
    apply_dyndep_files(manifest, &files, &results, windows)
}

/// Adds what dyndep files say of edges to a manifest, one file after the other.
/// `sources` holds what their reading from disk gave.
pub fn apply_dyndep_sources(
    manifest: &mut Manifest,
    files: &Vec<String>,
    sources: &Vec<Result<String, String>>,
    windows: bool,
) -> (r: Result<(), String>)
    requires
        files@.len() == sources@.len(),
    ensures
        ({
            let (next, error) = with_sources(
                old(manifest).deep_view(),
                text::strings(files@),
                source_views(sources@),
                windows,
                files@.len() as int,
            );
            &&& final(manifest).deep_view() == next
            &&& match r {
                Ok(()) => error is None,
                Err(message) => error == Some(message@),
            }
        }),
{
    let ghost m = manifest.deep_view();
    let ghost names = text::strings(files@);
    let ghost texts = source_views(sources@);
    let mut i: usize = 0;
    while i < files.len()
        invariant
            i <= files@.len(),
            files@.len() == sources@.len(),
            m == old(manifest).deep_view(),
            names == text::strings(files@),
            texts == source_views(sources@),
            with_sources(m, names, texts, windows, i as int) == (
                manifest.deep_view(),
                None::<Seq<char>>,
            ),
        decreases files@.len() - i,
    {
        proof {
            assert(names[i as int] == files@[i as int]@);
            if with_sources(m, names, texts, windows, i + 1).1 is Some {
                lemma_sources_fail(m, names, texts, windows, i + 1, files@.len() as int);
            }
        }
        match &sources[i] {
            Err(message) => {
                return Err(message.clone());
            },
            Ok(source) => {
                if let Err(message) = apply_source(manifest, &files[i], source.as_str(), windows) {
                    return Err(message);
                }
            },
        }
        i += 1;
    }
    Ok(())
}

} // verus!
