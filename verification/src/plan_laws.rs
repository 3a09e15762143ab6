//! What can be relied on before a build begins and when a command has run: what is built, what
//! will run, what is missed, and what is written down.
use crate::closure_laws;
use crate::completion;
use crate::completion::RunView;
use crate::depfile;
use crate::deps_log::LogView;
use crate::dirty_plan;
use crate::discovery;
use crate::dyndep_laws;
use crate::freshness;
use crate::freshness::World;
use crate::manifest;
use crate::manifest::EdgeView;
use crate::manifest::ManifestView;
use crate::paths;
use crate::stale_laws;
use crate::staleness::Situation;
use crate::targets;
use vstd::prelude::*;

verus! {

/// Whether an edge takes a path, as an explicit, implicit or order-only input.
pub open spec fn uses(e: EdgeView, path: Seq<char>) -> bool {
    e.explicit_inputs.contains(path) || e.implicit_inputs.contains(path)
        || e.order_only_inputs.contains(path)
}

/// Whether an edge takes a path, or checks with it.
pub open spec fn needs(e: EdgeView, path: Seq<char>) -> bool {
    uses(e, path) || e.validations.contains(path)
}

/// Whether an edge makes a path that no edge takes.
pub open spec fn is_end(edges: Seq<EdgeView>, i: int, path: Seq<char>) -> bool {
    &&& 0 <= i < edges.len()
    &&& closure_laws::makes(edges[i], path)
    &&& forall|j: int| 0 <= j < edges.len() ==> !uses(#[trigger] edges[j], path)
}

/// Whether one of the first `n` edges makes a path that no edge takes.
pub open spec fn is_one_end(edges: Seq<EdgeView>, n: int, path: Seq<char>) -> bool {
    exists|i: int| i < n && #[trigger] is_end(edges, i, path)
}

/// Whether one of the paths that edge `i` makes and that no edge takes is in a list.
pub open spec fn has_end(edges: Seq<EdgeView>, list: Seq<Seq<char>>, i: int) -> bool {
    exists|x: int| 0 <= x < list.len() && is_end(edges, i, #[trigger] list[x])
}

proof fn lemma_uses(e: EdgeView, path: Seq<char>)
    ensures
        manifest::inputs_of(e).contains(path) <==> uses(e, path),
        manifest::outputs_of(e).contains(path) <==> closure_laws::makes(e, path),
        freshness::sources(e).contains(path) <==> stale_laws::is_made_from(e, path),
{
    stale_laws::lemma_contains(e.explicit_inputs, e.implicit_inputs, path);
    stale_laws::lemma_contains(e.explicit_inputs + e.implicit_inputs, e.order_only_inputs, path);
    stale_laws::lemma_contains(e.explicit_outputs, e.implicit_outputs, path);
}

proof fn lemma_is_input(edges: Seq<EdgeView>, path: Seq<char>)
    ensures
        targets::is_input(edges, path) <==> exists|j: int|
            0 <= j < edges.len() && uses(#[trigger] edges[j], path),
{
    if targets::is_input(edges, path) {
        let j = choose|j: int|
            0 <= j < edges.len() && #[trigger] manifest::inputs_of(edges[j]).contains(path);
        lemma_uses(edges[j], path);
    }
    if exists|j: int| 0 <= j < edges.len() && uses(#[trigger] edges[j], path) {
        let j = choose|j: int| 0 <= j < edges.len() && uses(#[trigger] edges[j], path);
        lemma_uses(edges[j], path);
        assert(manifest::inputs_of(edges[j]).contains(path));
    }
}

proof fn lemma_first_root(edges: Seq<EdgeView>, list: Seq<Seq<char>>, j: int)
    requires
        0 <= j <= list.len(),
    ensures
        targets::first_root(edges, list, j) matches Some(root) ==> list.contains(root)
            && !targets::is_input(edges, root),
        targets::first_root(edges, list, j) is None ==> forall|x: int|
            j <= x < list.len() ==> targets::is_input(edges, #[trigger] list[x]),
    decreases list.len() - j,
{
    if j < list.len() {
        if targets::is_input(edges, list[j]) {
            lemma_first_root(edges, list, j + 1);
        } else {
            assert(list.contains(list[j]));
        }
    }
}

proof fn lemma_roots(edges: Seq<EdgeView>, n: int)
    requires
        0 <= n <= edges.len(),
    ensures
        forall|x: int|
            0 <= x < targets::roots(edges, n).len() ==> is_one_end(
                edges,
                n,
                #[trigger] targets::roots(edges, n)[x],
            ),
        forall|i: int, path: Seq<char>|
            i < n && #[trigger] is_end(edges, i, path) ==> has_end(
                edges,
                targets::roots(edges, n),
                i,
            ),
    decreases n,
{
    if n > 0 {
        lemma_roots(edges, n - 1);
        let before = targets::roots(edges, n - 1);
        let all = targets::roots(edges, n);
        let outputs = manifest::outputs_of(edges[n - 1]);
        let first = targets::first_root(edges, outputs, 0);
        lemma_first_root(edges, outputs, 0);
        if let Some(root) = first {
            lemma_uses(edges[n - 1], root);
            lemma_is_input(edges, root);
            assert(is_end(edges, n - 1, root));
            assert(all[before.len() as int] == root);
        }
        assert forall|x: int| 0 <= x < all.len() implies is_one_end(
            edges,
            n,
            #[trigger] all[x],
        ) by {
            if x < before.len() {
                assert(all[x] == before[x]);
                assert(is_one_end(edges, n - 1, before[x]));
                let i = choose|i: int| i < n - 1 && #[trigger] is_end(edges, i, before[x]);
                assert(is_end(edges, i, all[x]));
            } else {
                assert(is_end(edges, n - 1, all[x]));
            }
        }
        assert forall|i: int, path: Seq<char>| i < n && #[trigger] is_end(
            edges,
            i,
            path,
        ) implies has_end(edges, all, i) by {
            if i < n - 1 {
                assert(has_end(edges, before, i));
                let x = choose|x: int|
                    0 <= x < before.len() && is_end(edges, i, #[trigger] before[x]);
                assert(all[x] == before[x]);
                assert(is_end(edges, i, all[x]));
            } else {
                lemma_uses(edges[n - 1], path);
                lemma_is_input(edges, path);
                let y = outputs.index_of(path);
                assert(outputs[y] == path);
                assert(first is Some);
                assert(is_end(edges, i, all[before.len() as int]));
            }
        }
    }
}

/// Where nothing was asked for, the defaults are built. Where there are none, every edge is
/// that makes something that no edge takes, and what is built is of that kind; where there is
/// no such edge, there is nothing to begin with.
pub proof fn law_what_is_built_by_default(
    m: ManifestView,
    outputs: Map<Seq<char>, usize>,
    log: LogView,
    windows: bool,
)
    ensures
        ({
            let list = targets::wanted(m, seq![], outputs, log, windows);
            let n = m.edges.len() as int;
            &&& m.defaults.len() > 0 ==> list == Ok::<Seq<Seq<char>>, Seq<char>>(m.defaults)
            &&& m.defaults.len() == 0 ==> {
                &&& list is Ok <==> n == 0 || exists|path: Seq<char>| #[trigger]
                    is_one_end(m.edges, n, path)
                &&& list is Ok ==> {
                    &&& forall|x: int|
                        0 <= x < list->Ok_0.len() ==> is_one_end(
                            m.edges,
                            n,
                            #[trigger] list->Ok_0[x],
                        )
                    &&& forall|i: int, path: Seq<char>| #[trigger]
                        is_end(m.edges, i, path) ==> has_end(m.edges, list->Ok_0, i)
                }
            }
        }),
{
    let n = m.edges.len() as int;
    lemma_roots(m.edges, n);
    let all = targets::roots(m.edges, n);
    if all.len() > 0 {
        assert(is_one_end(m.edges, n, all[0]));
    }
    if exists|path: Seq<char>| #[trigger] is_one_end(m.edges, n, path) {
        let path = choose|path: Seq<char>| #[trigger] is_one_end(m.edges, n, path);
        let i = choose|i: int| i < n && #[trigger] is_end(m.edges, i, path);
        assert(has_end(m.edges, all, i));
    }
}

/// Whether a path may be built: it is an output, or a file that is there and that an edge needs.
pub open spec fn may_be_built(
    m: ManifestView,
    outputs: Map<Seq<char>, usize>,
    there: spec_fn(Seq<char>) -> bool,
    path: Seq<char>,
) -> bool {
    outputs.contains_key(path) || (there(path) && exists|i: int|
        0 <= i < m.edges.len() && needs(#[trigger] m.edges[i], path))
}

proof fn lemma_needed(edges: Seq<EdgeView>, path: Seq<char>)
    ensures
        targets::is_needed(edges, path) <==> exists|i: int|
            0 <= i < edges.len() && needs(#[trigger] edges[i], path),
{
    assert forall|i: int| 0 <= i < edges.len() implies (targets::uses(#[trigger] edges[i], path)
        <==> needs(edges[i], path)) by {
        lemma_uses(edges[i], path);
    }
    if targets::is_needed(edges, path) {
        let i = choose|i: int| 0 <= i < edges.len() && targets::uses(#[trigger] edges[i], path);
        assert(needs(edges[i], path));
    }
    if exists|i: int| 0 <= i < edges.len() && needs(#[trigger] edges[i], path) {
        let i = choose|i: int| 0 <= i < edges.len() && needs(#[trigger] edges[i], path);
        assert(targets::uses(edges[i], path));
    }
}

/// The edges that make what is to be built are those to which its paths lead, all of them and no
/// others. There are such edges exactly where every path may be built.
pub proof fn law_edges_of_what_is_built(
    m: ManifestView,
    list: Seq<Seq<char>>,
    outputs: Map<Seq<char>, usize>,
    there: spec_fn(Seq<char>) -> bool,
    n: int,
)
    requires
        0 <= n <= list.len(),
    ensures
        ({
            let r = targets::edges_of(m, list, outputs, there, n);
            &&& r is Ok <==> forall|i: int|
                0 <= i < n ==> may_be_built(m, outputs, there, #[trigger] list[i])
            &&& r is Ok ==> forall|k: usize| #[trigger]
                r->Ok_0.contains(k) <==> exists|i: int|
                    0 <= i < n && outputs.contains_key(#[trigger] list[i]) && outputs[list[i]] == k
        }),
    decreases n,
{
    if n > 0 {
        law_edges_of_what_is_built(m, list, outputs, there, n - 1);
        let path = list[n - 1];
        lemma_needed(m.edges, path);
        let before = targets::edges_of(m, list, outputs, there, n - 1);
        let r = targets::edges_of(m, list, outputs, there, n);
        if r is Ok {
            assert forall|k: usize| #[trigger]
                r->Ok_0.contains(k) <==> exists|i: int|
                    0 <= i < n && outputs.contains_key(#[trigger] list[i]) && outputs[list[i]]
                        == k by {
                if before->Ok_0.contains(k) {
                    let i = choose|i: int|
                        0 <= i < n - 1 && outputs.contains_key(#[trigger] list[i])
                            && outputs[list[i]] == k;
                    assert(outputs.contains_key(list[i]));
                }
                if exists|i: int|
                    0 <= i < n && outputs.contains_key(#[trigger] list[i]) && outputs[list[i]]
                        == k {
                    let i = choose|i: int|
                        0 <= i < n && outputs.contains_key(#[trigger] list[i]) && outputs[list[i]]
                            == k;
                    if i < n - 1 {
                        assert(before->Ok_0.contains(k));
                    }
                }
            }
        }
    }
}

/// A target that was asked for by the name of an output stands for that output, however the
/// name is written.
pub proof fn law_output_stands_for_itself(
    m: ManifestView,
    target: Seq<char>,
    outputs: Map<Seq<char>, usize>,
    log: LogView,
    windows: bool,
)
    requires
        ({
            let path = paths::canonical(target, windows).0;
            outputs.contains_key(path) && path.len() > 0 && path.last() != '^'
        }),
    ensures
        targets::requested_path(m, target, outputs, log, windows) == Ok::<Seq<char>, Seq<char>>(
            paths::canonical(target, windows).0,
        ),
{
}

proof fn lemma_first_dependent(edges: Seq<EdgeView>, path: Seq<char>, i: int, k: int)
    requires
        0 <= i <= k < edges.len(),
        uses(edges[k], path),
        manifest::outputs_of(edges[k]).len() > 0,
        forall|j: int|
            i <= j < k ==> !uses(#[trigger] edges[j], path) || manifest::outputs_of(edges[j]).len()
                == 0,
    ensures
        targets::first_dependent(edges, path, i) == Some(manifest::outputs_of(edges[k])[0]),
    decreases k - i,
{
    lemma_uses(edges[i], path);
    if i < k {
        assert(!uses(edges[i], path) || manifest::outputs_of(edges[i]).len() == 0);
        lemma_first_dependent(edges, path, i + 1, k);
    }
}

/// A target whose name is a path that edges know and `^` stands for the first explicit output
/// of the first edge that takes the path.
pub proof fn law_caret_stands_for_what_depends(
    m: ManifestView,
    target: Seq<char>,
    outputs: Map<Seq<char>, usize>,
    log: LogView,
    windows: bool,
    path: Seq<char>,
    k: int,
)
    requires
        target.len() > 0,
        paths::canonical(target, windows).0 == path.push('^'),
        manifest::names_path(m.edges, path),
        0 <= k < m.edges.len(),
        uses(m.edges[k], path),
        m.edges[k].explicit_outputs.len() > 0,
        forall|j: int|
            0 <= j < k ==> !uses(#[trigger] m.edges[j], path) || (m.edges[j].explicit_outputs.len()
                == 0 && m.edges[j].implicit_outputs.len() == 0),
    ensures
        targets::requested_path(m, target, outputs, log, windows) == Ok::<Seq<char>, Seq<char>>(
            m.edges[k].explicit_outputs[0],
        ),
{
    let whole = path.push('^');
    assert(whole.drop_last() =~= path);
    assert(whole.last() == '^');
    assert forall|j: int| 0 <= j < k implies !uses(#[trigger] m.edges[j], path)
        || manifest::outputs_of(m.edges[j]).len() == 0 by {}
    lemma_first_dependent(m.edges, path, 0, k);
}

proof fn lemma_plan_len(m: ManifestView, s: Situation, phonies: bool, list: Seq<usize>, n: int)
    requires
        n <= list.len(),
        forall|x: int| 0 <= x < list.len() ==> (#[trigger] list[x]) < m.edges.len(),
    ensures
        dirty_plan::plan(m, s, phonies, list, n).dirty.len() == m.edges.len(),
    decreases n,
{
    if n > 0 {
        lemma_plan_len(m, s, phonies, list, n - 1);
        assert(list[n - 1] < m.edges.len());
    }
}

proof fn lemma_plan_stays(
    m: ManifestView,
    s: Situation,
    phonies: bool,
    list: Seq<usize>,
    n: int,
    i: int,
)
    requires
        0 <= i < n <= list.len(),
        list.no_duplicates(),
        forall|x: int| 0 <= x < list.len() ==> (#[trigger] list[x]) < m.edges.len(),
    ensures
        dirty_plan::plan(m, s, phonies, list, n).dirty[list[i] as int] == dirty_plan::plan(
            m,
            s,
            phonies,
            list,
            i + 1,
        ).dirty[list[i] as int],
    decreases n,
{
    if i + 1 < n {
        lemma_plan_stays(m, s, phonies, list, n - 1, i);
        lemma_plan_len(m, s, phonies, list, n - 1);
        assert(list[i] != list[n - 1]);
    }
}

/// What is made from something that will be made will be made too: an edge that is not phony
/// will run where an edge before it will that makes one of its explicit or implicit inputs. So
/// it is with phony edges where they are taken into account.
pub proof fn law_dirt_reaches_what_is_made_from_it(
    m: ManifestView,
    s: Situation,
    phonies: bool,
    list: Seq<usize>,
    i: int,
    j: int,
    path: Seq<char>,
)
    requires
        0 <= i < j < list.len(),
        list.no_duplicates(),
        forall|x: int| 0 <= x < list.len() ==> (#[trigger] list[x]) < m.edges.len(),
        m.edges[list[j] as int].rule != "phony"@ || phonies,
        stale_laws::is_made_from(m.edges[list[j] as int], path),
        s.world.outputs.contains_key(path),
        s.world.outputs[path] == list[i],
        dirty_plan::plan(m, s, phonies, list, list.len() as int).dirty[list[i] as int],
    ensures
        dirty_plan::plan(m, s, phonies, list, list.len() as int).dirty[list[j] as int],
{
    let n = list.len() as int;
    let e = m.edges[list[j] as int];
    lemma_plan_stays(m, s, phonies, list, n, i);
    lemma_plan_stays(m, s, phonies, list, n, j);
    lemma_plan_stays(m, s, phonies, list, j, i);
    lemma_plan_len(m, s, phonies, list, j);
    lemma_uses(e, path);
    let sources = freshness::sources(e);
    let x = sources.index_of(path);
    assert(sources[x] == path);
    dirty_plan::law_dirt_is_passed_on(
        m,
        s,
        phonies,
        list[j],
        dirty_plan::plan(m, s, phonies, list, j),
        x,
    );
}

/// Whether an edge needs a path that is neither there nor made by an edge. What only comes
/// before a phony edge does not count.
pub open spec fn misses(w: World, e: EdgeView, path: Seq<char>) -> bool {
    &&& !w.times.contains_key(path)
    &&& !w.outputs.contains_key(path)
    &&& stale_laws::is_made_from(e, path) || (e.rule != "phony"@ && e.order_only_inputs.contains(
        path,
    ))
}

proof fn lemma_first_lost(w: World, list: Seq<Seq<char>>, i: int)
    requires
        0 <= i <= list.len(),
    ensures
        dirty_plan::first_lost(w, list, i) matches Some(path) ==> list.contains(path)
            && !w.times.contains_key(path) && !w.outputs.contains_key(path),
        dirty_plan::first_lost(w, list, i) is None ==> forall|j: int|
            i <= j < list.len() ==> w.times.contains_key(#[trigger] list[j])
                || w.outputs.contains_key(list[j]),
    decreases list.len() - i,
{
    if i < list.len() {
        if w.outputs.contains_key(list[i]) || w.times.contains_key(list[i]) {
            lemma_first_lost(w, list, i + 1);
        } else {
            assert(list.contains(list[i]));
        }
    }
}

proof fn lemma_lost_source(m: ManifestView, w: World, list: Seq<usize>, i: int)
    requires
        0 <= i <= list.len(),
    ensures
        dirty_plan::lost_source(m, w, list, i) is None <==> forall|x: int, path: Seq<char>|
            i <= x < list.len() ==> !#[trigger] misses(w, m.edges[list[x] as int], path),
    decreases list.len() - i,
{
    if i < list.len() {
        let e = m.edges[list[i] as int];
        let sources = freshness::sources(e);
        lemma_first_lost(w, sources, 0);
        lemma_first_lost(w, e.order_only_inputs, 0);
        lemma_lost_source(m, w, list, i + 1);
        if let Some(path) = dirty_plan::first_lost(w, sources, 0) {
            lemma_uses(e, path);
            assert(misses(w, m.edges[list[i] as int], path));
        } else if e.rule != "phony"@ && dirty_plan::first_lost(w, e.order_only_inputs, 0) is Some {
            let path = dirty_plan::first_lost(w, e.order_only_inputs, 0)->Some_0;
            assert(misses(w, m.edges[list[i] as int], path));
        } else {
            assert forall|path: Seq<char>| !#[trigger] misses(w, e, path) by {
                lemma_uses(e, path);
                if sources.contains(path) {
                    assert(sources[sources.index_of(path)] == path);
                }
                if e.order_only_inputs.contains(path) {
                    assert(e.order_only_inputs[e.order_only_inputs.index_of(path)] == path);
                }
            }
        }
    }
}

/// A build whose edges miss something does not begin: a source that is neither there nor made
/// is said to be missing.
pub proof fn law_missing_sources_are_told(
    m: ManifestView,
    s: Situation,
    list: Seq<usize>,
    i: int,
    path: Seq<char>,
)
    requires
        0 <= i < list.len(),
        misses(s.world, m.edges[list[i] as int], path),
    ensures
        dirty_plan::missing_source(m, s, list) is Some,
{
    lemma_lost_source(m, s.world, list, 0);
}

/// A build in which no edge misses anything, and no phony edge comes behind a path that is
/// neither there nor made, may begin.
pub proof fn law_build_with_its_sources_may_begin(m: ManifestView, s: Situation, list: Seq<usize>)
    requires
        forall|i: int, path: Seq<char>|
            0 <= i < list.len() ==> !#[trigger] misses(s.world, m.edges[list[i] as int], path),
        forall|i: int, j: int|
            0 <= i < list.len() && 0 <= j < m.edges[list[i] as int].order_only_inputs.len()
                ==> s.world.times.contains_key(
                #[trigger] m.edges[list[i] as int].order_only_inputs[j],
            ) || s.world.outputs.contains_key(m.edges[list[i] as int].order_only_inputs[j]),
    ensures
        dirty_plan::missing_source(m, s, list) is None,
{
    lemma_lost_source(m, s.world, list, 0);
    lemma_no_lost_order(
        m,
        s.world,
        dirty_plan::plan(m, s, true, list, list.len() as int).dirty,
        list,
        0,
    );
}

proof fn lemma_no_lost_order(
    m: ManifestView,
    w: World,
    dirty: Seq<bool>,
    list: Seq<usize>,
    i: int,
)
    requires
        0 <= i <= list.len(),
        forall|x: int, j: int|
            0 <= x < list.len() && 0 <= j < m.edges[list[x] as int].order_only_inputs.len()
                ==> w.times.contains_key(
                #[trigger] m.edges[list[x] as int].order_only_inputs[j],
            ) || w.outputs.contains_key(m.edges[list[x] as int].order_only_inputs[j]),
    ensures
        dirty_plan::lost_order(m, w, dirty, list, i) is None,
    decreases list.len() - i,
{
    if i < list.len() {
        let inputs = m.edges[list[i] as int].order_only_inputs;
        lemma_first_lost(w, inputs, 0);
        if let Some(path) = dirty_plan::first_lost(w, inputs, 0) {
            let j = inputs.index_of(path);
            assert(w.times.contains_key(m.edges[list[i] as int].order_only_inputs[j])
                || w.outputs.contains_key(m.edges[list[i] as int].order_only_inputs[j]));
        }
        lemma_no_lost_order(m, w, dirty, list, i + 1);
    }
}

/// Whether an output is there once a command has run, with a time.
pub open spec fn is_there(r: RunView, i: int, t: u128) -> bool {
    0 <= i < r.after.len() && r.after[i] == Some(t)
}

/// Whether a command of an edge with `restat` left an output as it was.
pub open spec fn is_unchanged(r: RunView, i: int) -> bool {
    0 <= i < r.after.len() && r.restat && r.before[i] == r.after[i]
}

proof fn lemma_newest(after: Seq<Option<u128>>, n: int)
    requires
        0 <= n <= after.len(),
    ensures
        completion::newest_output(after, n) is Some <==> exists|i: int|
            0 <= i < n && (#[trigger] after[i]) is Some,
        completion::newest_output(after, n) matches Some(t) ==> (forall|i: int|
            0 <= i < n ==> ((#[trigger] after[i]) matches Some(u) ==> u <= t)) && exists|i: int|
            0 <= i < n && #[trigger] after[i] == Some(t),
    decreases n,
{
    if n > 0 {
        lemma_newest(after, n - 1);
    }
}

/// With an output the log gets the time at which its command began. It gets the latest time of
/// an output where that is not known, for a generator, and for an edge with `restat`, as long as
/// no output was left as it was and there is an output.
pub proof fn law_time_that_is_logged(r: RunView)
    requires
        completion::is_run(r),
    ensures
        ({
            let t = completion::log_mtime(r);
            let latest = (r.start == 0 || r.restat || r.generator) && !(exists|i: int| #[trigger]
                is_unchanged(r, i)) && exists|i: int, u: u128| #[trigger] is_there(r, i, u);
            &&& !latest ==> t == r.start
            &&& latest ==> (exists|i: int| #[trigger] is_there(r, i, t)) && forall|
                i: int,
                u: u128,
            | #[trigger]
                is_there(r, i, u) ==> u <= t
        }),
{
    let n = r.after.len() as int;
    lemma_newest(r.after, n);
    let newest = completion::newest_output(r.after, n);
    if exists|i: int| 0 <= i < r.after.len() && #[trigger] completion::is_left(r, i) {
        let i = choose|i: int| 0 <= i < r.after.len() && #[trigger] completion::is_left(r, i);
        assert(is_unchanged(r, i));
    }
    if exists|i: int| #[trigger] is_unchanged(r, i) {
        let i = choose|i: int| #[trigger] is_unchanged(r, i);
        assert(completion::is_left(r, i));
    }
    let left = exists|i: int| 0 <= i < r.after.len() && #[trigger] completion::is_left(r, i);
    assert(left <==> exists|i: int| #[trigger] is_unchanged(r, i));
    if let Some(t) = newest {
        assert(completion::log_mtime(r) == (if (r.start == 0 || r.restat || r.generator) && !left {
            t
        } else {
            r.start
        }));
        let i = choose|i: int| 0 <= i < n && #[trigger] r.after[i] == Some(t);
        assert(is_there(r, i, t));
        assert forall|i: int, u: u128| #[trigger] is_there(r, i, u) implies u <= t by {
            assert(r.after[i] == Some(u));
        }
    } else {
        assert forall|i: int, u: u128| !#[trigger] is_there(r, i, u) by {
            if is_there(r, i, u) {
                assert(r.after[i] is Some);
            }
        }
    }
}

/// For the rest of a build an output has the time of its file. One that the command did not make
/// counts as newer than everything, unless it was not there before either and the edge has
/// `restat`: then it has its time in the log, and none where the log does not know it.
pub proof fn law_time_of_an_output(r: RunView, i: int)
    requires
        completion::is_run(r),
        0 <= i < r.after.len(),
    ensures
        r.after[i] matches Some(t) ==> completion::output_time(r, i) == t,
        r.after[i] is None && (!r.restat || r.before[i] is Some) ==> completion::output_time(r, i)
            == u128::MAX,
        r.after[i] is None && r.restat && r.before[i] is None ==> completion::output_time(r, i) == (
        match r.logged[i] {
            Some(t) => t as u128,
            None => 0,
        }),
{
}

/// What the dependency log knows of the inputs of an edge counts exactly where it has an entry
/// for the first explicit output that is no older than that output, which is there. Then the
/// inputs are those of the entry, in order, by the names by which they are known.
pub proof fn law_logged_inputs_count_while_they_are_fresh(
    e: EdgeView,
    log: LogView,
    times: Map<Seq<char>, u128>,
    windows: bool,
)
    requires
        e.explicit_outputs.len() > 0,
    ensures
        ({
            let output = e.explicit_outputs[0];
            let fresh = log.entries.contains_key(output) && times.contains_key(output)
                && times[output] <= log.entries[output].mtime;
            let found = discovery::found_in_log(e, log, times, true, windows);
            &&& found.missing == !fresh
            &&& found.error is None
            &&& !fresh ==> found.inputs == Seq::<Seq<char>>::empty()
            &&& fresh ==> found.inputs == dyndep_laws::known_paths(
                log.entries[output].inputs,
                windows,
            )
        }),
{
    assert(manifest::outputs_of(e)[0] == e.explicit_outputs[0]);
    if log.entries.contains_key(e.explicit_outputs[0]) {
        dyndep_laws::lemma_known(log.entries[e.explicit_outputs[0]].inputs, windows);
    }
}

proof fn lemma_undeclared(declared: Seq<Seq<char>>, outputs: Seq<Seq<char>>, i: int)
    requires
        0 <= i <= outputs.len(),
    ensures
        discovery::first_undeclared(declared, outputs, i) is None <==> forall|j: int|
            i <= j < outputs.len() ==> declared.contains(#[trigger] outputs[j]),
    decreases outputs.len() - i,
{
    if i < outputs.len() && declared.contains(outputs[i]) {
        lemma_undeclared(declared, outputs, i + 1);
    }
}

/// A depfile counts for an edge exactly where it begins with the first explicit output of the
/// edge and names only outputs of the edge as targets. Then the inputs are its prerequisites, in
/// order, by the names by which they are known.
pub proof fn law_depfile_inputs_are_found(
    e: EdgeView,
    path: Seq<char>,
    source: Seq<char>,
    windows: bool,
)
    requires
        e.explicit_outputs.len() > 0,
        depfile::depfile(source) is Ok,
    ensures
        ({
            let d = depfile::depfile(source)->Ok_0;
            let found = discovery::found_in_depfile(e, path, source, windows);
            let begins = d.outputs.len() > 0 && paths::canonical(d.outputs[0], windows).0
                == e.explicit_outputs[0];
            let declared = forall|i: int|
                0 <= i < d.outputs.len() ==> closure_laws::makes(
                    e,
                    paths::canonical(#[trigger] d.outputs[i], windows).0,
                );
            &&& found.missing == !begins
            &&& found.error is Some <==> begins && !declared
            &&& begins && declared ==> found.inputs == dyndep_laws::known_paths(d.inputs, windows)
            &&& !(begins && declared) ==> found.inputs == Seq::<Seq<char>>::empty()
        }),
{
    let d = depfile::depfile(source)->Ok_0;
    let outputs = manifest::outputs_of(e);
    assert(outputs[0] == e.explicit_outputs[0]);
    let named = dyndep_laws::known_paths(d.outputs, windows);
    dyndep_laws::lemma_known(d.outputs, windows);
    dyndep_laws::lemma_known(d.inputs, windows);
    let inputs = dyndep_laws::known_paths(d.inputs, windows);
    dyndep_laws::lemma_known(inputs, windows);
    assert(dyndep_laws::known_paths(inputs, windows) =~= inputs) by {
        assert forall|i: int| 0 <= i < inputs.len() implies paths::canonical(
            #[trigger] inputs[i],
            windows,
        ).0 == inputs[i] by {
            paths::law_canonical_is_idempotent(d.inputs[i], windows);
        }
    }
    lemma_undeclared(outputs, named, 0);
    assert forall|i: int| 0 <= i < d.outputs.len() implies (outputs.contains(
        #[trigger] named[i],
    ) <==> closure_laws::makes(e, paths::canonical(d.outputs[i], windows).0)) by {
        lemma_uses(e, named[i]);
    }
    if forall|j: int| 0 <= j < named.len() ==> outputs.contains(#[trigger] named[j]) {
        assert forall|i: int| 0 <= i < d.outputs.len() implies closure_laws::makes(
            e,
            paths::canonical(#[trigger] d.outputs[i], windows).0,
        ) by {
            assert(outputs.contains(named[i]));
        }
    } else {
        let j = choose|j: int| 0 <= j < named.len() && !outputs.contains(#[trigger] named[j]);
        assert(!closure_laws::makes(e, paths::canonical(d.outputs[j], windows).0));
    }
}

} // verus!
