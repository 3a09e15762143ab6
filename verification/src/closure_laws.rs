//! What can be relied on of the edges that targets need.
use crate::closure;
use crate::closure::Circle;
use crate::closure::GraphView;
use crate::cycle;
use crate::dyndep_apply;
use crate::links;
use crate::manifest;
use crate::manifest::EdgeView;
use vstd::prelude::*;

verus! {

/// Whether an edge has an output.
pub open spec fn makes(e: EdgeView, path: Seq<char>) -> bool {
    e.explicit_outputs.contains(path) || e.implicit_outputs.contains(path)
}

/// Whether edge `k` has an input: one that the manifest names, or one that was found when
/// the edge last ran.
pub open spec fn takes(g: GraphView, k: usize, path: Seq<char>) -> bool {
    let e = g.edges[k as int];
    ||| e.explicit_inputs.contains(path)
    ||| e.implicit_inputs.contains(path)
    ||| e.order_only_inputs.contains(path)
    ||| g.discovered[k as int].contains(path)
}

/// Whether edge `k` takes something that edge `p` makes, by a path.
pub open spec fn takes_from(g: GraphView, k: usize, path: Seq<char>, p: usize) -> bool {
    takes(g, k, path) && g.outputs.contains_key(path) && g.outputs[path] == p
}

/// Whether edge `k` takes something that edge `p` makes.
pub open spec fn depends_on(g: GraphView, k: usize, p: usize) -> bool {
    exists|path: Seq<char>| #[trigger] takes_from(g, k, path, p)
}

/// Whether edge `k` asks for edge `p` to be made too, by a validation.
pub open spec fn checks_with(g: GraphView, k: usize, path: Seq<char>, p: usize) -> bool {
    g.edges[k as int].validations.contains(path) && g.outputs.contains_key(path)
        && g.outputs[path] == p
}

/// Whether an edge may take its own output: a phony edge that has one output and no implicit
/// inputs, unless that is to be an error.
pub open spec fn may_take_its_own(g: GraphView, k: usize) -> bool {
    let e = g.edges[k as int];
    &&& !g.strict
    &&& e.rule == "phony"@
    &&& e.explicit_outputs.len() == 1
    &&& e.implicit_outputs.len() == 0
    &&& e.implicit_inputs.len() == 0
}

/// Whether a set of edges lacks nothing that its edges take or check with.
pub open spec fn lacks_nothing(g: GraphView, set: Set<usize>) -> bool {
    &&& forall|k: usize, path: Seq<char>, p: usize|
        set.contains(k) && #[trigger] takes_from(g, k, path, p) ==> set.contains(p)
    &&& forall|k: usize, path: Seq<char>, p: usize|
        set.contains(k) && #[trigger] checks_with(g, k, path, p) ==> set.contains(p)
}

/// Whether an edge stands in a list before a position.
pub open spec fn stands_before(list: Seq<usize>, i: int, p: usize) -> bool {
    exists|x: int| 0 <= x < i && #[trigger] list[x] == p
}

/// Whether each edge takes something from the next, and the last from the first, by a path.
pub open spec fn goes_round(g: GraphView, edges: Seq<usize>, path: Seq<char>) -> bool {
    &&& edges.len() > 0
    &&& forall|i: int|
        0 <= i < edges.len() ==> (#[trigger] edges[i]) < g.edges.len()
    &&& forall|i: int, next: int|
        0 <= i && next == i + 1 && next < edges.len() ==> depends_on(
            g,
            #[trigger] edges[i],
            #[trigger] edges[next],
        )
    &&& depends_on(g, edges.last(), edges[0])
    &&& g.outputs.contains_key(path) && g.outputs[path] == edges[0]
    &&& edges.len() == 1 ==> !may_take_its_own(g, edges[0])
}

pub proof fn lemma_takes(g: GraphView, k: usize, path: Seq<char>)
    ensures
        takes(g, k, path) <==> closure::names(g, k).contains(path),
{
    let e = g.edges[k as int];
    let a = e.explicit_inputs;
    let b = e.implicit_inputs;
    let c = e.order_only_inputs;
    let d = g.discovered[k as int];
    let names = closure::names(g, k);
    assert(names =~= a + b + c + d);
    if names.contains(path) {
        let x = names.index_of(path);
        assert(names[x] == path);
        if x < a.len() {
            assert(a[x] == path);
        } else if x < a.len() + b.len() {
            assert(b[x - a.len()] == path);
        } else if x < a.len() + b.len() + c.len() {
            assert(c[x - a.len() - b.len()] == path);
        } else {
            assert(d[x - a.len() - b.len() - c.len()] == path);
        }
    }
    if a.contains(path) {
        assert(names[a.index_of(path)] == path);
    }
    if b.contains(path) {
        assert(names[a.len() + b.index_of(path)] == path);
    }
    if c.contains(path) {
        assert(names[a.len() + b.len() + c.index_of(path)] == path);
    }
    if d.contains(path) {
        assert(names[a.len() + b.len() + c.len() + d.index_of(path)] == path);
    }
}

proof fn lemma_waits(g: GraphView, k: usize, p: usize)
    ensures
        closure::waits_for(g, k, p) <==> (p != k || !may_take_its_own(g, k)) && depends_on(
            g,
            k,
            p,
        ),
{
    if closure::waits_for(g, k, p) {
        let j = choose|j: int|
            0 <= j < closure::names(g, k).len() && #[trigger] closure::awaited(g, k, j) == Some(p);
        let path = closure::names(g, k)[j];
        lemma_takes(g, k, path);
        assert(takes_from(g, k, path, p));
    }
    if (p != k || !may_take_its_own(g, k)) && depends_on(g, k, p) {
        let path = choose|path: Seq<char>| #[trigger] takes_from(g, k, path, p);
        lemma_takes(g, k, path);
        let j = closure::names(g, k).index_of(path);
        assert(closure::awaited(g, k, j) == Some(p));
    }
}

/// The list of edges that targets need has every target, no edge twice, and each edge behind
/// all edges that make what it takes. Validations are in the list too. An edge that takes its
/// own output may.
pub proof fn law_needed_edges_stand_behind_what_they_take(g: GraphView, targets: Seq<usize>)
    requires
        closure::is_graph(g),
        forall|i: int| 0 <= i < targets.len() ==> (#[trigger] targets[i]) < g.edges.len(),
        closure::needed(g, targets) is Ok,
    ensures
        ({
            let list = closure::needed(g, targets)->Ok_0;
            &&& forall|i: int| 0 <= i < targets.len() ==> list.contains(#[trigger] targets[i])
            &&& forall|i: int, j: int|
                0 <= i < j < list.len() ==> #[trigger] list[i] != #[trigger] list[j]
            &&& forall|i: int| 0 <= i < list.len() ==> (#[trigger] list[i]) < g.edges.len()
            &&& forall|i: int, path: Seq<char>, p: usize|
                0 <= i < list.len() && #[trigger] takes_from(g, list[i], path, p) ==> (if p
                    == list[i] {
                    may_take_its_own(g, p)
                } else {
                    stands_before(list, i, p)
                })
            &&& forall|i: int, path: Seq<char>, p: usize|
                0 <= i < list.len() && #[trigger] checks_with(g, list[i], path, p)
                    ==> list.contains(p)
        }),
{
    closure::law_needed_edges_come_in_order(g, targets);
    let list = closure::needed(g, targets)->Ok_0;
    assert forall|i: int, path: Seq<char>, p: usize|
        0 <= i < list.len() && #[trigger] takes_from(g, list[i], path, p) implies (if p
        == list[i] {
        may_take_its_own(g, p)
    } else {
        stands_before(list, i, p)
    }) by {
        let k = list[i];
        lemma_takes(g, k, path);
        let j = closure::names(g, k).index_of(path);
        if !(p == k && may_take_its_own(g, k)) {
            assert(closure::awaited(g, list[i], j) == Some(p));
            let before = list.take(i);
            let x = before.index_of(p);
            assert(list[x] == p);
            if p == k {
                assert(list[x] == list[i]);
            }
        }
    }
    assert forall|i: int, path: Seq<char>, p: usize|
        0 <= i < list.len() && #[trigger] checks_with(
            g,
            list[i],
            path,
            p,
        ) implies list.contains(p) by {
        let v = g.edges[list[i] as int].validations.index_of(path);
        assert(g.edges[list[i] as int].validations[v] == path);
    }
}

proof fn lemma_settling_within(
    g: GraphView,
    open: Seq<usize>,
    j: int,
    done: Seq<usize>,
    set: Set<usize>,
)
    requires
        closure::is_graph(g),
        open.len() > 0,
        lacks_nothing(g, set),
        forall|i: int| 0 <= i < open.len() ==> set.contains(#[trigger] open[i]),
        forall|i: int| 0 <= i < done.len() ==> set.contains(#[trigger] done[i]),
    ensures
        match closure::settling(g, open, j, done) {
            Ok(more) => forall|i: int| 0 <= i < more.len() ==> set.contains(#[trigger] more[i]),
            Err(c) => forall|i: int| 0 <= i < c.edges.len() ==> set.contains(#[trigger] c.edges[i]),
        },
    decreases g.edges.len() - open.len(), closure::names(g, open.last()).len() - j,
{
    let k = open.last();
    assert(open[open.len() - 1] == k);
    if j < 0 || j >= closure::names(g, k).len() || open.len() > g.edges.len() {
    } else {
        match closure::awaited(g, k, j) {
            None => {
                lemma_settling_within(g, open, j + 1, done, set);
            },
            Some(p) => {
                let path = closure::names(g, k)[j];
                lemma_takes(g, k, path);
                assert(closure::names(g, k).contains(path));
                assert(takes_from(g, k, path, p));
                assert(set.contains(p));
                if done.contains(p) {
                    lemma_settling_within(g, open, j + 1, done, set);
                } else if open.contains(p) || open.len() == g.edges.len() {
                    let at = cycle::position(open, p, 0);
                    lemma_position_range(open, p, 0);
                    let rest = open.skip(at);
                    assert forall|i: int| 0 <= i < rest.len() implies set.contains(
                        #[trigger] rest[i],
                    ) by {
                        assert(rest[i] == open[at + i]);
                    }
                } else {
                    lemma_settling_within(g, open.push(p), 0, done, set);
                    if let Ok(more) = closure::settling(g, open.push(p), 0, done) {
                        lemma_settling_within(g, open, j + 1, more, set);
                    }
                }
            },
        }
    }
}

proof fn lemma_position_range(open: Seq<usize>, p: usize, i: int)
    requires
        0 <= i <= open.len(),
    ensures
        i <= cycle::position(open, p, i) <= open.len(),
    decreases open.len() - i,
{
    if i < open.len() && open[i] != p {
        lemma_position_range(open, p, i + 1);
    }
}

proof fn lemma_settled_within(g: GraphView, k: usize, done: Seq<usize>, set: Set<usize>)
    requires
        closure::is_graph(g),
        lacks_nothing(g, set),
        set.contains(k),
        forall|i: int| 0 <= i < done.len() ==> set.contains(#[trigger] done[i]),
    ensures
        match closure::settled_with(g, k, done) {
            Ok(more) => forall|i: int| 0 <= i < more.len() ==> set.contains(#[trigger] more[i]),
            Err(c) => forall|i: int| 0 <= i < c.edges.len() ==> set.contains(#[trigger] c.edges[i]),
        },
{
    if !done.contains(k) {
        lemma_settling_within(g, seq![k], 0, done, set);
    }
}

proof fn lemma_targets_within(g: GraphView, targets: Seq<usize>, n: int, set: Set<usize>)
    requires
        closure::is_graph(g),
        lacks_nothing(g, set),
        0 <= n <= targets.len(),
        forall|i: int| 0 <= i < targets.len() ==> set.contains(#[trigger] targets[i]),
    ensures
        match closure::targets_settled(g, targets, n) {
            Ok(more) => forall|i: int| 0 <= i < more.len() ==> set.contains(#[trigger] more[i]),
            Err(c) => forall|i: int| 0 <= i < c.edges.len() ==> set.contains(#[trigger] c.edges[i]),
        },
    decreases n,
{
    if n > 0 {
        lemma_targets_within(g, targets, n - 1, set);
        if let Ok(done) = closure::targets_settled(g, targets, n - 1) {
            lemma_settled_within(g, targets[n - 1], done, set);
        }
    }
}

proof fn lemma_validations_within(
    g: GraphView,
    done: Seq<usize>,
    i: int,
    v: int,
    set: Set<usize>,
)
    requires
        closure::is_graph(g),
        lacks_nothing(g, set),
        forall|x: int| 0 <= x < done.len() ==> set.contains(#[trigger] done[x]),
    ensures
        match closure::validations_settled(g, done, i, v) {
            Ok(more) => forall|x: int| 0 <= x < more.len() ==> set.contains(#[trigger] more[x]),
            Err(c) => forall|x: int| 0 <= x < c.edges.len() ==> set.contains(#[trigger] c.edges[x]),
        },
    decreases
            g.edges.len() - done.len(),
            done.len() - i,
            g.edges[done[i] as int].validations.len() - v,
{
    let list = g.edges[done[i] as int].validations;
    if i < 0 || v < 0 || i >= done.len() || done.len() > g.edges.len() {
    } else if v >= list.len() {
        lemma_validations_within(g, done, i + 1, 0, set);
    } else {
        match closure::producer(g, list[v]) {
            None => {
                lemma_validations_within(g, done, i, v + 1, set);
            },
            Some(p) => {
                assert(list.contains(list[v]));
                assert(checks_with(g, done[i], list[v], p));
                lemma_settled_within(g, p, done, set);
                if let Ok(more) = closure::settled_with(g, p, done) {
                    if more == done || more.len() <= done.len() {
                        lemma_validations_within(g, done, i, v + 1, set);
                    } else if more.len() <= g.edges.len() {
                        lemma_validations_within(g, more, i, v + 1, set);
                    }
                }
            },
        }
    }
}

/// Targets need nothing but what is needed: the list of edges, and the circle where there is
/// one, are within every set of edges that holds the targets and lacks nothing.
pub proof fn law_nothing_else_is_needed(g: GraphView, targets: Seq<usize>, set: Set<usize>)
    requires
        closure::is_graph(g),
        lacks_nothing(g, set),
        forall|i: int| 0 <= i < targets.len() ==> set.contains(#[trigger] targets[i]),
    ensures
        match closure::needed(g, targets) {
            Ok(list) => forall|i: int| 0 <= i < list.len() ==> set.contains(#[trigger] list[i]),
            Err(c) => forall|i: int| 0 <= i < c.edges.len() ==> set.contains(#[trigger] c.edges[i]),
        },
{
    lemma_targets_within(g, targets, targets.len() as int, set);
    if let Ok(done) = closure::targets_settled(g, targets, targets.len() as int) {
        lemma_validations_within(g, done, 0, 0, set);
    }
}

/// Where edges are said to wait for each other in a circle, they do: each takes something
/// that the next makes, and the last takes something that the first makes.
pub proof fn law_circle_goes_round(g: GraphView, targets: Seq<usize>)
    requires
        closure::is_graph(g),
        forall|i: int| 0 <= i < targets.len() ==> (#[trigger] targets[i]) < g.edges.len(),
    ensures
        closure::needed(g, targets) matches Err(c) ==> goes_round(g, c.edges, c.input),
{
    closure::law_needed_edges_come_in_order(g, targets);
    if let Err(c) = closure::needed(g, targets) {
        let edges = c.edges;
        assert forall|i: int, next: int|
            0 <= i && next == i + 1 && next < edges.len() implies depends_on(
            g,
            #[trigger] edges[i],
            #[trigger] edges[next],
        ) by {
            assert(closure::waits_for(g, edges[i], edges[i + 1]));
            lemma_waits(g, edges[i], edges[next]);
        }
        lemma_waits(g, edges.last(), edges[0]);
    }
}

/// Edges that go round in a circle and are needed are never put in a list.
pub proof fn law_no_circle_is_listed(
    g: GraphView,
    targets: Seq<usize>,
    edges: Seq<usize>,
    path: Seq<char>,
)
    requires
        closure::is_graph(g),
        forall|i: int| 0 <= i < targets.len() ==> (#[trigger] targets[i]) < g.edges.len(),
        goes_round(g, edges, path),
        edges.no_duplicates(),
        closure::needed(g, targets) is Ok,
    ensures
        !closure::needed(g, targets)->Ok_0.contains(edges[0]),
{
    let list = closure::needed(g, targets)->Ok_0;
    if list.contains(edges[0]) {
        let c = Circle { edges, input: path };
        assert forall|i: int| 0 <= i < edges.len() - 1 implies closure::waits_for(
            g,
            #[trigger] edges[i],
            edges[i + 1],
        ) by {
            let next = i + 1;
            assert(depends_on(g, edges[i], edges[next]));
            lemma_waits(g, edges[i], edges[next]);
            assert(edges[i] != edges[next]);
        }
        lemma_waits(g, edges.last(), edges[0]);
        if edges.len() > 1 {
            assert(edges[edges.len() - 1] != edges[0]);
        }
        closure::law_needed_edges_have_no_circle(g, targets, c);
    }
}

proof fn lemma_producers(edges: Seq<EdgeView>, i: int, j: int, path: Seq<char>)
    requires
        0 <= i <= edges.len() <= usize::MAX,
        0 <= j,
        i == edges.len() ==> j == 0,
        i < edges.len() ==> j <= manifest::outputs_of(edges[i]).len(),
    ensures
        ({
            let map = closure::producers(edges, i, j);
            &&& map.contains_key(path) ==> map[path] <= i && map[path] < edges.len() && makes(
                edges[map[path] as int],
                path,
            )
            &&& forall|k: int|
                0 <= k < i && #[trigger] makes(edges[k], path) ==> map.contains_key(path) && k
                    <= map[path]
            &&& forall|x: int|
                0 <= x < j && #[trigger] manifest::outputs_of(edges[i])[x] == path
                    ==> map.contains_key(path) && map[path] == i
        }),
    decreases i, j,
{
    if j > 0 {
        lemma_producers(edges, i, j - 1, path);
        let e = edges[i];
        let last = manifest::outputs_of(e)[j - 1];
        assert(makes(e, last)) by {
            if j - 1 < e.explicit_outputs.len() {
                assert(e.explicit_outputs[j - 1] == last);
            } else {
                assert(e.implicit_outputs[j - 1 - e.explicit_outputs.len()] == last);
            }
        }
        let before = closure::producers(edges, i, j - 1);
        let map = closure::producers(edges, i, j);
        assert(map == before.insert(last, i as usize));
        assert forall|x: int|
            0 <= x < j && #[trigger] manifest::outputs_of(edges[i])[x]
                == path implies map.contains_key(path) && map[path] == i by {
            if x < j - 1 {
                assert(before.contains_key(path) && before[path] == i);
            }
        }
    } else if i > 0 {
        let n = manifest::outputs_of(edges[i - 1]).len() as int;
        lemma_producers(edges, i - 1, n, path);
        let map = closure::producers(edges, i, 0);
        let e = edges[i - 1];
        assert forall|k: int| 0 <= k < i && #[trigger] makes(
            edges[k],
            path,
        ) implies map.contains_key(path) && k <= map[path] by {
            if k == i - 1 {
                if e.explicit_outputs.contains(path) {
                    let x = e.explicit_outputs.index_of(path);
                    assert(manifest::outputs_of(edges[i - 1])[x] == path);
                } else {
                    let x = e.explicit_outputs.len() + e.implicit_outputs.index_of(path);
                    assert(manifest::outputs_of(edges[i - 1])[x] == path);
                }
            }
        }
    }
}

/// The edge of each output is the last edge that makes it, by an explicit or an implicit
/// output, and every path that an edge makes has one.
pub proof fn law_outputs_lead_to_their_edges(edges: Seq<EdgeView>, path: Seq<char>)
    requires
        edges.len() <= usize::MAX,
    ensures
        ({
            let map = closure::producers(edges, edges.len() as int, 0);
            &&& map.contains_key(path) ==> map[path] < edges.len() && makes(
                edges[map[path] as int],
                path,
            )
            &&& forall|k: int|
                0 <= k < edges.len() && #[trigger] makes(edges[k], path) ==> map.contains_key(
                    path,
                ) && k <= map[path]
        }),
{
    lemma_producers(edges, edges.len() as int, 0, path);
}

pub proof fn lemma_map_points(edges: Seq<EdgeView>)
    requires
        edges.len() <= usize::MAX,
    ensures
        dyndep_apply::points_into(
            closure::producers(edges, edges.len() as int, 0),
            edges.len(),
        ),
{
    let map = closure::producers(edges, edges.len() as int, 0);
    assert forall|path: Seq<char>| #[trigger] map.contains_key(path) implies map[path]
        < edges.len() by {
        law_outputs_lead_to_their_edges(edges, path);
    }
}

proof fn lemma_place(g: GraphView, k: usize, p: usize, n: int)
    requires
        0 <= n <= closure::names(g, k).len(),
    ensures
        links::place(g, k, p, n) is Some <==> exists|j: int|
            0 <= j < n && #[trigger] closure::awaited(g, k, j) == Some(p),
    decreases n,
{
    if n > 0 {
        lemma_place(g, k, p, n - 1);
    }
}

/// When an edge has finished, exactly those edges of a build are told that take something
/// that it makes.
pub proof fn law_edges_are_told_of_what_they_take(
    g: GraphView,
    list: Seq<usize>,
    told: Seq<Seq<usize>>,
    p: usize,
    k: usize,
)
    requires
        links::all_told(g, list, told),
        p < g.edges.len(),
        k < g.edges.len(),
    ensures
        told[p as int].contains(k) <==> list.contains(k) && depends_on(g, k, p) && (k != p
            || !may_take_its_own(g, k)),
{
    assert(links::are_told(g, list, p, told[p as int]));
    lemma_place(g, k, p, closure::names(g, k).len() as int);
    lemma_waits(g, k, p);
}

} // verus!
