//! The edges that targets need, each behind those that it waits for.
use crate::collections::map_get;
use crate::collections::map_insert;
use crate::collections::map_new;
use crate::cycle;
use crate::manifest;
use crate::manifest::Edge;
use crate::manifest::EdgeView;
use crate::manifest::Manifest;
use crate::spell;
use crate::text;
use crate::text::same_str;
use rapidhash::RapidHashMap;
use vstd::prelude::*;
use vstd::string::*;

verus! {

/// The outputs of the first `i` edges and the first `j` outputs of the edge
/// behind them, with their edges. Of two edges with an output, it has the later.
pub open spec fn producers(edges: Seq<EdgeView>, i: int, j: int) -> Map<Seq<char>, usize>
    decreases i, j,
{
    if i < 0 || (i == 0 && j <= 0) {
        Map::empty()
    } else if j <= 0 {
        producers(edges, i - 1, manifest::outputs_of(edges[i - 1]).len() as int)
    } else {
        producers(edges, i, j - 1).insert(manifest::outputs_of(edges[i])[j - 1], i as usize)
    }
}

/// The edge of each output.
pub fn output_map(manifest: &Manifest) -> (r: RapidHashMap<String, usize>)
    ensures
        r.deep_view() == producers(manifest.deep_view().edges, manifest.edges@.len() as int, 0),
        forall|path: Seq<char>| #[trigger]
            r.deep_view().contains_key(path) ==> r.deep_view()[path] < manifest.edges@.len(),
{
    let ghost edges = manifest.deep_view().edges;
    let mut r: RapidHashMap<String, usize> = map_new();
    let mut i: usize = 0;
    while i < manifest.edges.len()
        invariant
            i <= manifest.edges@.len(),
            edges == manifest.deep_view().edges,
            r.deep_view() == producers(edges, i as int, 0),
            forall|path: Seq<char>| #[trigger]
                r.deep_view().contains_key(path) ==> r.deep_view()[path] < manifest.edges@.len(),
        decreases manifest.edges@.len() - i,
    {
        let outputs: Vec<&str> = manifest.edges[i].outputs();
        proof {
            assert(edges[i as int] == manifest.edges@[i as int].deep_view());
        }
        let mut j: usize = 0;
        while j < outputs.len()
            invariant
                i < manifest.edges@.len(),
                j <= outputs@.len(),
                edges == manifest.deep_view().edges,
                spell::views(outputs@) == manifest::outputs_of(edges[i as int]),
                r.deep_view() == producers(edges, i as int, j as int),
                forall|path: Seq<char>| #[trigger]
                    r.deep_view().contains_key(path) ==> r.deep_view()[path]
                        < manifest.edges@.len(),
            decreases outputs@.len() - j,
        {
            proof {
                assert(spell::views(outputs@)[j as int] == outputs@[j as int]@);
            }
            map_insert(&mut r, outputs[j].to_owned(), i);
            j += 1;
        }
        i += 1;
    }
    r
}

/// The outputs of an edge with a space between them.
pub open spec fn label(outputs: Seq<Seq<char>>, n: int) -> Seq<char>
    decreases n,
{
    if n <= 0 {
        seq![]
    } else if n == 1 {
        outputs[0]
    } else {
        label(outputs, n - 1) + " "@ + outputs[n - 1]
    }
}

pub open spec fn edge_label_of(e: EdgeView) -> Seq<char> {
    label(manifest::outputs_of(e), manifest::outputs_of(e).len() as int)
}

/// The outputs of an edge with a space between them.
pub fn edge_label(edge: &Edge) -> (r: String)
    ensures
        r@ == edge_label_of(edge.deep_view()),
{
    let outputs: Vec<&str> = edge.outputs();
    let ghost list = manifest::outputs_of(edge.deep_view());
    let mut r: String = String::new();
    let mut i: usize = 0;
    proof {
        reveal_strlit("");
        assert(r@ =~= seq![]);
    }
    while i < outputs.len()
        invariant
            i <= outputs@.len(),
            list == manifest::outputs_of(edge.deep_view()),
            spell::views(outputs@) == list,
            r@ == label(list, i as int),
        decreases outputs@.len() - i,
    {
        let ghost before = r@;
        proof {
            assert(spell::views(outputs@)[i as int] == outputs@[i as int]@);
        }
        if i > 0 {
            r.append(" ");
        }
        r.append(outputs[i]);
        i += 1;
        proof {
            if i == 1 {
                assert(before =~= seq![]);
                assert(r@ =~= list[0]);
            }
        }
    }
    r
}

/// Whether an edge may be an input of itself: a phony edge with one output and
/// no implicit inputs, unless that is to be an error.
pub open spec fn tolerates(e: EdgeView, strict: bool) -> bool {
    !strict && e.rule == "phony"@ && e.explicit_outputs.len() == 1 && e.implicit_outputs.len() == 0
        && e.implicit_inputs.len() == 0
}

/// Whether an edge may be an input of itself.
pub fn tolerates_phony_self_reference(edge: &Edge, phony_cycle_error: bool) -> (r: bool)
    ensures
        r == tolerates(edge.deep_view(), phony_cycle_error),
{
    !phony_cycle_error && same_str(edge.rule.as_str(), "phony") && edge.explicit_outputs.len() == 1
        && edge.implicit_outputs.len() == 0 && edge.implicit_inputs.len() == 0
}

/// The edges of a manifest, the edge of each output, and the inputs of each edge
/// that were found when it last ran.
pub struct Graph<'a> {
    pub manifest: &'a Manifest,
    pub outputs: &'a RapidHashMap<String, usize>,
    pub discovered: &'a Vec<Vec<String>>,
    pub phony_cycle_error: bool,
}

/// What a `Graph` holds.
#[verifier::ext_equal]
pub struct GraphView {
    pub edges: Seq<EdgeView>,
    pub outputs: Map<Seq<char>, usize>,
    pub discovered: Seq<Seq<Seq<char>>>,
    pub strict: bool,
}

pub open spec fn string_lists(v: Seq<Vec<String>>) -> Seq<Seq<Seq<char>>> {
    Seq::new(v.len(), |i: int| text::strings(v[i]@))
}

impl<'a> Graph<'a> {
    pub open spec fn view(&self) -> GraphView {
        GraphView {
            edges: self.manifest.deep_view().edges,
            outputs: self.outputs.deep_view(),
            discovered: string_lists(self.discovered@),
            strict: self.phony_cycle_error,
        }
    }
}

/// Whether outputs belong to edges, and every edge has a list of found inputs.
/// The edges and the inputs of each can be counted.
pub open spec fn is_graph(g: GraphView) -> bool {
    &&& g.edges.len() <= usize::MAX
    &&& g.discovered.len() == g.edges.len()
    &&& forall|k: usize| k < g.edges.len() ==> (#[trigger] names(g, k)).len() <= usize::MAX
    &&& forall|path: Seq<char>| #[trigger]
        g.outputs.contains_key(path) ==> g.outputs[path] < g.edges.len()
}

/// The inputs of edge `k`.
pub open spec fn names(g: GraphView, k: usize) -> Seq<Seq<char>> {
    manifest::inputs_of(g.edges[k as int]) + g.discovered[k as int]
}

/// The edge of a path.
pub open spec fn producer(g: GraphView, path: Seq<char>) -> Option<usize> {
    if g.outputs.contains_key(path) {
        Some(g.outputs[path])
    } else {
        None
    }
}

/// The edge that edge `k` waits for because of its input `j`.
pub open spec fn awaited(g: GraphView, k: usize, j: int) -> Option<usize> {
    match producer(g, names(g, k)[j]) {
        Some(p) => if p == k && tolerates(g.edges[k as int], g.strict) {
            None
        } else {
            Some(p)
        },
        None => None,
    }
}

/// Edges that wait for each other, each for the next and the last, because of
/// an input, for the first.
#[verifier::ext_equal]
pub struct Circle {
    pub edges: Seq<usize>,
    pub input: Seq<char>,
}

/// The edges that are settled once those that the last of `open` waits for are,
/// from its input `j` on, and it itself behind them. `open` are edges that are
/// being settled, each because the one before waits for it.
pub open spec fn settling(g: GraphView, open: Seq<usize>, j: int, done: Seq<usize>) -> Result<
    Seq<usize>,
    Circle,
>
    decreases g.edges.len() - open.len(), names(g, open.last()).len() - j,
{
    let k = open.last();
    if j < 0 || j >= names(g, k).len() || open.len() > g.edges.len() {
        Ok(done.push(k))
    } else {
        match awaited(g, k, j) {
            None => settling(g, open, j + 1, done),
            Some(p) => if done.contains(p) {
                settling(g, open, j + 1, done)
            } else if open.contains(p) || open.len() == g.edges.len() {
                Err(
                    Circle {
                        edges: open.skip(cycle::position(open, p, 0)),
                        input: names(g, k)[j],
                    },
                )
            } else {
                match settling(g, open.push(p), 0, done) {
                    Err(c) => Err(c),
                    Ok(more) => settling(g, open, j + 1, more),
                }
            },
        }
    }
}

/// The edges that are settled once `k` is.
pub open spec fn settled_with(g: GraphView, k: usize, done: Seq<usize>) -> Result<
    Seq<usize>,
    Circle,
> {
    if done.contains(k) {
        Ok(done)
    } else {
        settling(g, seq![k], 0, done)
    }
}

/// The edges that are settled once the first `n` targets are.
pub open spec fn targets_settled(g: GraphView, targets: Seq<usize>, n: int) -> Result<
    Seq<usize>,
    Circle,
>
    decreases n,
{
    if n <= 0 {
        Ok(seq![])
    } else {
        match targets_settled(g, targets, n - 1) {
            Err(c) => Err(c),
            Ok(done) => settled_with(g, targets[n - 1], done),
        }
    }
}

/// The edges that are settled once the validations of all of `done` are, from
/// validation `v` of the edge at `i` on.
pub open spec fn validations_settled(g: GraphView, done: Seq<usize>, i: int, v: int) -> Result<
    Seq<usize>,
    Circle,
>
    decreases
            g.edges.len() - done.len(),
            done.len() - i,
            g.edges[done[i] as int].validations.len() - v,
{
    let list = g.edges[done[i] as int].validations;
    if i < 0 || v < 0 || i >= done.len() || done.len() > g.edges.len() {
        Ok(done)
    } else if v >= list.len() {
        validations_settled(g, done, i + 1, 0)
    } else {
        match producer(g, list[v]) {
            None => validations_settled(g, done, i, v + 1),
            Some(p) => match settled_with(g, p, done) {
                Err(c) => Err(c),
                Ok(more) => if more == done || more.len() <= done.len() {
                    validations_settled(g, done, i, v + 1)
                } else if more.len() > g.edges.len() {
                    Ok(more)
                } else {
                    validations_settled(g, more, i, v + 1)
                },
            },
        }
    }
}

/// The edges that targets need, each behind those that it waits for.
pub open spec fn needed(g: GraphView, targets: Seq<usize>) -> Result<Seq<usize>, Circle> {
    match targets_settled(g, targets, targets.len() as int) {
        Err(c) => Err(c),
        Ok(done) => validations_settled(g, done, 0, 0),
    }
}

/// The labels of the edges of a circle behind its first one, each with an arrow
/// before it.
pub open spec fn circle_labels(g: GraphView, c: Circle, n: int) -> Seq<char>
    decreases n,
{
    if n <= 1 {
        seq![]
    } else {
        circle_labels(g, c, n - 1) + " -> "@ + edge_label_of(g.edges[c.edges[n - 1] as int])
    }
}

/// What is said of a circle.
pub open spec fn circle_message(g: GraphView, c: Circle) -> Seq<char> {
    "dependency cycle: "@ + c.input + circle_labels(g, c, c.edges.len() as int) + " -> "@ + c.input
}

/// What holds of edges that are settled: none is settled twice, and each is
/// behind those that it waits for.
pub open spec fn is_settled(g: GraphView, done: Seq<usize>) -> bool {
    &&& done.no_duplicates()
    &&& forall|i: int| 0 <= i < done.len() ==> (#[trigger] done[i]) < g.edges.len()
    &&& forall|i: int, j: int|
        0 <= i < done.len() && 0 <= j < names(g, done[i]).len() ==> (#[trigger] awaited(
            g,
            done[i],
            j,
        ) matches Some(p) ==> done.take(i).contains(p))
}

/// Whether each edge waits for the next.
pub open spec fn is_chain(g: GraphView, list: Seq<usize>) -> bool {
    &&& forall|i: int| 0 <= i < list.len() ==> (#[trigger] list[i]) < g.edges.len()
    &&& forall|i: int|
        0 <= i < list.len() - 1 ==> waits_for(g, #[trigger] list[i], list[i + 1])
}

/// Whether an edge waits for another.
pub open spec fn waits_for(g: GraphView, k: usize, p: usize) -> bool {
    exists|j: int| 0 <= j < names(g, k).len() && #[trigger] awaited(g, k, j) == Some(p)
}

/// Whether edges wait for each other in a circle.
pub open spec fn is_circle(g: GraphView, c: Circle) -> bool {
    &&& c.edges.len() > 0
    &&& is_chain(g, c.edges)
    &&& waits_for(g, c.edges.last(), c.edges[0])
    &&& producer(g, c.input) == Some(c.edges[0])
}

/// What holds while the last of `open` is being settled and its inputs before
/// `j` are dealt with.
spec fn is_open(g: GraphView, open: Seq<usize>, j: int, done: Seq<usize>) -> bool {
    &&& open.len() > 0
    &&& open.no_duplicates()
    &&& is_chain(g, open)
    &&& is_settled(g, done)
    &&& forall|i: int| 0 <= i < open.len() ==> !done.contains(#[trigger] open[i])
    &&& 0 <= j <= names(g, open.last()).len()
    &&& forall|i: int|
        0 <= i < j ==> (#[trigger] awaited(g, open.last(), i) matches Some(p) ==> done.contains(p))
}

proof fn lemma_longer_done(g: GraphView, done: Seq<usize>, k: usize)
    requires
        is_settled(g, done),
        k < g.edges.len(),
        !done.contains(k),
        forall|i: int|
            0 <= i < names(g, k).len() ==> (#[trigger] awaited(g, k, i) matches Some(p)
                ==> done.contains(p)),
    ensures
        is_settled(g, done.push(k)),
{
    let more = done.push(k);
    assert forall|i: int, j: int|
        0 <= i < more.len() && 0 <= j < names(g, more[i]).len() implies (#[trigger] awaited(
        g,
        more[i],
        j,
    ) matches Some(p) ==> more.take(i).contains(p)) by {
        if let Some(p) = awaited(g, more[i], j) {
            if i < done.len() {
                assert(more[i] == done[i]);
                assert(awaited(g, done[i], j) == Some(p));
                assert(more.take(i) =~= done.take(i));
            } else {
                assert(more.take(i) =~= done);
            }
        }
    }
}

/// What comes of settling the last of `open`.
proof fn lemma_settling(g: GraphView, open: Seq<usize>, j: int, done: Seq<usize>)
    requires
        is_graph(g),
        is_open(g, open, j, done),
    ensures
        match settling(g, open, j, done) {
            Ok(more) => {
                &&& is_settled(g, more)
                &&& done.is_prefix_of(more)
                &&& more.len() > done.len()
                &&& more.contains(open.last())
                &&& forall|i: int| 0 <= i < open.len() - 1 ==> !more.contains(#[trigger] open[i])
            },
            Err(c) => is_circle(g, c),
        },
    decreases g.edges.len() - open.len(), names(g, open.last()).len() - j,
{
    let k = open.last();
    let n = g.edges.len();
    cycle::lemma_pigeonhole(open, n);
    assert(open[open.len() - 1] == k);
    assert(k < n);
    if j >= names(g, k).len() {
        let more = done.push(k);
        lemma_longer_done(g, done, k);
        assert(more[done.len() as int] == k);
        assert(done =~= more.subrange(0, done.len() as int));
        assert forall|i: int| 0 <= i < open.len() - 1 implies !more.contains(
            #[trigger] open[i],
        ) by {
            if more.contains(open[i]) {
                let x = choose|x: int| 0 <= x < more.len() && more[x] == open[i];
                if x < done.len() {
                    assert(done.contains(open[i]));
                }
            }
        }
    } else {
        match awaited(g, k, j) {
            None => {
                lemma_settling(g, open, j + 1, done);
            },
            Some(p) => {
                assert(g.outputs.contains_key(names(g, k)[j]));
                assert(p < n);
                assert(waits_for(g, k, p));
                if done.contains(p) {
                    lemma_settling(g, open, j + 1, done);
                } else if open.contains(p) {
                    let at = cycle::position(open, p, 0);
                    cycle::lemma_position(open, p, 0);
                    let c = settling(g, open, j, done)->Err_0;
                    assert(c.edges == open.skip(at));
                    assert(c.edges[0] == p);
                    assert(c.edges.last() == k);
                    assert forall|i: int| 0 <= i < c.edges.len() - 1 implies waits_for(
                        g,
                        #[trigger] c.edges[i],
                        c.edges[i + 1],
                    ) by {
                        assert(waits_for(g, open[at + i], open[at + i + 1]));
                    }
                } else {
                    let longer = open.push(p);
                    assert forall|i: int| 0 <= i < longer.len() implies (#[trigger] longer[i]) < n
                        && !done.contains(longer[i]) by {
                        if i < open.len() {
                            assert(longer[i] == open[i]);
                        }
                    }
                    cycle::lemma_pigeonhole(longer, n);
                    assert forall|i: int| 0 <= i < longer.len() - 1 implies waits_for(
                        g,
                        #[trigger] longer[i],
                        longer[i + 1],
                    ) by {
                        if i < open.len() - 1 {
                            assert(waits_for(g, open[i], open[i + 1]));
                        }
                    }
                    lemma_settling(g, longer, 0, done);
                    if let Ok(more) = settling(g, longer, 0, done) {
                        assert forall|i: int| 0 <= i < open.len() implies !more.contains(
                            #[trigger] open[i],
                        ) by {
                            assert(longer[i] == open[i]);
                        }
                        assert forall|i: int| 0 <= i < j + 1 implies (#[trigger] awaited(
                            g,
                            k,
                            i,
                        ) matches Some(q) ==> more.contains(q)) by {
                            if let Some(q) = awaited(g, k, i) {
                                if i < j {
                                    let x = choose|x: int| 0 <= x < done.len() && done[x] == q;
                                    assert(more[x] == q);
                                } else {
                                    assert(longer.last() == p);
                                }
                            }
                        }
                        lemma_settling(g, open, j + 1, more);
                        if let Ok(all) = settling(g, open, j + 1, more) {
                            assert(done =~= all.subrange(0, done.len() as int)) by {
                                assert(more =~= all.subrange(0, more.len() as int));
                            }
                        }
                    }
                }
            },
        }
    }
}

proof fn lemma_settled_with(g: GraphView, k: usize, done: Seq<usize>)
    requires
        is_graph(g),
        is_settled(g, done),
        k < g.edges.len(),
    ensures
        match settled_with(g, k, done) {
            Ok(more) => {
                &&& is_settled(g, more)
                &&& done.is_prefix_of(more)
                &&& more.contains(k)
                &&& more.len() > done.len() || more == done
                &&& more.len() <= g.edges.len()
            },
            Err(c) => is_circle(g, c),
        },
{
    if done.contains(k) {
        assert(done =~= done.subrange(0, done.len() as int));
        cycle::lemma_pigeonhole(done, g.edges.len());
    } else {
        lemma_settling(g, seq![k], 0, done);
        if let Ok(more) = settling(g, seq![k], 0, done) {
            cycle::lemma_pigeonhole(more, g.edges.len());
        }
    }
}

proof fn lemma_targets_settled(g: GraphView, targets: Seq<usize>, n: int)
    requires
        is_graph(g),
        0 <= n <= targets.len(),
        forall|i: int| 0 <= i < targets.len() ==> (#[trigger] targets[i]) < g.edges.len(),
    ensures
        match targets_settled(g, targets, n) {
            Ok(done) => {
                &&& is_settled(g, done)
                &&& done.len() <= g.edges.len()
                &&& forall|i: int| 0 <= i < n ==> done.contains(#[trigger] targets[i])
            },
            Err(c) => is_circle(g, c),
        },
    decreases n,
{
    if n > 0 {
        lemma_targets_settled(g, targets, n - 1);
        if let Ok(done) = targets_settled(g, targets, n - 1) {
            lemma_settled_with(g, targets[n - 1], done);
            if let Ok(more) = settled_with(g, targets[n - 1], done) {
                assert forall|i: int| 0 <= i < n implies more.contains(#[trigger] targets[i]) by {
                    if i < n - 1 {
                        lemma_contains_more(done, more, targets[i]);
                    }
                }
            }
        }
    }
}

proof fn lemma_contains_more(done: Seq<usize>, more: Seq<usize>, k: usize)
    requires
        done.is_prefix_of(more),
        done.contains(k),
    ensures
        more.contains(k),
{
    let x = choose|x: int| 0 <= x < done.len() && done[x] == k;
    assert(more[x] == k);
}

/// Whether the validations of the edges of `done` before validation `v` of the
/// edge at `i` are settled.
spec fn are_validated(g: GraphView, done: Seq<usize>, i: int, v: int) -> bool {
    forall|a: int, b: int|
        0 <= a < done.len() && 0 <= b < g.edges[done[a] as int].validations.len() && (a < i || (a
            == i && b < v)) ==> (producer(
            g,
            #[trigger] g.edges[done[a] as int].validations[b],
        ) matches Some(p) ==> done.contains(p))
}

proof fn lemma_validations_settled(g: GraphView, done: Seq<usize>, i: int, v: int)
    requires
        is_graph(g),
        is_settled(g, done),
        0 <= i <= done.len(),
        0 <= v,
        i == done.len() ==> v == 0,
        i < done.len() ==> v <= g.edges[done[i] as int].validations.len(),
        are_validated(g, done, i, v),
    ensures
        match validations_settled(g, done, i, v) {
            Ok(more) => {
                &&& is_settled(g, more)
                &&& done.is_prefix_of(more)
                &&& are_validated(g, more, more.len() as int, 0)
            },
            Err(c) => is_circle(g, c),
        },
    decreases
            g.edges.len() - done.len(),
            done.len() - i,
            if i < done.len() {
                g.edges[done[i] as int].validations.len() - v
            } else {
                0
            },
{
    cycle::lemma_pigeonhole(done, g.edges.len());
    if i >= done.len() {
        assert(done =~= done.subrange(0, done.len() as int));
    } else {
        let list = g.edges[done[i] as int].validations;
        if v >= list.len() {
            lemma_validations_settled(g, done, i + 1, 0);
        } else {
            match producer(g, list[v]) {
                None => {
                    lemma_validations_settled(g, done, i, v + 1);
                },
                Some(p) => {
                    assert(g.outputs.contains_key(list[v]));
                    lemma_settled_with(g, p, done);
                    if let Ok(more) = settled_with(g, p, done) {
                        assert(done[i] == more[i]);
                        assert forall|a: int, b: int|
                            0 <= a < more.len() && 0 <= b
                                < g.edges[more[a] as int].validations.len() && (a < i || (a == i
                                && b < v + 1)) implies (producer(
                            g,
                            #[trigger] g.edges[more[a] as int].validations[b],
                        ) matches Some(q) ==> more.contains(q)) by {
                            assert(more[a] == done[a]);
                            if let Some(q) = producer(g, g.edges[done[a] as int].validations[b]) {
                                if !(a == i && b == v) {
                                    lemma_contains_more(done, more, q);
                                }
                            }
                        }
                        lemma_validations_settled(g, more, i, v + 1);
                        if let Ok(all) = validations_settled(g, more, i, v + 1) {
                            assert(done =~= all.subrange(0, done.len() as int)) by {
                                assert(more =~= all.subrange(0, more.len() as int));
                            }
                        }
                    }
                },
            }
        }
    }
}

/// The edges that targets need hold every target, no edge twice, each edge
/// behind those that it waits for, and the edges of their validations. Where
/// there is no such list of edges, edges wait for each other in a circle.
pub proof fn law_needed_edges_come_in_order(g: GraphView, targets: Seq<usize>)
    requires
        is_graph(g),
        forall|i: int| 0 <= i < targets.len() ==> (#[trigger] targets[i]) < g.edges.len(),
    ensures
        match needed(g, targets) {
            Ok(list) => {
                &&& is_settled(g, list)
                &&& forall|i: int| 0 <= i < targets.len() ==> list.contains(#[trigger] targets[i])
                &&& forall|i: int, v: int|
                    0 <= i < list.len() && 0 <= v < g.edges[list[i] as int].validations.len()
                        ==> (producer(
                        g,
                        #[trigger] g.edges[list[i] as int].validations[v],
                    ) matches Some(p) ==> list.contains(p))
            },
            Err(c) => is_circle(g, c),
        },
{
    lemma_targets_settled(g, targets, targets.len() as int);
    if let Ok(done) = targets_settled(g, targets, targets.len() as int) {
        lemma_validations_settled(g, done, 0, 0);
        if let Ok(list) = validations_settled(g, done, 0, 0) {
            assert forall|i: int| 0 <= i < targets.len() implies list.contains(
                #[trigger] targets[i],
            ) by {
                lemma_contains_more(done, list, targets[i]);
            }
        }
    }
}

proof fn lemma_settled_way(g: GraphView, done: Seq<usize>, list: Seq<usize>, i: int, at: int)
    requires
        is_settled(g, done),
        is_chain(g, list),
        0 <= i < list.len(),
        0 <= at < done.len(),
        done[at] == list[0],
    ensures
        i > 0 ==> done.take(at).contains(list[i]),
    decreases i,
{
    if i > 0 {
        lemma_settled_way(g, done, list, i - 1, at);
        let from = if i == 1 {
            at
        } else {
            let before = done.take(at);
            let x = choose|x: int| 0 <= x < before.len() && before[x] == list[i - 1];
            assert(done[x] == list[i - 1]);
            x
        };
        assert(waits_for(g, list[i - 1], list[i - 1 + 1]));
        let j = choose|j: int|
            0 <= j < names(g, list[i - 1]).len() && #[trigger] awaited(g, list[i - 1], j) == Some(
                list[i],
            );
        assert(awaited(g, done[from], j) == Some(list[i]));
        let before = done.take(from);
        let y = choose|y: int| 0 <= y < before.len() && before[y] == list[i];
        assert(done.take(at)[y] == list[i]);
    }
}

/// Edges that targets need do not wait for each other in a circle.
pub proof fn law_needed_edges_have_no_circle(g: GraphView, targets: Seq<usize>, c: Circle)
    requires
        is_graph(g),
        forall|i: int| 0 <= i < targets.len() ==> (#[trigger] targets[i]) < g.edges.len(),
        needed(g, targets) matches Ok(list) && c.edges.len() > 0 && list.contains(c.edges[0]),
    ensures
        !is_circle(g, c),
{
    if is_circle(g, c) {
        law_needed_edges_come_in_order(g, targets);
        let list = needed(g, targets)->Ok_0;
        let around = c.edges.push(c.edges[0]);
        let at = choose|x: int| 0 <= x < list.len() && list[x] == c.edges[0];
        assert forall|i: int| 0 <= i < around.len() - 1 implies waits_for(
            g,
            #[trigger] around[i],
            around[i + 1],
        ) by {
            if i < c.edges.len() - 1 {
                assert(waits_for(g, c.edges[i], c.edges[i + 1]));
            }
        }
        lemma_settled_way(g, list, around, around.len() - 1, at);
        let before = list.take(at);
        let y = choose|y: int| 0 <= y < before.len() && before[y] == c.edges[0];
        assert(list[y] == list[at]);
    }
}

spec fn opened(stack: Seq<(usize, usize)>) -> Seq<usize> {
    Seq::new(stack.len(), |i: int| stack[i].0)
}

/// The edges that are settled once all that is on the stack is: edges with the
/// number of their next input.
spec fn unwound(g: GraphView, stack: Seq<(usize, usize)>, done: Seq<usize>) -> Result<
    Seq<usize>,
    Circle,
>
    decreases stack.len(),
{
    if stack.len() == 0 {
        Ok(done)
    } else {
        match settling(g, opened(stack), stack.last().1 as int, done) {
            Err(c) => Err(c),
            Ok(more) => unwound(g, stack.drop_last(), more),
        }
    }
}

/// What holds of the stack: each edge waits for the one above it because of the
/// input before its next, and the edges that it waits for because of earlier
/// inputs are settled.
spec fn is_stack(g: GraphView, stack: Seq<(usize, usize)>, done: Seq<usize>) -> bool {
    &&& opened(stack).no_duplicates()
    &&& is_settled(g, done)
    &&& forall|i: int|
        0 <= i < stack.len() ==> (#[trigger] stack[i]).0 < g.edges.len() && !done.contains(
            stack[i].0,
        ) && stack[i].1 <= names(g, stack[i].0).len()
    &&& forall|i: int|
        0 <= i < stack.len() - 1 ==> (#[trigger] stack[i]).1 > 0 && awaited(
            g,
            stack[i].0,
            stack[i].1 - 1,
        ) == Some(stack[i + 1].0)
    &&& forall|i: int, m: int|
        #![trigger awaited(g, stack[i].0, m)]
        0 <= i < stack.len() && 0 <= m < stack[i].1 && !(i < stack.len() - 1 && m == stack[i].1
            - 1) ==> (awaited(g, stack[i].0, m) matches Some(p) ==> done.contains(p))
}

proof fn lemma_stack_is_open(g: GraphView, stack: Seq<(usize, usize)>, done: Seq<usize>)
    requires
        is_stack(g, stack, done),
    ensures
        stack.len() + done.len() <= g.edges.len(),
        stack.len() > 0 ==> is_open(g, opened(stack), stack.last().1 as int, done),
{
    let open = opened(stack);
    let both = open + done;
    assert forall|i: int| 0 <= i < open.len() implies (#[trigger] open[i]) < g.edges.len()
        && !done.contains(open[i]) by {
        assert(open[i] == stack[i].0);
    }
    assert(both.no_duplicates()) by {
        assert forall|a: int, b: int| 0 <= a < b < both.len() implies both[a] != both[b] by {
            if a < open.len() && b >= open.len() {
                assert(both[a] == open[a]);
                assert(both[b] == done[b - open.len()]);
                assert(done.contains(both[b]));
            } else if a >= open.len() {
                assert(both[a] == done[a - open.len()]);
                assert(both[b] == done[b - open.len()]);
            }
        }
    }
    assert forall|i: int| 0 <= i < both.len() implies (#[trigger] both[i]) < g.edges.len() by {
        if i < open.len() {
            assert(both[i] == open[i]);
        } else {
            assert(both[i] == done[i - open.len()]);
        }
    }
    cycle::lemma_pigeonhole(both, g.edges.len());
    if stack.len() > 0 {
        let last = stack.len() - 1;
        assert forall|i: int| 0 <= i < open.len() - 1 implies waits_for(
            g,
            #[trigger] open[i],
            open[i + 1],
        ) by {
            assert(open[i] == stack[i].0);
            assert(open[i + 1] == stack[i + 1].0);
            assert(awaited(g, stack[i].0, stack[i].1 - 1) == Some(stack[i + 1].0));
        }
        assert(open.last() == stack[last].0);
        assert forall|i: int| 0 <= i < stack.last().1 implies (#[trigger] awaited(
            g,
            open.last(),
            i,
        ) matches Some(p) ==> done.contains(p)) by {
            assert(awaited(g, stack[last].0, i) == awaited(g, open.last(), i));
        }
    }
}

/// Whether `state` tells the edges that are settled, by two, and those that are
/// being settled, by one.
spec fn tells_apart(state: Seq<u8>, open: Seq<usize>, done: Seq<usize>) -> bool {
    forall|k: usize|
        k < state.len() ==> (#[trigger] state[k as int] == 2 <==> done.contains(k)) && (
        state[k as int] == 1 <==> open.contains(k)) && state[k as int] <= 2
}

impl<'a> Graph<'a> {
    /// The input `j` of edge `k`.
    pub fn input_at(&self, k: usize, j: usize) -> (r: Option<&str>)
        requires
            is_graph(self@),
            k < self@.edges.len(),
        ensures
            match r {
                Some(path) => j < names(self@, k).len() && path@ == names(self@, k)[j as int],
                None => j >= names(self@, k).len(),
            },
    {
        let edge: &Edge = &self.manifest.edges[k];
        let found: &Vec<String> = &self.discovered[k];
        let ghost g = self@;
        proof {
            assert(g.edges[k as int] == edge.deep_view());
            assert(g.discovered[k as int] == text::strings(found@));
        }
        let mut index: usize = j;
        if index < edge.explicit_inputs.len() {
            return Some(edge.explicit_inputs[index].as_str());
        }
        index -= edge.explicit_inputs.len();
        if index < edge.implicit_inputs.len() {
            return Some(edge.implicit_inputs[index].as_str());
        }
        index -= edge.implicit_inputs.len();
        if index < edge.order_only_inputs.len() {
            return Some(edge.order_only_inputs[index].as_str());
        }
        index -= edge.order_only_inputs.len();
        if index < found.len() {
            return Some(found[index].as_str());
        }
        None
    }

    fn describe_circle(&self, input: &str, stack: &Vec<(usize, usize)>, start: usize) -> (r: String)
        requires
            is_graph(self@),
            start < stack@.len(),
            forall|i: int| 0 <= i < stack@.len() ==> (#[trigger] stack@[i]).0 < self@.edges.len(),
        ensures
            r@ == circle_message(
                self@,
                Circle { edges: opened(stack@).skip(start as int), input: input@ },
            ),
    {
        let ghost c = Circle { edges: opened(stack@).skip(start as int), input: input@ };
        let mut r: String = "dependency cycle: ".to_owned();
        r.append(input);
        let n: usize = stack.len();
        let mut i: usize = start + 1;
        proof {
            assert(r@ + circle_labels(self@, c, 1) =~= r@);
        }
        while i < n
            invariant
                n == stack@.len(),
                start < i <= n,
                c.edges == opened(stack@).skip(start as int),
                forall|i: int|
                    0 <= i < stack@.len() ==> (#[trigger] stack@[i]).0 < self@.edges.len(),
                r@ == "dependency cycle: "@ + input@ + circle_labels(self@, c, i - start),
            decreases stack@.len() - i,
        {
            let k: usize = stack[i].0;
            let ghost before = r@;
            proof {
                assert(stack@[i as int].0 < self@.edges.len());
                assert(c.edges[i - start] == k);
            }
            r.append(" -> ");
            r.append(edge_label(&self.manifest.edges[k]).as_str());
            i += 1;
            proof {
                assert(r@ =~= "dependency cycle: "@ + input@ + circle_labels(self@, c, i - start));
            }
        }
        r.append(" -> ");
        r.append(input);
        r
    }

    /// Settles an edge and those that it waits for.
    fn visit_iterative(&self, root: usize, state: &mut Vec<u8>, result: &mut Vec<usize>) -> (r:
        Result<(), String>)
        requires
            is_graph(self@),
            root < self@.edges.len(),
            old(state)@.len() == self@.edges.len(),
            is_settled(self@, old(result)@),
            tells_apart(old(state)@, seq![], old(result)@),
        ensures
            match settled_with(self@, root, old(result)@) {
                Ok(more) => {
                    &&& r is Ok
                    &&& final(result)@ == more
                    &&& final(state)@.len() == self@.edges.len()
                    &&& tells_apart(final(state)@, seq![], more)
                },
                Err(c) => r matches Err(message) && message@ == circle_message(self@, c),
            },
    {
        let ghost g = self@;
        let ghost before = result@;
        if state[root] == 2 {
            proof {
                assert(state@[root as int] == 2);
            }
            return Ok(());
        }
        proof {
            assert(state@[root as int] != 2);
            lemma_settled_with(g, root, before);
        }
        let ghost goal = settled_with(g, root, before);
        let mut stack: Vec<(usize, usize)> = Vec::new();
        stack.push((root, 0));
        state.set(root, 1);
        proof {
            reveal_with_fuel(unwound, 2);
            assert(opened(stack@) =~= seq![root]);
            assert(stack@.drop_last() =~= seq![]);
            assert forall|k: usize| k < state@.len() implies (#[trigger] state@[k as int] == 2
                <==> before.contains(k)) && (state@[k as int] == 1 <==> seq![root].contains(k))
                && state@[k as int] <= 2 by {
                assert(seq![root][0] == root);
                if k != root {
                    assert(state@[k as int] == old(state)@[k as int]);
                }
            }
        }
        proof {
            assert forall|i: int, m: int|
                #![trigger awaited(g, stack@[i].0, m)]
                0 <= i < stack@.len() && 0 <= m < stack@[i].1 && !(i < stack@.len() - 1 && m
                    == stack@[i].1 - 1) implies (awaited(g, stack@[i].0, m) matches Some(p)
                ==> before.contains(p)) by {}
        }
        while stack.len() > 0
            invariant
                g == self@,
                is_graph(g),
                before == old(result)@,
                goal == settled_with(g, root, before),
                state@.len() == g.edges.len(),
                unwound(g, stack@, result@) == goal,
                is_stack(g, stack@, result@),
                tells_apart(state@, opened(stack@), result@),
            decreases
                    g.edges.len() - stack@.len() - result@.len(),
                    stack@.len(),
                    names(g, stack@.last().0).len() - stack@.last().1,
        {
            let top: usize = stack.len() - 1;
            let (k, j) = stack[top];
            let ghost frames = stack@;
            let ghost open = opened(stack@);
            let ghost done = result@;
            let ghost marks = state@;
            proof {
                lemma_stack_is_open(g, frames, done);
                assert(frames[top as int] == (k, j));
                assert(frames.last() == (k, j));
                assert(open[top as int] == k);
                assert(open.last() == k);
            }
            match self.input_at(k, j) {
                None => {
                    state.set(k, 2);
                    result.push(k);
                    let _ = stack.pop();
                    proof {
                        lemma_popped(g, frames, marks, done);
                        assert(stack@ =~= frames.drop_last());
                        assert(state@ =~= marks.update(k as int, 2));
                        lemma_stack_is_open(g, stack@, result@);
                    }
                },
                Some(input) => {
                    stack.set(top, (k, j + 1));
                    let ghost stepped = stack@;
                    proof {
                        assert(stepped =~= frames.update(top as int, (k, (j + 1) as usize)));
                        assert(opened(stepped) =~= open);
                        assert(stepped.drop_last() =~= frames.drop_last());
                        assert(stepped.last() == (k, (j + 1) as usize));
                    }
                    let mut next: Option<usize> = None;
                    if let Some(found) = map_get(self.outputs, input) {
                        let p: usize = *found;
                        if !(p == k && tolerates_phony_self_reference(
                            &self.manifest.edges[k],
                            self.phony_cycle_error,
                        )) {
                            next = Some(p);
                        }
                    }
                    proof {
                        assert(g.edges[k as int] == self.manifest.edges@[k as int].deep_view());
                        assert(next == awaited(g, k, j as int));
                    }
                    match next {
                        None => {
                            proof {
                                lemma_stepped(g, frames, stepped, done);
                            }
                        },
                        Some(p) => {
                            proof {
                                assert(g.outputs.contains_key(input@));
                                assert(p < g.edges.len());
                                assert(marks[p as int] <= 2);
                            }
                            let mark: u8 = state[p];
                            if mark == 0 {
                                state.set(p, 1);
                                stack.push((p, 0));
                                proof {
                                    assert(!done.contains(p));
                                    assert(!open.contains(p));
                                    lemma_descended(g, frames, stepped, p, done, marks);
                                    assert(stack@ =~= stepped.push((p, 0)));
                                    assert(state@ =~= marks.update(p as int, 1));
                                    lemma_stack_is_open(g, stack@, result@);
                                }
                            } else if mark == 1 {
                                let mut at: usize = 0;
                                proof {
                                    assert(open.contains(p));
                                }
                                while stack[at].0 != p
                                    invariant
                                        at < stack@.len(),
                                        stack@ == stepped,
                                        opened(stepped) == open,
                                        open.contains(p),
                                        cycle::position(open, p, 0) == cycle::position(
                                            open,
                                            p,
                                            at as int,
                                        ),
                                        forall|i: int| 0 <= i < at ==> open[i] != p,
                                    decreases stack@.len() - at,
                                {
                                    proof {
                                        assert(open[at as int] == stack@[at as int].0);
                                        let x = choose|x: int|
                                            0 <= x < open.len() && open[x] == p;
                                        assert(x > at);
                                    }
                                    at += 1;
                                }
                                proof {
                                    assert(open[at as int] == p);
                                    assert(cycle::position(open, p, 0) == at);
                                    assert(goal == Err::<Seq<usize>, Circle>(
                                        Circle { edges: open.skip(at as int), input: input@ },
                                    ));
                                    assert forall|i: int|
                                        0 <= i < stack@.len() implies (#[trigger] stack@[i]).0
                                        < g.edges.len() by {
                                        assert(frames[i].0 < g.edges.len());
                                    }
                                }
                                return Err(self.describe_circle(input, &stack, at));
                            } else {
                                proof {
                                    assert(marks[p as int] == 2);
                                    assert(done.contains(p));
                                    lemma_stepped(g, frames, stepped, done);
                                }
                            }
                        },
                    }
                },
            }
        }
        proof {
            assert(opened(stack@) =~= seq![]);
        }
        Ok(())
    }
}

/// The edge on top has no more inputs.
proof fn lemma_popped(
    g: GraphView,
    frames: Seq<(usize, usize)>,
    marks: Seq<u8>,
    done: Seq<usize>,
)
    requires
        is_graph(g),
        is_stack(g, frames, done),
        frames.len() > 0,
        frames.last().1 >= names(g, frames.last().0).len(),
        marks.len() == g.edges.len(),
        tells_apart(marks, opened(frames), done),
    ensures
        is_stack(g, frames.drop_last(), done.push(frames.last().0)),
        unwound(g, frames.drop_last(), done.push(frames.last().0)) == unwound(g, frames, done),
        tells_apart(
            marks.update(frames.last().0 as int, 2),
            opened(frames.drop_last()),
            done.push(frames.last().0),
        ),
{
    let k = frames.last().0;
    let top = frames.len() - 1;
    let rest = frames.drop_last();
    let open = opened(frames);
    let more = done.push(k);
    lemma_stack_is_open(g, frames, done);
    assert(open.last() == k);
    assert(frames[top].0 == k);
    assert(open[top] == k);
    assert(opened(rest) =~= open.drop_last());
    lemma_longer_done(g, done, k);
    assert(done.is_prefix_of(more)) by {
        assert(done =~= more.subrange(0, done.len() as int));
    }
    assert(more[done.len() as int] == k);
    assert forall|i: int| 0 <= i < rest.len() implies (#[trigger] rest[i]).0 < g.edges.len()
        && !more.contains(rest[i].0) && rest[i].1 <= names(g, rest[i].0).len() by {
        assert(rest[i] == frames[i]);
        assert(open[i] == rest[i].0);
        if more.contains(rest[i].0) {
            let y = choose|y: int| 0 <= y < more.len() && more[y] == rest[i].0;
            if y < done.len() {
                assert(done[y] == rest[i].0);
            } else {
                assert(open[i] == open[top]);
            }
        }
    }
    assert forall|i: int| 0 <= i < rest.len() - 1 implies (#[trigger] rest[i]).1 > 0 && awaited(
        g,
        rest[i].0,
        rest[i].1 - 1,
    ) == Some(rest[i + 1].0) by {
        assert(frames[i].1 > 0);
        assert(rest[i + 1] == frames[i + 1]);
    }
    assert forall|i: int, m: int|
        #![trigger awaited(g, rest[i].0, m)]
        0 <= i < rest.len() && 0 <= m < rest[i].1 && !(i < rest.len() - 1 && m == rest[i].1
            - 1) implies (awaited(g, rest[i].0, m) matches Some(p) ==> more.contains(p)) by {
        assert(rest[i] == frames[i]);
        if let Some(p) = awaited(g, rest[i].0, m) {
            assert(awaited(g, frames[i].0, m) == Some(p));
            if m == frames[i].1 - 1 {
                assert(i + 1 == top);
                assert(p == frames[i + 1].0);
            } else {
                lemma_contains_more(done, more, p);
            }
        }
    }
    let state = marks.update(k as int, 2);
    let lower = opened(rest);
    assert forall|x: usize| x < state.len() implies (#[trigger] state[x as int] == 2
        <==> more.contains(x)) && (state[x as int] == 1 <==> lower.contains(x))
        && state[x as int] <= 2 by {
        if x == k {
            if lower.contains(x) {
                let y = choose|y: int| 0 <= y < lower.len() && lower[y] == x;
                assert(open[y] == open[top]);
            }
        } else {
            assert(state[x as int] == marks[x as int]);
            if done.contains(x) {
                lemma_contains_more(done, more, x);
            }
            if more.contains(x) {
                let y = choose|y: int| 0 <= y < more.len() && more[y] == x;
                assert(done[y] == x);
            }
            if open.contains(x) {
                let y = choose|y: int| 0 <= y < open.len() && open[y] == x;
                assert(lower[y] == x);
            }
            if lower.contains(x) {
                let y = choose|y: int| 0 <= y < lower.len() && lower[y] == x;
                assert(open[y] == x);
            }
        }
    }
}

/// The next input of the edge on top needs nothing more.
proof fn lemma_stepped(
    g: GraphView,
    frames: Seq<(usize, usize)>,
    stepped: Seq<(usize, usize)>,
    done: Seq<usize>,
)
    requires
        is_graph(g),
        is_stack(g, frames, done),
        frames.len() > 0,
        frames.last().1 < names(g, frames.last().0).len(),
        stepped == frames.update(
            frames.len() - 1,
            (frames.last().0, (frames.last().1 + 1) as usize),
        ),
        awaited(g, frames.last().0, frames.last().1 as int) matches Some(p) ==> done.contains(p),
    ensures
        is_stack(g, stepped, done),
        unwound(g, stepped, done) == unwound(g, frames, done),
{
    let k = frames.last().0;
    let j = frames.last().1;
    let top = frames.len() - 1;
    lemma_stack_is_open(g, frames, done);
    assert(names(g, k).len() <= usize::MAX) by {
        assert(frames[top].0 == k);
    }
    assert(opened(stepped) =~= opened(frames));
    assert(stepped.drop_last() =~= frames.drop_last());
    assert(opened(frames).last() == k);
    assert forall|i: int| 0 <= i < stepped.len() implies (#[trigger] stepped[i]).0 < g.edges.len()
        && !done.contains(stepped[i].0) && stepped[i].1 <= names(g, stepped[i].0).len() by {
        assert(frames[i].0 < g.edges.len());
    }
    assert forall|i: int| 0 <= i < stepped.len() - 1 implies (#[trigger] stepped[i]).1 > 0
        && awaited(g, stepped[i].0, stepped[i].1 - 1) == Some(stepped[i + 1].0) by {
        assert(frames[i].1 > 0);
        assert(stepped[i + 1].0 == frames[i + 1].0);
    }
    assert forall|i: int, m: int|
        #![trigger awaited(g, stepped[i].0, m)]
        0 <= i < stepped.len() && 0 <= m < stepped[i].1 && !(i < stepped.len() - 1 && m
            == stepped[i].1 - 1) implies (awaited(g, stepped[i].0, m) matches Some(p)
        ==> done.contains(p)) by {
        assert(awaited(g, frames[i].0, m) == awaited(g, stepped[i].0, m));
    }
}

/// The edge on top waits for an edge that is to be settled.
proof fn lemma_descended(
    g: GraphView,
    frames: Seq<(usize, usize)>,
    stepped: Seq<(usize, usize)>,
    p: usize,
    done: Seq<usize>,
    marks: Seq<u8>,
)
    requires
        is_graph(g),
        is_stack(g, frames, done),
        frames.len() > 0,
        frames.last().1 < names(g, frames.last().0).len(),
        stepped == frames.update(
            frames.len() - 1,
            (frames.last().0, (frames.last().1 + 1) as usize),
        ),
        awaited(g, frames.last().0, frames.last().1 as int) == Some(p),
        p < g.edges.len(),
        !done.contains(p),
        !opened(frames).contains(p),
        marks.len() == g.edges.len(),
        tells_apart(marks, opened(frames), done),
    ensures
        is_stack(g, stepped.push((p, 0)), done),
        unwound(g, stepped.push((p, 0)), done) == unwound(g, frames, done),
        tells_apart(marks.update(p as int, 1), opened(stepped.push((p, 0))), done),
{
    let k = frames.last().0;
    let j = frames.last().1;
    let top = frames.len() - 1;
    let open = opened(frames);
    let pushed = stepped.push((p, 0));
    lemma_stack_is_open(g, frames, done);
    assert(names(g, k).len() <= usize::MAX) by {
        assert(frames[top].0 == k);
    }
    assert(opened(stepped) =~= open);
    assert(opened(pushed) =~= open.push(p));
    assert(stepped.drop_last() =~= frames.drop_last());
    assert(pushed.drop_last() =~= stepped);
    assert(open.last() == k);
    assert forall|i: int| 0 <= i < pushed.len() implies (#[trigger] pushed[i]).0 < g.edges.len()
        && !done.contains(pushed[i].0) && pushed[i].1 <= names(g, pushed[i].0).len() by {
        if i < frames.len() {
            assert(frames[i].0 < g.edges.len());
        }
    }
    assert forall|i: int| 0 <= i < pushed.len() - 1 implies (#[trigger] pushed[i]).1 > 0
        && awaited(g, pushed[i].0, pushed[i].1 - 1) == Some(pushed[i + 1].0) by {
        if i < top {
            assert(frames[i].1 > 0);
            assert(pushed[i + 1].0 == frames[i + 1].0);
        }
    }
    assert forall|i: int, m: int|
        #![trigger awaited(g, pushed[i].0, m)]
        0 <= i < pushed.len() && 0 <= m < pushed[i].1 && !(i < pushed.len() - 1 && m
            == pushed[i].1 - 1) implies (awaited(g, pushed[i].0, m) matches Some(q)
        ==> done.contains(q)) by {
        assert(i < frames.len());
        assert(awaited(g, frames[i].0, m) == awaited(g, pushed[i].0, m));
    }
    let longer = open.push(p);
    assert(longer.no_duplicates());
    assert forall|i: int| 0 <= i < longer.len() implies (#[trigger] longer[i]) < g.edges.len() by {
        if i < open.len() {
            assert(longer[i] == frames[i].0);
        }
    }
    cycle::lemma_pigeonhole(longer, g.edges.len());
    reveal_with_fuel(unwound, 3);
    let state = marks.update(p as int, 1);
    assert forall|x: usize| x < state.len() implies (#[trigger] state[x as int] == 2
        <==> done.contains(x)) && (state[x as int] == 1 <==> longer.contains(x))
        && state[x as int] <= 2 by {
        assert(longer[open.len() as int] == p);
        if x != p {
            assert(state[x as int] == marks[x as int]);
            if open.contains(x) {
                let y = choose|y: int| 0 <= y < open.len() && open[y] == x;
                assert(longer[y] == x);
            }
            if longer.contains(x) {
                let y = choose|y: int| 0 <= y < longer.len() && longer[y] == x;
                assert(open[y] == x);
            }
        }
    }
}

/// The edges that targets need, each behind those that it waits for, and what is
/// said where they wait for each other.
pub fn dependency_closure(
    manifest: &Manifest,
    targets: &[usize],
    outputs: &RapidHashMap<String, usize>,
    discovered: &Vec<Vec<String>>,
    phony_cycle_error: bool,
) -> (r: Result<Vec<usize>, String>)
    requires
        is_graph((Graph { manifest, outputs, discovered, phony_cycle_error })@),
        forall|i: int| 0 <= i < targets@.len() ==> (#[trigger] targets@[i]) < manifest.edges@.len(),
    ensures
        ({
            let g = (Graph { manifest, outputs, discovered, phony_cycle_error })@;
            match needed(g, targets@) {
                Ok(list) => r matches Ok(edges) && edges@ == list,
                Err(c) => r matches Err(message) && message@ == circle_message(g, c),
            }
        }),
{
    let graph: Graph<'_> = Graph { manifest, outputs, discovered, phony_cycle_error };
    let ghost g = graph@;
    let mut state: Vec<u8> = Vec::new();
    while state.len() < manifest.edges.len()
        invariant
            state@.len() <= manifest.edges@.len(),
            forall|k: int| 0 <= k < state@.len() ==> #[trigger] state@[k] == 0,
        decreases manifest.edges@.len() - state@.len(),
    {
        state.push(0);
    }
    let mut result: Vec<usize> = Vec::new();
    let mut i: usize = 0;
    proof {
        assert(tells_apart(state@, seq![], result@));
        assert(is_settled(g, result@));
    }
    while i < targets.len()
        invariant
            graph@ == g,
            g == (Graph { manifest, outputs, discovered, phony_cycle_error })@,
            is_graph(g),
            g.edges.len() == manifest.edges@.len(),
            i <= targets@.len(),
            forall|i: int|
                0 <= i < targets@.len() ==> (#[trigger] targets@[i]) < manifest.edges@.len(),
            state@.len() == g.edges.len(),
            is_settled(g, result@),
            tells_apart(state@, seq![], result@),
            targets_settled(g, targets@, i as int) == Ok::<Seq<usize>, Circle>(result@),
        decreases targets@.len() - i,
    {
        let ghost before = result@;
        let target: usize = targets[i];
        proof {
            lemma_settled_with(g, target, before);
            if targets_settled(g, targets@, i + 1) is Err {
                lemma_failure_stays(g, targets@, i + 1, targets@.len() as int);
            }
        }
        match graph.visit_iterative(target, &mut state, &mut result) {
            Ok(()) => {},
            Err(message) => {
                return Err(message);
            },
        }
        i += 1;
    }
    let ghost first = result@;
    let mut index: usize = 0;
    while index < result.len()
        invariant
            graph@ == g,
            g == (Graph { manifest, outputs, discovered, phony_cycle_error })@,
            graph.manifest == manifest,
            graph.outputs == outputs,
            is_graph(g),
            g.edges.len() == manifest.edges@.len(),
            state@.len() == g.edges.len(),
            index <= result@.len(),
            is_settled(g, result@),
            tells_apart(state@, seq![], result@),
            needed(g, targets@) == validations_settled(g, result@, index as int, 0),
        decreases g.edges.len() - result@.len(), result@.len() - index,
    {
        let k: usize = result[index];
        let list: &Vec<String> = &manifest.edges[k].validations;
        let ghost start = result@;
        proof {
            cycle::lemma_pigeonhole(result@, g.edges.len());
            assert(g.edges[k as int] == manifest.edges@[k as int].deep_view());
        }
        let mut v: usize = 0;
        while v < list.len()
            invariant
                graph@ == g,
            g == (Graph { manifest, outputs, discovered, phony_cycle_error })@,
                graph.outputs == outputs,
                is_graph(g),
                state@.len() == g.edges.len(),
                index < start.len() <= result@.len() <= g.edges.len(),
                start.is_prefix_of(result@),
                result@[index as int] == k,
                k < g.edges.len(),
                g.edges[k as int].validations == text::strings(list@),
                v <= list@.len(),
                is_settled(g, result@),
                tells_apart(state@, seq![], result@),
                needed(g, targets@) == validations_settled(g, result@, index as int, v as int),
            decreases list@.len() - v,
        {
            let ghost before = result@;
            proof {
                assert(g.edges[k as int].validations[v as int] == list@[v as int]@);
            }
            if let Some(found) = map_get(outputs, list[v].as_str()) {
                let p: usize = *found;
                proof {
                    assert(g.outputs.contains_key(list@[v as int]@));
                    lemma_settled_with(g, p, before);
                }
                match graph.visit_iterative(p, &mut state, &mut result) {
                    Ok(()) => {
                        proof {
                            assert(before.is_prefix_of(result@));
                            assert(start =~= result@.subrange(0, start.len() as int)) by {
                                assert(before =~= result@.subrange(0, before.len() as int));
                            }
                            assert(result@[index as int] == before[index as int]);
                        }
                    },
                    Err(message) => {
                        return Err(message);
                    },
                }
            }
            v += 1;
        }
        index += 1;
    }
    Ok(result)
}

/// Once targets are in a circle, no more of them helps.
proof fn lemma_failure_stays(g: GraphView, targets: Seq<usize>, n: int, m: int)
    requires
        n <= m,
        targets_settled(g, targets, n) is Err,
    ensures
        targets_settled(g, targets, m) == targets_settled(g, targets, n),
    decreases m,
{
    if n < m && m > 0 {
        lemma_failure_stays(g, targets, n, m - 1);
    }
}

} // verus!
