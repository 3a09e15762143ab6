//! The weights by which edges are run: those with the longest ways before them
//! come first.
use crate::closure;
use crate::closure_laws;
use crate::closure::Graph;
use crate::closure::GraphView;
use crate::collections::map_get;
use crate::manifest::Edge;
use crate::manifest::EdgeView;
use crate::manifest::Manifest;
use crate::text;
use crate::text::same_str;
use rapidhash::RapidHashMap;
use vstd::prelude::*;
use vstd::string::*;

verus! {

/// How much an edge adds to the ways through it: a phony edge runs nothing.
pub open spec fn weight(e: EdgeView) -> usize {
    if e.rule == "phony"@ {
        0
    } else {
        1
    }
}

fn edge_weight(edge: &Edge) -> (r: usize)
    ensures
        r == weight(edge.deep_view()),
{
    if same_str(edge.rule.as_str(), "phony") {
        0
    } else {
        1
    }
}

pub open spec fn greater(a: usize, b: usize) -> usize {
    if a < b {
        b
    } else {
        a
    }
}

/// The weights once the edges of the inputs of edge `k`, from input `j` on, are
/// heavier than `down` by their own weight.
pub open spec fn raised(g: GraphView, k: usize, j: int, down: usize, w: Seq<usize>) -> Seq<usize>
    decreases closure::names(g, k).len() - j,
{
    if j < 0 || j >= closure::names(g, k).len() {
        w
    } else {
        let next = match closure::producer(g, closure::names(g, k)[j]) {
            Some(p) => w.update(
                p as int,
                greater(w[p as int], text::sat(down + weight(g.edges[p as int]))),
            ),
            None => w,
        };
        raised(g, k, j + 1, down, next)
    }
}

/// The weights once the first `n` edges of `list` have passed theirs on, the
/// last of them first.
pub open spec fn passed_on(g: GraphView, list: Seq<usize>, n: int, w: Seq<usize>) -> Seq<usize>
    decreases n,
{
    if n <= 0 {
        w
    } else {
        let k = list[n - 1];
        passed_on(g, list, n - 1, raised(g, k, 0, w[k as int], w))
    }
}

/// The own weights of the edges of `list`.
pub open spec fn own_weights(g: GraphView, list: Seq<usize>) -> Seq<usize> {
    Seq::new(
        g.edges.len(),
        |k: int|
            if list.contains(k as usize) {
                weight(g.edges[k])
            } else {
                0
            },
    )
}

/// How much runs, at the least one behind the other, from each edge of `list` on.
pub open spec fn weights(g: GraphView, list: Seq<usize>) -> Seq<usize> {
    passed_on(g, list, list.len() as int, own_weights(g, list))
}

/// How much runs, at the least one behind the other, from each edge on. The
/// edges come behind those that they wait for.
pub fn critical_path_weights(
    manifest: &Manifest,
    closure: &[usize],
    outputs: &RapidHashMap<String, usize>,
    discovered: &Vec<Vec<String>>,
) -> (r: Vec<usize>)
    requires
        closure::is_graph(
            (Graph { manifest, outputs, discovered, phony_cycle_error: false })@,
        ),
        forall|i: int| 0 <= i < closure@.len() ==> (#[trigger] closure@[i]) < manifest.edges@.len(),
    ensures
        r@ == weights(
            (Graph { manifest, outputs, discovered, phony_cycle_error: false })@,
            closure@,
        ),
{
    let graph: Graph<'_> = Graph { manifest, outputs, discovered, phony_cycle_error: false };
    let ghost g = graph@;
    let n: usize = manifest.edges.len();
    let mut r: Vec<usize> = Vec::new();
    while r.len() < n
        invariant
            n == manifest.edges@.len(),
            r@.len() <= n,
            forall|k: int| 0 <= k < r@.len() ==> #[trigger] r@[k] == 0,
        decreases n - r@.len(),
    {
        r.push(0);
    }
    let mut i: usize = 0;
    while i < closure.len()
        invariant
            g == (Graph { manifest, outputs, discovered, phony_cycle_error: false })@,
            n == manifest.edges@.len(),
            g.edges.len() == n,
            i <= closure@.len(),
            r@.len() == n,
            forall|i: int| 0 <= i < closure@.len() ==> (#[trigger] closure@[i]) < n,
            forall|k: int|
                0 <= k < n ==> #[trigger] r@[k] == own_weights(g, closure@.take(i as int))[k],
        decreases closure@.len() - i,
    {
        let k: usize = closure[i];
        let ghost before = r@;
        let w: usize = edge_weight(&manifest.edges[k]);
        proof {
            assert(g.edges[k as int] == manifest.edges@[k as int].deep_view());
        }
        r.set(k, w);
        proof {
            let shorter = closure@.take(i as int);
            let longer = closure@.take(i + 1);
            assert(longer =~= shorter.push(k));
            assert forall|m: int| 0 <= m < n implies #[trigger] r@[m] == own_weights(
                g,
                longer,
            )[m] by {
                assert(before[m] == own_weights(g, shorter)[m]);
                assert(longer[i as int] == k);
                if shorter.contains(m as usize) {
                    let x = choose|x: int| 0 <= x < shorter.len() && shorter[x] == m as usize;
                    assert(longer[x] == m as usize);
                }
                if longer.contains(m as usize) && m != k {
                    let x = choose|x: int| 0 <= x < longer.len() && longer[x] == m as usize;
                    assert(shorter[x] == m as usize);
                }
            }
        }
        i += 1;
    }
    proof {
        assert(closure@.take(i as int) =~= closure@);
        assert(r@ =~= own_weights(g, closure@));
    }
    while i > 0
        invariant
            g == (Graph { manifest, outputs, discovered, phony_cycle_error: false })@,
            g == graph@,
            closure::is_graph(g),
            graph.manifest == manifest,
            graph.outputs == outputs,
            n == manifest.edges@.len(),
            g.edges.len() == n,
            i <= closure@.len(),
            r@.len() == n,
            forall|i: int| 0 <= i < closure@.len() ==> (#[trigger] closure@[i]) < n,
            passed_on(g, closure@, i as int, r@) == weights(g, closure@),
        decreases i,
    {
        let k: usize = closure[i - 1];
        let down: usize = r[k];
        let ghost start = r@;
        let ghost goal = raised(g, k, 0, down, start);
        let mut j: usize = 0;
        loop
            invariant
                g == graph@,
                closure::is_graph(g),
                graph.manifest == manifest,
                graph.outputs == outputs,
                g.edges.len() == manifest.edges@.len(),
                k < g.edges.len(),
                r@.len() == g.edges.len(),
                raised(g, k, j as int, down, r@) == goal,
            ensures
                r@ == goal,
                r@.len() == g.edges.len(),
            decreases closure::names(g, k).len() - j,
        {
            match graph.input_at(k, j) {
                None => {
                    break;
                },
                Some(input) => {
                    if let Some(found) = map_get(outputs, input) {
                        let p: usize = *found;
                        proof {
                            assert(g.outputs.contains_key(input@));
                            assert(g.edges[p as int] == manifest.edges@[p as int].deep_view());
                        }
                        let reached: usize = down.saturating_add(
                            edge_weight(&manifest.edges[p]),
                        );
                        let own: usize = r[p];
                        if own < reached {
                            r.set(p, reached);
                        } else {
                            r.set(p, own);
                        }
                    }
                    j += 1;
                },
            }
        }
        i -= 1;
    }
    r
}

/// Whether the weights of the edges that edge `k` waits for because of its
/// inputs before `n` exceed its own by their own weight.
spec fn are_above(g: GraphView, k: usize, n: int, w: Seq<usize>, down: usize) -> bool {
    forall|j: int|
        0 <= j < n ==> (#[trigger] closure::awaited(g, k, j) matches Some(p) ==> w[p as int]
            >= text::sat(down + weight(g.edges[p as int])))
}

proof fn lemma_raised(g: GraphView, k: usize, j: int, down: usize, w: Seq<usize>)
    requires
        closure::is_graph(g),
        k < g.edges.len(),
        w.len() == g.edges.len(),
        0 <= j <= closure::names(g, k).len(),
        are_above(g, k, j, w, down),
    ensures
        ({
            let r = raised(g, k, j, down, w);
            &&& r.len() == w.len()
            &&& forall|m: int| 0 <= m < w.len() ==> w[m] <= #[trigger] r[m]
            &&& are_above(g, k, closure::names(g, k).len() as int, r, down)
            &&& forall|m: int|
                0 <= m < w.len() && (forall|i: int|
                    j <= i < closure::names(g, k).len() ==> closure::producer(
                        g,
                        #[trigger] closure::names(g, k)[i],
                    ) != Some(m as usize)) ==> #[trigger] r[m] == w[m]
            &&& w[k as int] == down && closure::tolerates(g.edges[k as int], g.strict) ==> r[k as int]
                == down
        }),
    decreases closure::names(g, k).len() - j,
{
    if j < closure::names(g, k).len() {
        let path = closure::names(g, k)[j];
        let next = match closure::producer(g, path) {
            Some(p) => w.update(
                p as int,
                greater(w[p as int], text::sat(down + weight(g.edges[p as int]))),
            ),
            None => w,
        };
        if let Some(p) = closure::producer(g, path) {
            assert(g.outputs.contains_key(path));
        }
        assert(are_above(g, k, j + 1, next, down));
        lemma_raised(g, k, j + 1, down, next);
        let r = raised(g, k, j, down, w);
        assert forall|m: int|
            0 <= m < w.len() && (forall|i: int|
                j <= i < closure::names(g, k).len() ==> closure::producer(
                    g,
                    #[trigger] closure::names(g, k)[i],
                ) != Some(m as usize)) implies #[trigger] r[m] == w[m] by {
            assert(closure::producer(g, closure::names(g, k)[j]) != Some(m as usize));
            assert(next[m] == w[m]);
        }
        assert forall|m: int| 0 <= m < w.len() implies w[m] <= #[trigger] r[m] by {
            assert(next[m] <= r[m]);
        }
    }
}

proof fn lemma_passed_on(g: GraphView, list: Seq<usize>, n: int, w: Seq<usize>)
    requires
        closure::is_graph(g),
        closure::is_settled(g, list),
        w.len() == g.edges.len(),
        0 <= n <= list.len(),
        forall|i: int|
            n <= i < list.len() ==> are_above(
                g,
                #[trigger] list[i],
                closure::names(g, list[i]).len() as int,
                w,
                w[list[i] as int],
            ),
    ensures
        ({
            let r = passed_on(g, list, n, w);
            &&& r.len() == w.len()
            &&& forall|m: int| 0 <= m < w.len() ==> w[m] <= #[trigger] r[m]
            &&& forall|i: int|
                n <= i < list.len() ==> r[(#[trigger] list[i]) as int] == w[list[i] as int]
            &&& forall|i: int|
                0 <= i < list.len() ==> are_above(
                    g,
                    #[trigger] list[i],
                    closure::names(g, list[i]).len() as int,
                    r,
                    r[list[i] as int],
                )
        }),
    decreases n,
{
    if n > 0 {
        let k = list[n - 1];
        let down = w[k as int];
        let next = raised(g, k, 0, down, w);
        let count = closure::names(g, k).len() as int;
        lemma_raised(g, k, 0, down, w);
        assert forall|i: int| n - 1 <= i < list.len() implies next[(#[trigger] list[i]) as int]
            == w[list[i] as int] by {
            let m = list[i];
            if exists|x: int|
                0 <= x < count && closure::producer(g, #[trigger] closure::names(g, k)[x]) == Some(
                    m,
                ) {
                let x = choose|x: int|
                    0 <= x < count && closure::producer(g, #[trigger] closure::names(g, k)[x])
                        == Some(m);
                if closure::awaited(g, k, x) == Some(m) {
                    assert(closure::awaited(g, list[n - 1], x) == Some(m));
                    let before = list.take(n - 1);
                    let y = choose|y: int| 0 <= y < before.len() && before[y] == m;
                    assert(list[y] == list[i]);
                } else {
                    assert(m == k);
                }
            } else {
                assert forall|x: int| 0 <= x < count implies closure::producer(
                    g,
                    #[trigger] closure::names(g, k)[x],
                ) != Some(m) by {}
            }
        }
        assert forall|i: int| n - 1 <= i < list.len() implies are_above(
            g,
            #[trigger] list[i],
            closure::names(g, list[i]).len() as int,
            next,
            next[list[i] as int],
        ) by {
            let m = list[i];
            assert(next[m as int] == w[m as int]);
            if i > n - 1 {
                assert forall|j: int| 0 <= j < closure::names(g, m).len() implies (
                #[trigger] closure::awaited(g, m, j) matches Some(p) ==> next[p as int]
                    >= text::sat(next[m as int] + weight(g.edges[p as int]))) by {
                    if let Some(p) = closure::awaited(g, m, j) {
                        assert(g.outputs.contains_key(closure::names(g, m)[j]));
                        assert(w[p as int] <= next[p as int]);
                        assert(are_above(
                            g,
                            m,
                            closure::names(g, m).len() as int,
                            w,
                            w[m as int],
                        ));
                    }
                }
            }
        }
        lemma_passed_on(g, list, n - 1, next);
        let r = passed_on(g, list, n, w);
        assert forall|i: int| n <= i < list.len() implies r[(#[trigger] list[i]) as int]
            == w[list[i] as int] by {
            assert(next[list[i] as int] == w[list[i] as int]);
        }
        assert forall|m: int| 0 <= m < w.len() implies w[m] <= #[trigger] r[m] by {
            assert(w[m] <= next[m]);
        }
    }
}

/// Where an edge waits for another, the other is heavier by its own weight: what
/// has the longest way before it is the heaviest.
pub proof fn law_awaited_edges_are_heavier(g: GraphView, list: Seq<usize>, i: int, j: int)
    requires
        closure::is_graph(g),
        closure::is_settled(g, list),
        0 <= i < list.len(),
        0 <= j < closure::names(g, list[i]).len(),
    ensures
        closure::awaited(g, list[i], j) matches Some(p) ==> weights(g, list)[p as int]
            >= text::sat(weights(g, list)[list[i] as int] + weight(g.edges[p as int])),
{
    lemma_passed_on(g, list, list.len() as int, own_weights(g, list));
    let w = weights(g, list);
    let k = list[i];
    assert(are_above(g, k, closure::names(g, k).len() as int, w, w[k as int]));
    assert(closure::awaited(g, k, j) == closure::awaited(g, list[i], j));
}

/// Whether every weight is that of the edge itself, or comes from an edge of `list`, at or
/// behind `n`, that takes something from it.
spec fn are_attained(g: GraphView, list: Seq<usize>, n: int, w: Seq<usize>) -> bool {
    forall|m: int|
        0 <= m < w.len() ==> #[trigger] w[m] == own_weights(g, list)[m] || exists|i: int|
            n <= i < list.len() && #[trigger] passes_on(g, list, w, i, m)
}

spec fn passes_on(g: GraphView, list: Seq<usize>, w: Seq<usize>, i: int, m: int) -> bool {
    &&& list[i] != m
    &&& closure_laws::depends_on(g, list[i], m as usize)
    &&& w[m] == text::sat(w[list[i] as int] + weight(g.edges[m]))
}

proof fn lemma_raised_is_attained(g: GraphView, k: usize, j: int, down: usize, w: Seq<usize>)
    requires
        closure::is_graph(g),
        k < g.edges.len(),
        w.len() == g.edges.len(),
        0 <= j <= closure::names(g, k).len(),
    ensures
        ({
            let r = raised(g, k, j, down, w);
            &&& r.len() == w.len()
            &&& forall|m: int|
                0 <= m < w.len() ==> #[trigger] r[m] == w[m] || (r[m] == text::sat(
                    down + weight(g.edges[m]),
                ) && r[m] > w[m] && exists|x: int|
                    j <= x < closure::names(g, k).len() && closure::producer(
                        g,
                        #[trigger] closure::names(g, k)[x],
                    ) == Some(m as usize))
        }),
    decreases closure::names(g, k).len() - j,
{
    if j < closure::names(g, k).len() {
        let path = closure::names(g, k)[j];
        let next = match closure::producer(g, path) {
            Some(p) => w.update(
                p as int,
                greater(w[p as int], text::sat(down + weight(g.edges[p as int]))),
            ),
            None => w,
        };
        if closure::producer(g, path) is Some {
            assert(g.outputs.contains_key(path));
        }
        lemma_raised_is_attained(g, k, j + 1, down, next);
        let r = raised(g, k, j, down, w);
        assert forall|m: int| 0 <= m < w.len() implies #[trigger] r[m] == w[m] || (r[m]
            == text::sat(down + weight(g.edges[m])) && r[m] > w[m] && exists|x: int|
            j <= x < closure::names(g, k).len() && closure::producer(
                g,
                #[trigger] closure::names(g, k)[x],
            ) == Some(m as usize)) by {
            if r[m] == next[m] && next[m] != w[m] {
                assert(closure::producer(g, closure::names(g, k)[j]) == Some(m as usize));
            }
        }
    }
}

proof fn lemma_weights_are_attained(g: GraphView, list: Seq<usize>, n: int, w: Seq<usize>)
    requires
        closure::is_graph(g),
        closure::is_settled(g, list),
        w.len() == g.edges.len(),
        0 <= n <= list.len(),
        are_attained(g, list, n, w),
    ensures
        passed_on(g, list, n, w).len() == w.len(),
        are_attained(g, list, 0, passed_on(g, list, n, w)),
    decreases n,
{
    if n > 0 {
        let k = list[n - 1];
        let down = w[k as int];
        let next = raised(g, k, 0, down, w);
        let names = closure::names(g, k);
        lemma_raised_is_attained(g, k, 0, down, w);
        assert forall|i: int| n - 1 <= i < list.len() implies next[(#[trigger] list[i]) as int]
            == w[list[i] as int] by {
            let m = list[i];
            if next[m as int] != w[m as int] {
                let x = choose|x: int|
                    0 <= x < names.len() && closure::producer(g, #[trigger] names[x]) == Some(m);
                if closure::awaited(g, k, x) == Some(m) {
                    assert(closure::awaited(g, list[n - 1], x) == Some(m));
                    let before = list.take(n - 1);
                    let y = choose|y: int| 0 <= y < before.len() && before[y] == m;
                    assert(list[y] == list[i]);
                } else {
                    assert(m == k);
                    assert(weight(g.edges[m as int]) == 0);
                }
            }
        }
        assert forall|m: int| 0 <= m < next.len() implies #[trigger] next[m] == own_weights(
            g,
            list,
        )[m] || exists|i: int| n - 1 <= i < list.len() && #[trigger] passes_on(
            g,
            list,
            next,
            i,
            m,
        ) by {
            if next[m] == w[m] {
                if w[m] != own_weights(g, list)[m] {
                    let i = choose|i: int|
                        n <= i < list.len() && #[trigger] passes_on(g, list, w, i, m);
                    assert(next[list[i] as int] == w[list[i] as int]);
                    assert(passes_on(g, list, next, i, m));
                }
            } else {
                let x = choose|x: int|
                    0 <= x < names.len() && closure::producer(g, #[trigger] names[x]) == Some(
                        m as usize,
                    );
                assert(names.contains(names[x]));
                closure_laws::lemma_takes(g, k, names[x]);
                assert(closure_laws::takes_from(g, k, names[x], m as usize));
                assert(next[list[n - 1] as int] == w[list[n - 1] as int]);
                assert(passes_on(g, list, next, n - 1, m));
            }
        }
        lemma_weights_are_attained(g, list, n - 1, next);
    }
}

/// Whether edge `k` of a build takes something from edge `p`, another one.
pub open spec fn is_behind(g: GraphView, list: Seq<usize>, k: usize, p: usize) -> bool {
    list.contains(k) && k != p && closure_laws::depends_on(g, k, p)
}

/// The weight of an edge of a build is the greatest number of commands that run one behind the
/// other from it on: its own, one unless it is phony, and the weight of the heaviest edge that
/// takes something from it. Weights that are too great are all the same.
pub proof fn law_weights_count_commands(g: GraphView, list: Seq<usize>, p: usize)
    requires
        closure::is_graph(g),
        closure::is_settled(g, list),
        list.contains(p),
    ensures
        ({
            let w = weights(g, list);
            let own = if g.edges[p as int].rule == "phony"@ {
                0int
            } else {
                1
            };
            &&& forall|k: usize| #[trigger]
                is_behind(g, list, k, p) ==> w[p as int] >= w[k as int] + own || w[p as int]
                    == usize::MAX
            &&& w[p as int] == own || exists|k: usize| #[trigger]
                is_behind(g, list, k, p) && (w[p as int] == w[k as int] + own || (w[p as int]
                    == usize::MAX && w[k as int] == usize::MAX))
            &&& w[p as int] >= own
        }),
{
    let w = weights(g, list);
    let own = own_weights(g, list);
    assert(are_attained(g, list, list.len() as int, own));
    lemma_weights_are_attained(g, list, list.len() as int, own);
    lemma_passed_on(g, list, list.len() as int, own);
    let at = list.index_of(p);
    assert(list[at] == p);
    assert(own[p as int] == weight(g.edges[p as int]));
    assert(own[p as int] <= w[p as int]);
    assert forall|k: usize| #[trigger] is_behind(g, list, k, p) implies w[p as int] >= w[k as int]
        + weight(g.edges[p as int]) || w[p as int] == usize::MAX by {
        let i = list.index_of(k);
        assert(list[i] == k);
        let path = choose|path: Seq<char>| #[trigger] closure_laws::takes_from(g, k, path, p);
        closure_laws::lemma_takes(g, k, path);
        let names = closure::names(g, k);
        let j = names.index_of(path);
        assert(closure::awaited(g, list[i], j) == Some(p));
        law_awaited_edges_are_heavier(g, list, i, j);
    }
    if w[p as int] != own[p as int] {
        let i = choose|i: int|
            0 <= i < list.len() && #[trigger] passes_on(g, list, w, i, p as int);
        assert(list.contains(list[i]));
        assert(is_behind(g, list, list[i], p));
    }
}

} // verus!
