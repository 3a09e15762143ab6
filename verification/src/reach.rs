//! What can be reached in a directed graph.
use crate::cycle;
use vstd::prelude::*;

verus! {

/// Whether each node of `walk` points to the next.
pub open spec fn is_walk(g: cycle::Graph, walk: Seq<usize>) -> bool {
    &&& walk.len() > 0
    &&& forall|i: int| 0 <= i < walk.len() ==> #[trigger] walk[i] < g.len()
    &&& forall|i: int|
        0 <= i < walk.len() - 1 ==> g[(#[trigger] walk[i]) as int].contains(walk[i + 1])
}

/// Whether a walk leads from one of `seeds` to `k`.
pub open spec fn is_reached(g: cycle::Graph, seeds: Seq<usize>, k: usize) -> bool {
    exists|walk: Seq<usize>| #[trigger]
        is_walk(g, walk) && seeds.contains(walk[0]) && walk.last() == k
}

/// What a node that can be reached points to can be reached.
pub proof fn law_reach_goes_on(g: cycle::Graph, seeds: Seq<usize>, k: usize, next: usize)
    requires
        cycle::is_graph(g),
        is_reached(g, seeds, k),
        g[k as int].contains(next),
    ensures
        is_reached(g, seeds, next),
{
    let walk = choose|walk: Seq<usize>| #[trigger]
        is_walk(g, walk) && seeds.contains(walk[0]) && walk.last() == k;
    let longer = walk.push(next);
    assert(walk[walk.len() - 1] == k);
    let j = choose|j: int| 0 <= j < g[k as int].len() && g[k as int][j] == next;
    assert(g[k as int][j] < g.len());
    assert forall|i: int| 0 <= i < longer.len() - 1 implies g[(
    #[trigger] longer[i]) as int].contains(longer[i + 1]) by {
        if i < walk.len() - 1 {
            assert(g[walk[i] as int].contains(walk[i + 1]));
        }
    }
    assert(is_walk(g, longer));
    assert(longer[0] == walk[0]);
    assert(longer.last() == next);
}

spec fn unmarked(marks: Seq<bool>) -> nat
    decreases marks.len(),
{
    if marks.len() == 0 {
        0
    } else {
        unmarked(marks.drop_last()) + if marks.last() {
            0nat
        } else {
            1nat
        }
    }
}

proof fn lemma_marking(marks: Seq<bool>, k: int)
    requires
        0 <= k < marks.len(),
        !marks[k],
    ensures
        unmarked(marks.update(k, true)) + 1 == unmarked(marks),
    decreases marks.len(),
{
    let after = marks.update(k, true);
    if k == marks.len() - 1 {
        assert(after.drop_last() =~= marks.drop_last());
    } else {
        assert(after.drop_last() =~= marks.drop_last().update(k, true));
        lemma_marking(marks.drop_last(), k);
    }
}

/// Whether all that a node points to is marked.
spec fn is_done(g: cycle::Graph, marks: Seq<bool>, k: usize) -> bool {
    forall|j: int| 0 <= j < g[k as int].len() ==> marks[#[trigger] g[k as int][j] as int]
}

/// What holds while nodes are marked: the seeds and only what can be reached are,
/// and what a marked node points to is, unless it is yet to be looked at.
spec fn is_partial(g: cycle::Graph, seeds: Seq<usize>, marks: Seq<bool>, queue: Seq<usize>) -> bool {
    &&& marks.len() == g.len()
    &&& forall|i: int| 0 <= i < queue.len() ==> #[trigger] queue[i] < g.len()
    &&& forall|k: usize| k < g.len() && #[trigger] marks[k as int] ==> is_reached(g, seeds, k)
    &&& forall|i: int| 0 <= i < queue.len() ==> marks[#[trigger] queue[i] as int]
    &&& forall|k: usize|
        k < g.len() && #[trigger] marks[k as int] ==> queue.contains(k) || is_done(g, marks, k)
}

proof fn lemma_walk_is_marked(
    g: cycle::Graph,
    seeds: Seq<usize>,
    marks: Seq<bool>,
    walk: Seq<usize>,
    i: int,
)
    requires
        is_walk(g, walk),
        marks.len() == g.len(),
        seeds.contains(walk[0]),
        forall|j: int| 0 <= j < seeds.len() ==> marks[#[trigger] seeds[j] as int],
        forall|k: usize| k < g.len() && #[trigger] marks[k as int] ==> is_done(g, marks, k),
        0 <= i < walk.len(),
    ensures
        marks[walk[i] as int],
    decreases i,
{
    if i == 0 {
        let j = choose|j: int| 0 <= j < seeds.len() && seeds[j] == walk[0];
        assert(marks[seeds[j] as int]);
    } else {
        lemma_walk_is_marked(g, seeds, marks, walk, i - 1);
        let k = walk[i - 1];
        assert(g[k as int].contains(walk[i - 1 + 1]));
        assert(is_done(g, marks, k));
        let j = choose|j: int| 0 <= j < g[k as int].len() && g[k as int][j] == walk[i];
        assert(marks[g[k as int][j] as int]);
    }
}

/// Marks what can be reached from `seeds`.
pub fn reach(graph: &Vec<Vec<usize>>, seeds: &Vec<usize>) -> (marks: Vec<bool>)
    requires
        cycle::is_graph(cycle::graph_of(graph@)),
        forall|i: int| 0 <= i < seeds@.len() ==> #[trigger] seeds@[i] < graph@.len(),
    ensures
        marks@.len() == graph@.len(),
        forall|k: usize|
            k < graph@.len() ==> #[trigger] marks@[k as int] == is_reached(
                cycle::graph_of(graph@),
                seeds@,
                k,
            ),
{
    let ghost g = cycle::graph_of(graph@);
    let n: usize = graph.len();
    let mut marks: Vec<bool> = Vec::new();
    while marks.len() < n
        invariant
            marks@.len() <= n,
            forall|k: int| 0 <= k < marks@.len() ==> !#[trigger] marks@[k],
        decreases n - marks@.len(),
    {
        marks.push(false);
    }
    let mut queue: Vec<usize> = Vec::new();
    let mut i: usize = 0;
    while i < seeds.len()
        invariant
            g == cycle::graph_of(graph@),
            n == graph@.len(),
            g.len() == n,
            cycle::is_graph(g),
            i <= seeds@.len(),
            forall|i: int| 0 <= i < seeds@.len() ==> #[trigger] seeds@[i] < n,
            is_partial(g, seeds@, marks@, queue@),
            forall|j: int| 0 <= j < i ==> marks@[#[trigger] seeds@[j] as int],
        decreases seeds@.len() - i,
    {
        let k: usize = seeds[i];
        if !marks[k] {
            let ghost before = marks@;
            let ghost waiting = queue@;
            marks.set(k, true);
            queue.push(k);
            proof {
                let walk = seq![k];
                assert(is_walk(g, walk));
                assert(seeds@.contains(walk[0]));
                assert(walk.last() == k);
                assert(is_reached(g, seeds@, k));
                lemma_marked(g, seeds@, before, waiting, k);
                assert(marks@ =~= before.update(k as int, true));
                assert(queue@ =~= waiting.push(k));
            }
        }
        i += 1;
    }
    while queue.len() > 0
        invariant
            g == cycle::graph_of(graph@),
            n == graph@.len(),
            g.len() == n,
            cycle::is_graph(g),
            is_partial(g, seeds@, marks@, queue@),
            forall|j: int| 0 <= j < seeds@.len() ==> #[trigger] seeds@[j] < n,
            forall|j: int| 0 <= j < seeds@.len() ==> marks@[#[trigger] seeds@[j] as int],
        decreases unmarked(marks@), queue@.len(),
    {
        let top: usize = queue.len() - 1;
        let k: usize = queue[top];
        let ghost whole = queue@;
        let ghost first = marks@;
        let _ = queue.pop();
        let list: &Vec<usize> = &graph[k];
        let ghost rest = queue@;
        proof {
            assert(whole[top as int] == k);
            assert(whole =~= rest.push(k));
            assert(g[k as int] == list@);
        }
        let mut j: usize = 0;
        while j < list.len()
            invariant
                g == cycle::graph_of(graph@),
                n == graph@.len(),
                g.len() == n,
                cycle::is_graph(g),
                k < n,
                g[k as int] == list@,
                j <= list@.len(),
                marks@[k as int],
                is_partial(g, seeds@, marks@, queue@.push(k)),
                forall|j: int| 0 <= j < seeds@.len() ==> #[trigger] seeds@[j] < n,
                forall|j: int| 0 <= j < seeds@.len() ==> marks@[#[trigger] seeds@[j] as int],
                forall|m: int| 0 <= m < j ==> marks@[#[trigger] list@[m] as int],
                unmarked(marks@) < unmarked(first) || (unmarked(marks@) == unmarked(first)
                    && queue@ == rest),
            decreases list@.len() - j,
        {
            let next: usize = list[j];
            proof {
                assert(g[k as int][j as int] == next);
                assert(next < g.len());
            }
            if !marks[next] {
                let ghost before = marks@;
                let ghost waiting = queue@;
                marks.set(next, true);
                queue.push(next);
                proof {
                    assert(is_reached(g, seeds@, k));
                    assert(g[k as int].contains(next));
                    law_reach_goes_on(g, seeds@, k, next);
                    lemma_marked(g, seeds@, before, waiting.push(k), next);
                    lemma_marking(before, next as int);
                    assert(marks@ =~= before.update(next as int, true));
                    lemma_swapped(g, seeds@, marks@, waiting, k, next);
                    assert(queue@.push(k) =~= waiting.push(next).push(k));
                }
            }
            j += 1;
        }
        proof {
            assert(is_done(g, marks@, k)) by {
                assert forall|m: int| 0 <= m < g[k as int].len() implies marks@[
                #[trigger] g[k as int][m] as int] by {
                    assert(marks@[list@[m] as int]);
                }
            }
            let longer = queue@.push(k);
            assert forall|m: usize| m < g.len() && #[trigger] marks@[m as int] implies queue@.contains(
                m,
            ) || is_done(g, marks@, m) by {
                if m != k && longer.contains(m) {
                    let x = choose|x: int| 0 <= x < longer.len() && longer[x] == m;
                    assert(queue@[x] == m);
                }
            }
            assert forall|i: int| 0 <= i < queue@.len() implies #[trigger] queue@[i] < g.len()
                && marks@[queue@[i] as int] by {
                assert(longer[i] == queue@[i]);
            }
        }
    }
    proof {
        assert forall|k: usize| k < g.len() implies #[trigger] marks@[k as int] == is_reached(
            g,
            seeds@,
            k,
        ) by {
            if is_reached(g, seeds@, k) {
                let walk = choose|walk: Seq<usize>| #[trigger]
                    is_walk(g, walk) && seeds@.contains(walk[0]) && walk.last() == k;
                lemma_walk_is_marked(g, seeds@, marks@, walk, walk.len() - 1);
            }
        }
    }
    marks
}

proof fn lemma_marked(
    g: cycle::Graph,
    seeds: Seq<usize>,
    marks: Seq<bool>,
    queue: Seq<usize>,
    k: usize,
)
    requires
        is_partial(g, seeds, marks, queue),
        k < g.len(),
        is_reached(g, seeds, k),
        cycle::is_graph(g),
    ensures
        is_partial(g, seeds, marks.update(k as int, true), queue.push(k)),
{
    let after = marks.update(k as int, true);
    let longer = queue.push(k);
    assert(longer[queue.len() as int] == k);
    assert forall|m: usize| m < g.len() && #[trigger] after[m as int] implies longer.contains(m)
        || is_done(g, after, m) by {
        if m != k {
            assert(marks[m as int]);
            if queue.contains(m) {
                let x = choose|x: int| 0 <= x < queue.len() && queue[x] == m;
                assert(longer[x] == m);
            } else {
                assert(is_done(g, marks, m));
                assert forall|j: int| 0 <= j < g[m as int].len() implies after[
                #[trigger] g[m as int][j] as int] by {
                    assert(marks[g[m as int][j] as int]);
                }
            }
        }
    }
    assert forall|i: int| 0 <= i < longer.len() implies #[trigger] longer[i] < g.len()
        && after[longer[i] as int] by {
        if i < queue.len() {
            assert(longer[i] == queue[i]);
        }
    }
}

proof fn lemma_swapped(
    g: cycle::Graph,
    seeds: Seq<usize>,
    marks: Seq<bool>,
    queue: Seq<usize>,
    a: usize,
    b: usize,
)
    requires
        is_partial(g, seeds, marks, queue.push(a).push(b)),
    ensures
        is_partial(g, seeds, marks, queue.push(b).push(a)),
{
    let old_queue = queue.push(a).push(b);
    let new_queue = queue.push(b).push(a);
    let n = queue.len() as int;
    assert(old_queue[n] == a && old_queue[n + 1] == b);
    assert(new_queue[n] == b && new_queue[n + 1] == a);
    assert forall|m: usize| old_queue.contains(m) implies new_queue.contains(m) by {
        let x = choose|x: int| 0 <= x < old_queue.len() && old_queue[x] == m;
        if x < n {
            assert(new_queue[x] == m);
        }
    }
    assert forall|i: int| 0 <= i < new_queue.len() implies #[trigger] new_queue[i] < g.len()
        && marks[new_queue[i] as int] by {
        if i < n {
            assert(old_queue[i] == new_queue[i]);
        } else if i == n {
            assert(marks[old_queue[n + 1] as int]);
        } else {
            assert(marks[old_queue[n] as int]);
        }
    }
}

} // verus!
