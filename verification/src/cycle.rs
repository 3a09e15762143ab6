//! Circles in a small directed graph, found by a depth-first search.
use vstd::prelude::*;

verus! {

/// A graph: for each node, the nodes that it points to.
pub type Graph = Seq<Seq<usize>>;

/// Whether every arrow leads to a node of the graph.
pub open spec fn is_graph(g: Graph) -> bool {
    forall|i: int, j: int| 0 <= i < g.len() && 0 <= j < g[i].len() ==> #[trigger] g[i][j] < g.len()
}

/// The first position of `k` in `s`, from `i` on, and its length where there is
/// none.
pub open spec fn position(s: Seq<usize>, k: usize, i: int) -> int
    decreases s.len() - i,
{
    if i < 0 || i >= s.len() {
        s.len() as int
    } else if s[i] == k {
        i
    } else {
        position(s, k, i + 1)
    }
}

/// The position of the least of the first `n` numbers of `s`.
pub open spec fn least_position(s: Seq<usize>, n: int) -> int
    decreases n,
{
    if n <= 1 {
        0
    } else {
        let m = least_position(s, n - 1);
        if s[n - 1] < s[m] {
            n - 1
        } else {
            m
        }
    }
}

/// The circle through the nodes of `s`, told from the least of them back to it.
pub open spec fn told(s: Seq<usize>) -> Seq<usize> {
    let m = least_position(s, s.len() as int);
    let turned = s.skip(m) + s.take(m);
    turned.push(turned[0])
}

/// What a search from node `k` finds, and the nodes that are then known to lead
/// to no circle. `stack` is the way to `k`.
pub open spec fn visited(g: Graph, k: usize, stack: Seq<usize>, done: Seq<usize>) -> (
    Option<Seq<usize>>,
    Seq<usize>,
)
    decreases g.len() - stack.len(), 0int,
{
    let at = position(stack, k, 0);
    if done.contains(k) {
        (None, done)
    } else if at < stack.len() {
        (Some(told(stack.skip(at))), done)
    } else if stack.len() >= g.len() {
        (None, done)
    } else {
        match all_visited(g, g[k as int], 0, stack.push(k), done) {
            (Some(c), d) => (Some(c), d),
            (None, d) => (None, d.push(k)),
        }
    }
}

/// What a search from the nodes of `list` from `i` on finds.
pub open spec fn all_visited(
    g: Graph,
    list: Seq<usize>,
    i: int,
    stack: Seq<usize>,
    done: Seq<usize>,
) -> (Option<Seq<usize>>, Seq<usize>)
    decreases g.len() - stack.len(), list.len() - i + 1,
{
    if i < 0 || i >= list.len() {
        (None, done)
    } else {
        match visited(g, list[i], stack, done) {
            (Some(c), d) => (Some(c), d),
            (None, d) => all_visited(g, list, i + 1, stack, d),
        }
    }
}

/// What a search from the nodes from `k` on finds.
pub open spec fn searched(g: Graph, k: int, done: Seq<usize>) -> (Option<Seq<usize>>, Seq<usize>)
    decreases g.len() - k,
{
    if k < 0 || k >= g.len() {
        (None, done)
    } else {
        match visited(g, k as usize, seq![], done) {
            (Some(c), d) => (Some(c), d),
            (None, d) => searched(g, k + 1, d),
        }
    }
}

/// A circle of the graph, if it has one.
pub open spec fn circle(g: Graph) -> Option<Seq<usize>> {
    searched(g, 0, seq![]).0
}

/// The graph that a list of lists holds.
pub open spec fn graph_of(v: Seq<Vec<usize>>) -> Graph {
    Seq::new(v.len(), |i: int| v[i]@)
}

pub open spec fn found(r: Option<Vec<usize>>) -> Option<Seq<usize>> {
    match r {
        Some(c) => Some(c@),
        None => None,
    }
}

fn find_position(s: &Vec<usize>, k: usize) -> (r: usize)
    ensures
        r == position(s@, k, 0),
        r <= s@.len(),
        r < s@.len() <==> s@.contains(k),
{
    let mut i: usize = 0;
    while i < s.len() && s[i] != k
        invariant
            i <= s@.len(),
            position(s@, k, 0) == position(s@, k, i as int),
            forall|j: int| 0 <= j < i ==> s@[j] != k,
        decreases s@.len() - i,
    {
        i += 1;
    }
    i
}

fn tell(s: &[usize]) -> (r: Vec<usize>)
    requires
        s@.len() > 0,
    ensures
        r@ == told(s@),
{
    let n: usize = s.len();
    let mut m: usize = 0;
    let mut i: usize = 1;
    while i < n
        invariant
            n == s@.len(),
            1 <= i <= n,
            m == least_position(s@, i as int),
            m < i,
        decreases n - i,
    {
        if s[i] < s[m] {
            m = i;
        }
        i += 1;
    }
    let mut r: Vec<usize> = Vec::new();
    let mut i: usize = m;
    while i < n
        invariant
            n == s@.len(),
            m <= i <= n,
            r@ =~= s@.subrange(m as int, i as int),
        decreases n - i,
    {
        r.push(s[i]);
        i += 1;
    }
    let mut i: usize = 0;
    while i < m
        invariant
            n == s@.len(),
            i <= m < n,
            r@ =~= s@.skip(m as int) + s@.take(i as int),
        decreases m - i,
    {
        r.push(s[i]);
        i += 1;
    }
    let first: usize = r[0];
    r.push(first);
    r
}

/// Searches from node `k`.
fn visit(g: &Vec<Vec<usize>>, k: usize, stack: &mut Vec<usize>, done: &mut Vec<usize>) -> (r: Option<
    Vec<usize>,
>)
    requires
        is_graph(graph_of(g@)),
        k < g@.len(),
    ensures
        found(r) == visited(graph_of(g@), k, old(stack)@, old(done)@).0,
        final(done)@ == visited(graph_of(g@), k, old(stack)@, old(done)@).1,
        r is None ==> final(stack)@ == old(stack)@,
    decreases g@.len() - old(stack)@.len(),
{
    if find_position(done, k) < done.len() {
        return None;
    }
    let at: usize = find_position(stack, k);
    if at < stack.len() {
        let tail: &[usize] = vstd::slice::slice_subrange(stack.as_slice(), at, stack.len());
        proof {
            assert(tail@ =~= stack@.skip(at as int));
        }
        return Some(tell(tail));
    }
    if stack.len() >= g.len() {
        return None;
    }
    let ghost gv = graph_of(g@);
    let ghost stack0 = stack@;
    let ghost done0 = done@;
    stack.push(k);
    let mut i: usize = 0;
    while i < g[k].len()
        invariant
            gv == graph_of(g@),
            is_graph(gv),
            k < g@.len(),
            i <= g@[k as int]@.len(),
            stack0 == old(stack)@,
            stack0.len() < g@.len(),
            stack@ == stack0.push(k),
            all_visited(gv, gv[k as int], 0, stack0.push(k), done0) == all_visited(
                gv,
                gv[k as int],
                i as int,
                stack0.push(k),
                done@,
            ),
            visited(gv, k, stack0, done0) == match all_visited(
                gv,
                gv[k as int],
                0,
                stack0.push(k),
                done0,
            ) {
                (Some(c), d) => (Some(c), d),
                (None, d) => (None, d.push(k)),
            },
            done0 == old(done)@,
        decreases g@[k as int]@.len() - i,
    {
        let next: usize = g[k][i];
        proof {
            assert(gv[k as int][i as int] == next);
        }
        let r: Option<Vec<usize>> = visit(g, next, stack, done);
        if r.is_some() {
            return r;
        }
        i += 1;
    }
    stack.pop();
    proof {
        assert(stack@ =~= stack0);
    }
    done.push(k);
    None
}

/// A circle of the graph, if it has one.
pub fn find_cycle(g: &Vec<Vec<usize>>) -> (r: Option<Vec<usize>>)
    requires
        is_graph(graph_of(g@)),
    ensures
        found(r) == circle(graph_of(g@)),
{
    let ghost gv = graph_of(g@);
    let mut stack: Vec<usize> = Vec::new();
    let mut done: Vec<usize> = Vec::new();
    let mut k: usize = 0;
    while k < g.len()
        invariant
            gv == graph_of(g@),
            is_graph(gv),
            k <= g@.len(),
            stack@ == Seq::<usize>::empty(),
            searched(gv, 0, seq![]) == searched(gv, k as int, done@),
        decreases g@.len() - k,
    {
        let r: Option<Vec<usize>> = visit(g, k, &mut stack, &mut done);
        if r.is_some() {
            return r;
        }
        k += 1;
    }
    None
}

/// Whether `p` goes along arrows of the graph.
pub open spec fn is_way(g: Graph, p: Seq<usize>) -> bool {
    &&& forall|i: int| 0 <= i < p.len() ==> #[trigger] p[i] < g.len()
    &&& forall|i: int, j: int|
        0 <= i && j == i + 1 && j < p.len() ==> g[(#[trigger] p[i]) as int].contains(
            #[trigger] p[j],
        )
}

/// Whether `p` goes along arrows from a node back to it.
pub open spec fn is_circle(g: Graph, p: Seq<usize>) -> bool {
    p.len() >= 2 && p[0] == p.last() && is_way(g, p)
}

pub proof fn lemma_position(s: Seq<usize>, k: usize, i: int)
    requires
        0 <= i <= s.len(),
    ensures
        i <= position(s, k, i) <= s.len(),
        position(s, k, i) < s.len() ==> s[position(s, k, i)] == k,
        position(s, k, i) == s.len() ==> forall|j: int| i <= j < s.len() ==> s[j] != k,
    decreases s.len() - i,
{
    if i < s.len() && s[i] != k {
        lemma_position(s, k, i + 1);
    }
}

proof fn lemma_least(s: Seq<usize>, n: int)
    requires
        1 <= n <= s.len(),
    ensures
        0 <= least_position(s, n) < n,
        forall|i: int| 0 <= i < n ==> s[least_position(s, n)] <= #[trigger] s[i],
    decreases n,
{
    if n > 1 {
        lemma_least(s, n - 1);
    }
}

/// A circle told from its least node is a circle.
proof fn lemma_told(g: Graph, s: Seq<usize>)
    requires
        s.len() > 0,
        s.no_duplicates(),
        is_way(g, s),
        g[s.last() as int].contains(s[0]),
    ensures
        is_circle(g, told(s)),
        told(s).drop_last().no_duplicates(),
        forall|i: int| 0 <= i < told(s).len() ==> told(s)[0] <= #[trigger] told(s)[i],
{
    let n = s.len() as int;
    lemma_least(s, n);
    let m = least_position(s, n);
    let t = told(s);
    assert forall|i: int| 0 <= i < t.len() implies #[trigger] t[i] == s[if i < n - m {
        m + i
    } else if i < n {
        i - (n - m)
    } else {
        m
    }] by {}
    assert forall|i: int, j: int| 0 <= i && j == i + 1 && j < t.len() implies g[(
    #[trigger] t[i]) as int].contains(#[trigger] t[j]) by {
        if i < n - m - 1 {
            assert(t[i] == s[m + i] && t[j] == s[m + i + 1]);
        } else if i == n - m - 1 {
            assert(t[i] == s[n - 1]);
            if m == 0 {
                assert(t[j] == s[0]);
            } else {
                assert(t[j] == s[0]);
            }
        } else {
            let x = i - (n - m);
            assert(t[i] == s[x]);
            assert(t[j] == s[x + 1]);
        }
    }
    assert(t[0] == s[m]);
    let u = t.drop_last();
    assert forall|a: int, b: int| 0 <= a < u.len() && 0 <= b < u.len() && a != b implies u[a]
        != u[b] by {
        assert(u[a] == t[a] && u[b] == t[b]);
    }
}

/// A list without repetitions of numbers below `n` is no longer than `n`.
pub proof fn lemma_pigeonhole(s: Seq<usize>, n: nat)
    requires
        s.no_duplicates(),
        forall|i: int| 0 <= i < s.len() ==> #[trigger] s[i] < n,
    ensures
        s.len() <= n,
    decreases n,
{
    if n == 0 {
        if s.len() > 0 {
            assert(s[0] < 0);
        }
    } else if exists|i: int| 0 <= i < s.len() && s[i] == n - 1 {
        let i = choose|i: int| 0 <= i < s.len() && s[i] == n - 1;
        let t = s.remove(i);
        assert forall|j: int| 0 <= j < t.len() implies #[trigger] t[j] < n - 1 by {
            let x = if j < i {
                j
            } else {
                j + 1
            };
            assert(t[j] == s[x]);
            assert(s[x] != s[i]);
        }
        assert(t.no_duplicates()) by {
            assert forall|a: int, b: int|
                0 <= a < t.len() && 0 <= b < t.len() && a != b implies t[a] != t[b] by {
                let x = if a < i {
                    a
                } else {
                    a + 1
                };
                let y = if b < i {
                    b
                } else {
                    b + 1
                };
                assert(t[a] == s[x] && t[b] == s[y]);
            }
        }
        lemma_pigeonhole(t, (n - 1) as nat);
    } else {
        assert forall|j: int| 0 <= j < s.len() implies #[trigger] s[j] < n - 1 by {}
        lemma_pigeonhole(s, (n - 1) as nat);
    }
}

/// Whether every arrow from a node of `done` leads to an earlier node of it.
spec fn is_settled(g: Graph, done: Seq<usize>) -> bool {
    &&& forall|i: int| 0 <= i < done.len() ==> #[trigger] done[i] < g.len()
    &&& forall|i: int, j: int|
        0 <= i < done.len() && 0 <= j < g[done[i] as int].len() ==> done.take(i).contains(
            #[trigger] g[done[i] as int][j],
        )
}

/// Whether `stack` is a way without repetitions.
spec fn is_stack(g: Graph, stack: Seq<usize>) -> bool {
    stack.no_duplicates() && is_way(g, stack)
}

proof fn lemma_visited(g: Graph, k: usize, stack: Seq<usize>, done: Seq<usize>)
    requires
        is_graph(g),
        k < g.len(),
        is_stack(g, stack),
        is_settled(g, done),
        stack.len() > 0 ==> g[stack.last() as int].contains(k),
    ensures
        match visited(g, k, stack, done) {
            (Some(c), d) => is_circle(g, c) && c.drop_last().no_duplicates() && forall|i: int|
                0 <= i < c.len() ==> c[0] <= #[trigger] c[i],
            (None, d) => is_settled(g, d) && done.is_prefix_of(d) && d.contains(k),
        },
    decreases g.len() - stack.len(), 0int,
{
    let at = position(stack, k, 0);
    lemma_position(stack, k, 0);
    if !done.contains(k) {
        if at < stack.len() {
            let s = stack.skip(at);
            assert(s.last() == stack.last());
            assert forall|i: int, j: int| 0 <= i && j == i + 1 && j < s.len() implies g[(
            #[trigger] s[i]) as int].contains(#[trigger] s[j]) by {
                assert(s[i] == stack[i + at] && s[j] == stack[j + at]);
            }
            assert forall|i: int, j: int| 0 <= i < s.len() && 0 <= j < s.len() && i != j implies s[i]
                != s[j] by {
                assert(s[i] == stack[i + at] && s[j] == stack[j + at]);
            }
            lemma_told(g, s);
        } else {
            let longer = stack.push(k);
            assert(longer.no_duplicates());
            lemma_pigeonhole(longer, g.len());
            assert forall|i: int, j: int| 0 <= i && j == i + 1 && j < longer.len() implies g[(
            #[trigger] longer[i]) as int].contains(#[trigger] longer[j]) by {
                if j == stack.len() {
                    assert(longer[i] == stack.last());
                } else {
                    assert(longer[i] == stack[i] && longer[j] == stack[j]);
                }
            }
            lemma_all_visited(g, k, 0, longer, done);
            let (c, d) = all_visited(g, g[k as int], 0, longer, done);
            if c is None {
                let e = d.push(k);
                assert forall|i: int, j: int|
                    0 <= i < e.len() && 0 <= j < g[e[i] as int].len() implies e.take(i).contains(
                    #[trigger] g[e[i] as int][j],
                ) by {
                    if i < d.len() {
                        assert(e[i] == d[i]);
                        assert(e.take(i) =~= d.take(i));
                    } else {
                        assert(e[i] == k);
                        assert(e.take(i) =~= d);
                        assert(d.contains(g[k as int][j]));
                    }
                }
                assert(e[d.len() as int] == k);
                assert(done.is_prefix_of(e));
            }
        }
    }
}

proof fn lemma_all_visited(g: Graph, k: usize, i: int, stack: Seq<usize>, done: Seq<usize>)
    requires
        is_graph(g),
        k < g.len(),
        0 <= i <= g[k as int].len(),
        stack.len() > 0 && stack.last() == k,
        is_stack(g, stack),
        is_settled(g, done),
        stack.len() <= g.len(),
    ensures
        match all_visited(g, g[k as int], i, stack, done) {
            (Some(c), d) => is_circle(g, c) && c.drop_last().no_duplicates() && forall|x: int|
                0 <= x < c.len() ==> c[0] <= #[trigger] c[x],
            (None, d) => is_settled(g, d) && done.is_prefix_of(d) && forall|j: int|
                i <= j < g[k as int].len() ==> d.contains(#[trigger] g[k as int][j]),
        },
    decreases g.len() - stack.len(), g[k as int].len() - i + 1,
{
    let list = g[k as int];
    if i < list.len() {
        let next = list[i];
        lemma_visited(g, next, stack, done);
        let (c, d) = visited(g, next, stack, done);
        if c is None {
            lemma_all_visited(g, k, i + 1, stack, d);
            let (c2, d2) = all_visited(g, list, i + 1, stack, d);
            if c2 is None {
                let x = choose|x: int| 0 <= x < d.len() && d[x] == next;
                assert(d2[x] == next);
            }
        }
    }
}

proof fn lemma_searched(g: Graph, k: int, done: Seq<usize>)
    requires
        is_graph(g),
        0 <= k <= g.len() <= usize::MAX,
        is_settled(g, done),
        forall|j: usize| j < k ==> done.contains(j),
    ensures
        match searched(g, k, done) {
            (Some(c), d) => is_circle(g, c) && c.drop_last().no_duplicates() && forall|x: int|
                0 <= x < c.len() ==> c[0] <= #[trigger] c[x],
            (None, d) => is_settled(g, d) && forall|j: usize| j < g.len() ==> d.contains(j),
        },
    decreases g.len() - k,
{
    if k < g.len() {
        let none = Seq::<usize>::empty();
        lemma_visited(g, k as usize, none, done);
        let (c, d) = visited(g, k as usize, none, done);
        if c is None {
            assert forall|j: usize| j < k + 1 implies d.contains(j) by {
                if j < k {
                    assert(done.contains(j));
                    let x = choose|x: int| 0 <= x < done.len() && done[x] == j;
                    assert(d[x] == j);
                }
            }
            lemma_searched(g, k + 1, d);
        }
    }
}

/// What the search finds is a circle, told from its least node. It passes no other node
/// twice.
pub proof fn law_found_circle_is_a_circle(g: Graph)
    requires
        is_graph(g),
        g.len() <= usize::MAX,
    ensures
        circle(g) matches Some(c) ==> is_circle(g, c) && c.drop_last().no_duplicates() && forall|i: int|
            0 <= i < c.len() ==> c[0] <= #[trigger] c[i],
{
    lemma_searched(g, 0, seq![]);
}

/// Along a way through settled nodes, each node comes before the last one of an
/// earlier list.
proof fn lemma_way_descends(g: Graph, done: Seq<usize>, p: Seq<usize>, i: int, at: int)
    requires
        is_settled(g, done),
        is_way(g, p),
        0 <= i < p.len(),
        0 <= at < done.len(),
        done[at] == p[0],
        forall|j: int| 0 <= j < at ==> done[j] != p[0],
    ensures
        i > 0 ==> done.take(at).contains(p[i]),
    decreases i,
{
    if i > 0 {
        lemma_way_descends(g, done, p, i - 1, at);
        let from = if i == 1 {
            at
        } else {
            let before = done.take(at);
            let x = choose|x: int| 0 <= x < before.len() && before[x] == p[i - 1];
            assert(done[x] == p[i - 1]);
            x
        };
        assert(done[from] == p[i - 1]);
        assert(g[p[i - 1] as int].contains(p[i]));
        let list = g[done[from] as int];
        let j = choose|j: int| 0 <= j < list.len() && list[j] == p[i];
        assert(done.take(from).contains(g[done[from] as int][j]));
        let y = choose|y: int| 0 <= y < done.take(from).len() && done.take(from)[y] == p[i];
        assert(done.take(at)[y] == p[i]);
    }
}

/// Where the search finds nothing, the graph has no circle.
pub proof fn law_no_circle_is_missed(g: Graph, p: Seq<usize>)
    requires
        is_graph(g),
        g.len() <= usize::MAX,
        circle(g) is None,
    ensures
        !is_circle(g, p),
{
    lemma_searched(g, 0, seq![]);
    if is_circle(g, p) {
        let done = searched(g, 0, seq![]).1;
        assert(p[0] < g.len());
        assert(done.contains(p[0]));
        lemma_position(done, p[0], 0);
        let at = position(done, p[0], 0);
        lemma_first_position(done, p[0], 0);
        lemma_way_descends(g, done, p, p.len() - 1, at);
        let y = choose|y: int| 0 <= y < done.take(at).len() && done.take(at)[y] == p[0];
        assert(done[y] == p[0]);
    }
}

proof fn lemma_first_position(s: Seq<usize>, k: usize, i: int)
    requires
        0 <= i <= s.len(),
    ensures
        forall|j: int| i <= j < position(s, k, i) ==> s[j] != k,
    decreases s.len() - i,
{
    if i < s.len() && s[i] != k {
        lemma_first_position(s, k, i + 1);
    }
}

} // verus!
