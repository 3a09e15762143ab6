//! The edges that wait for each edge, in the order in which they are told that it
//! has finished.
use crate::closure;
use crate::closure::tolerates_phony_self_reference;
use crate::closure::Graph;
use crate::closure::GraphView;
use crate::collections::map_get;
use crate::manifest;
use crate::manifest::Edge;
use crate::spell;
use crate::text::same_str;
use vstd::prelude::*;
use vstd::string::*;

verus! {

/// The position of a path in a list, and 0 where it is not in it.
pub open spec fn position(list: Seq<Seq<char>>, path: Seq<char>, i: int) -> int
    decreases list.len() - i,
{
    if i < 0 || i >= list.len() {
        0
    } else if list[i] == path {
        i
    } else {
        position(list, path, i + 1)
    }
}

/// Which of the outputs of edge `p`, by position, comes first among the inputs of
/// edge `k` before input `n`. `None` where none of them is among them.
pub open spec fn place(g: GraphView, k: usize, p: usize, n: int) -> Option<int>
    decreases n,
{
    if n <= 0 {
        None
    } else if closure::awaited(g, k, n - 1) != Some(p) {
        place(g, k, p, n - 1)
    } else {
        let here = position(
            manifest::outputs_of(g.edges[p as int]),
            closure::names(g, k)[n - 1],
            0,
        );
        match place(g, k, p, n - 1) {
            Some(before) => Some(
                if before < here {
                    before
                } else {
                    here
                },
            ),
            None => Some(here),
        }
    }
}

/// Which of the outputs of edge `p`, by position, comes first among the inputs of
/// edge `k`. `None` where edge `k` does not wait for edge `p`.
pub open spec fn place_of(g: GraphView, k: usize, p: usize) -> Option<int> {
    place(g, k, p, closure::names(g, k).len() as int)
}

/// Whether edge `a` is told before edge `b` that edge `p` has finished: it waits for
/// an earlier output, or for the same and was declared first.
pub open spec fn is_told_before(g: GraphView, p: usize, a: usize, b: usize) -> bool {
    place_of(g, a, p)->Some_0 < place_of(g, b, p)->Some_0 || (place_of(g, a, p)->Some_0
        == place_of(g, b, p)->Some_0 && a < b)
}

/// Whether `told` are the edges of `list` that wait for edge `p`, in order.
pub open spec fn are_told(g: GraphView, list: Seq<usize>, p: usize, told: Seq<usize>) -> bool {
    &&& forall|k: usize| #[trigger]
        told.contains(k) <==> list.contains(k) && k < g.edges.len() && place_of(g, k, p) is Some
    &&& forall|i: int, j: int|
        0 <= i < j < told.len() ==> is_told_before(g, p, #[trigger] told[i], #[trigger] told[j])
}

/// How many of the first `n` edges that have not finished edge `k` waits for.
pub open spec fn open_count(told: Seq<Seq<usize>>, finished: Seq<bool>, k: usize, n: int) -> nat
    decreases n,
{
    if n <= 0 {
        0
    } else {
        open_count(told, finished, k, n - 1) + (if !finished[n - 1] && told[n - 1].contains(k) {
            1nat
        } else {
            0
        })
    }
}

pub proof fn lemma_open_count(told: Seq<Seq<usize>>, finished: Seq<bool>, k: usize, n: int)
    requires
        0 <= n,
    ensures
        open_count(told, finished, k, n) <= n,
    decreases n,
{
    if n > 0 {
        lemma_open_count(told, finished, k, n - 1);
    }
}

pub open spec fn lists(v: Seq<Vec<usize>>) -> Seq<Seq<usize>> {
    Seq::new(v.len(), |i: int| v[i]@)
}

/// Whether `a` comes before `b`, by place and then by edge.
spec fn is_less(a: (usize, usize), b: (usize, usize)) -> bool {
    a.0 < b.0 || (a.0 == b.0 && a.1 < b.1)
}

spec fn is_ascending(list: Seq<(usize, usize)>) -> bool {
    forall|i: int, j: int| 0 <= i < j < list.len() ==> is_less(#[trigger] list[i], #[trigger] list[j])
}

fn insert_link(out: &mut Vec<(usize, usize)>, item: (usize, usize))
    requires
        is_ascending(old(out)@),
        !old(out)@.contains(item),
    ensures
        is_ascending(final(out)@),
        forall|x: (usize, usize)| #[trigger]
            final(out)@.contains(x) <==> old(out)@.contains(x) || x == item,
{
    let ghost before = out@;
    let mut i: usize = out.len();
    while i > 0 && (item.0 < out[i - 1].0 || (item.0 == out[i - 1].0 && item.1 < out[i - 1].1))
        invariant
            out@ == before,
            i <= before.len(),
            forall|x: int| i <= x < before.len() ==> is_less(item, #[trigger] before[x]),
        decreases i,
    {
        i -= 1;
    }
    proof {
        if i > 0 {
            assert(before.contains(before[i - 1]));
            assert(is_less(before[i - 1], item));
        }
    }
    out.insert(i, item);
    proof {
        let after = out@;
        assert(after =~= before.insert(i as int, item));
        assert forall|x: int, y: int| 0 <= x < y < after.len() implies is_less(
            #[trigger] after[x],
            #[trigger] after[y],
        ) by {
            if x < i && y == i {
                if x < i - 1 {
                    assert(is_less(before[x], before[i - 1]));
                }
            } else if x == i {
                assert(after[y] == before[y - 1]);
            } else if x < i && y < i {
                assert(is_less(before[x], before[y]));
            } else if x < i {
                assert(is_less(before[x], before[y - 1]));
            } else {
                assert(is_less(before[x - 1], before[y - 1]));
            }
        }
        assert forall|x: (usize, usize)| #[trigger] after.contains(x) <==> before.contains(x) || x
            == item by {
            if before.contains(x) {
                let y = choose|y: int| 0 <= y < before.len() && before[y] == x;
                if y < i {
                    assert(after[y] == x);
                } else {
                    assert(after[y + 1] == x);
                }
            }
            assert(after[i as int] == item);
            if after.contains(x) && x != item {
                let y = choose|y: int| 0 <= y < after.len() && after[y] == x;
                if y < i {
                    assert(before[y] == x);
                } else {
                    assert(before[y - 1] == x);
                }
            }
        }
    }
}

/// How many inputs of edge `m` have been seen when edges before `k`, and the inputs
/// of edge `k` before `j`, have.
spec fn bound(g: GraphView, k: int, j: int, m: usize) -> int {
    if m < k {
        closure::names(g, m).len() as int
    } else if m == k {
        j
    } else {
        0
    }
}

/// Whether `links` are the edges of `list`, with their places, that wait for edge
/// `p` by what has been seen of them.
spec fn are_links(
    g: GraphView,
    list: Seq<usize>,
    k: int,
    j: int,
    p: usize,
    links: Seq<(usize, usize)>,
) -> bool {
    &&& forall|x: int, y: int|
        0 <= x < y < links.len() ==> (#[trigger] links[x]).1 < (#[trigger] links[y]).1
    &&& forall|x: int|
        0 <= x < links.len() ==> {
            let m = (#[trigger] links[x]).1;
            m < g.edges.len() && list.contains(m) && place(g, m, p, bound(g, k, j, m)) == Some(
                links[x].0 as int,
            )
        }
    &&& forall|m: usize|
        m < g.edges.len() && list.contains(m) && #[trigger] place(g, m, p, bound(g, k, j, m))
            is Some ==> exists|x: int| 0 <= x < links.len() && (#[trigger] links[x]).1 == m
}

spec fn all_links(
    g: GraphView,
    list: Seq<usize>,
    k: int,
    j: int,
    links: Seq<Vec<(usize, usize)>>,
) -> bool {
    links.len() == g.edges.len() && forall|p: usize|
        p < links.len() ==> are_links(g, list, k, j, p, #[trigger] links[p as int]@)
}

fn find_position(edge: &Edge, path: &str) -> (r: usize)
    ensures
        r == position(manifest::outputs_of(edge.deep_view()), path@, 0),
{
    let outputs: Vec<&str> = edge.outputs();
    let ghost list = manifest::outputs_of(edge.deep_view());
    let mut i: usize = 0;
    while i < outputs.len()
        invariant
            list == manifest::outputs_of(edge.deep_view()),
            spell::views(outputs@) == list,
            i <= outputs@.len(),
            position(list, path@, i as int) == position(list, path@, 0),
        decreases outputs@.len() - i,
    {
        proof {
            assert(list[i as int] == outputs@[i as int]@);
        }
        if same_str(outputs[i], path) {
            return i;
        }
        i += 1;
    }
    0
}

/// What is seen of edge `k` where its input `j` comes from edge `p`.
fn add_link(
    links: &mut Vec<Vec<(usize, usize)>>,
    p: usize,
    k: usize,
    here: usize,
    Ghost(g): Ghost<GraphView>,
    Ghost(list): Ghost<Seq<usize>>,
    Ghost(j): Ghost<int>,
)
    requires
        all_links(g, list, k as int, j, old(links)@),
        p < g.edges.len(),
        k < g.edges.len(),
        list.contains(k),
        0 <= j < closure::names(g, k).len(),
        closure::awaited(g, k, j) == Some(p),
        here == position(
            manifest::outputs_of(g.edges[p as int]),
            closure::names(g, k)[j],
            0,
        ),
    ensures
        all_links(g, list, k as int, j + 1, final(links)@),
{
    let ghost before = links@;
    let ghost old_list = before[p as int]@;
    let mut own: Vec<(usize, usize)> = Vec::new();
    std::mem::swap(&mut own, &mut links[p]);
    let n: usize = own.len();
    proof {
        assert(are_links(g, list, k as int, j, p, old_list));
        assert(own@ == old_list);
    }
    if n > 0 && own[n - 1].1 == k {
        if here < own[n - 1].0 {
            own.set(n - 1, (here, k));
        }
    } else {
        own.push((here, k));
    }
    let ghost new_list = own@;
    links.set(p, own);
    proof {
        assert forall|q: usize| q < links@.len() implies are_links(
            g,
            list,
            k as int,
            j + 1,
            q,
            #[trigger] links@[q as int]@,
        ) by {
            if q != p {
                assert(links@[q as int]@ == before[q as int]@);
                assert(are_links(g, list, k as int, j, q, before[q as int]@));
                assert(place(g, k, q, j + 1) == place(g, k, q, j));
                lemma_bounds_agree(g, list, k, j, q, before[q as int]@);
            } else {
                lemma_own_links(g, list, k, j, p, here, old_list, new_list);
            }
        }
    }
}

proof fn lemma_bounds_agree(
    g: GraphView,
    list: Seq<usize>,
    k: usize,
    j: int,
    q: usize,
    links: Seq<(usize, usize)>,
)
    requires
        are_links(g, list, k as int, j, q, links),
        place(g, k, q, j + 1) == place(g, k, q, j),
    ensures
        are_links(g, list, k as int, j + 1, q, links),
{
    assert forall|m: usize| #[trigger]
        place(g, m, q, bound(g, k as int, j + 1, m)) == place(g, m, q, bound(g, k as int, j, m)) by {
        assert(m == k || bound(g, k as int, j + 1, m) == bound(g, k as int, j, m));
    }
}

proof fn lemma_own_links(
    g: GraphView,
    list: Seq<usize>,
    k: usize,
    j: int,
    p: usize,
    here: usize,
    before: Seq<(usize, usize)>,
    after: Seq<(usize, usize)>,
)
    requires
        are_links(g, list, k as int, j, p, before),
        k < g.edges.len(),
        list.contains(k),
        0 <= j < closure::names(g, k).len(),
        closure::awaited(g, k, j) == Some(p),
        here == position(
            manifest::outputs_of(g.edges[p as int]),
            closure::names(g, k)[j],
            0,
        ),
        before.len() > 0 && before.last().1 == k ==> after == (if here < before.last().0 {
            before.update(before.len() - 1, (here, k))
        } else {
            before
        }),
        !(before.len() > 0 && before.last().1 == k) ==> after == before.push((here, k)),
    ensures
        are_links(g, list, k as int, j + 1, p, after),
{
    let old_place = place(g, k, p, j);
    let new_place = place(g, k, p, j + 1);
    assert(bound(g, k as int, j, k) == j);
    if old_place is Some {
        assert(place(g, k, p, bound(g, k as int, j, k)) is Some);
        let x = choose|x: int| 0 <= x < before.len() && (#[trigger] before[x]).1 == k;
        if x < before.len() - 1 {
            let last = before[before.len() - 1];
            assert(before[x].1 < last.1);
            assert(place(g, last.1, p, bound(g, k as int, j, last.1)) is Some);
            assert(bound(g, k as int, j, last.1) == 0);
        }
        assert(before.last().1 == k);
        assert(old_place == Some(before.last().0 as int));
    } else if before.len() > 0 {
        let last = before[before.len() - 1];
        assert(place(g, last.1, p, bound(g, k as int, j, last.1)) is Some);
        assert(last.1 != k);
    }
    assert forall|x: int| 0 <= x < before.len() implies (#[trigger] before[x]).1 <= k by {
        let m = before[x].1;
        assert(place(g, m, p, bound(g, k as int, j, m)) is Some);
        if m > k {
            assert(bound(g, k as int, j, m) == 0);
        }
    }
    assert forall|x: int| 0 <= x < after.len() implies ({
        let m = (#[trigger] after[x]).1;
        m < g.edges.len() && list.contains(m) && place(g, m, p, bound(g, k as int, j + 1, m))
            == Some(after[x].0 as int)
    }) by {
        let m = after[x].1;
        if x < before.len() {
            assert(before[x].1 == m);
            assert(place(g, m, p, bound(g, k as int, j, m)) == Some(before[x].0 as int));
            if m == k {
                if x < before.len() - 1 {
                    assert(before[x].1 < before[before.len() - 1].1);
                }
            } else {
                assert(bound(g, k as int, j + 1, m) == bound(g, k as int, j, m));
                assert(after[x] == before[x]);
            }
        } else {
            assert(m == k);
        }
    }
    assert forall|m: usize|
        m < g.edges.len() && list.contains(m) && #[trigger] place(
            g,
            m,
            p,
            bound(g, k as int, j + 1, m),
        ) is Some implies exists|x: int| 0 <= x < after.len() && (#[trigger] after[x]).1 == m by {
        if m == k {
            assert(after[after.len() - 1].1 == k);
        } else {
            assert(bound(g, k as int, j + 1, m) == bound(g, k as int, j, m));
            assert(place(g, m, p, bound(g, k as int, j, m)) is Some);
            let x = choose|x: int| 0 <= x < before.len() && (#[trigger] before[x]).1 == m;
            assert(after[x].1 == m);
        }
    }
    assert forall|x: int, y: int| 0 <= x < y < after.len() implies (#[trigger] after[x]).1 < (
    #[trigger] after[y]).1 by {
        if y < before.len() {
            assert(before[x].1 < before[y].1);
        } else {
            assert(before[x].1 <= k);
            if before[x].1 == k && x < before.len() - 1 {
                assert(before[x].1 < before[before.len() - 1].1);
            }
        }
    }
}

/// The edges that wait for each edge, in the order in which they are told, and how
/// many edges each edge waits for.
pub struct Links {
    pub dependents: Vec<Vec<usize>>,
    pub pending: Vec<usize>,
}

/// Whether each edge of a graph has the edges of `list` that wait for it.
pub open spec fn all_told(g: GraphView, list: Seq<usize>, told: Seq<Seq<usize>>) -> bool {
    told.len() == g.edges.len() && forall|p: usize|
        p < told.len() ==> are_told(g, list, p, #[trigger] told[p as int])
}

pub open spec fn none(n: nat) -> Seq<bool> {
    Seq::new(n, |i: int| false)
}

/// Whether each edge counts the edges that it waits for.
pub open spec fn all_counted(told: Seq<Seq<usize>>, pending: Seq<usize>) -> bool {
    pending.len() == told.len() && forall|k: usize|
        k < pending.len() ==> #[trigger] pending[k as int] == open_count(
            told,
            none(told.len()),
            k,
            told.len() as int,
        )
}

fn sort_links(
    links: &Vec<(usize, usize)>,
    Ghost(g): Ghost<GraphView>,
    Ghost(list): Ghost<Seq<usize>>,
    Ghost(p): Ghost<usize>,
) -> (r: Vec<usize>)
    requires
        are_links(g, list, g.edges.len() as int, 0, p, links@),
    ensures
        are_told(g, list, p, r@),
{
    let ghost n = g.edges.len() as int;
    let mut sorted: Vec<(usize, usize)> = Vec::new();
    let mut i: usize = 0;
    while i < links.len()
        invariant
            n == g.edges.len(),
            are_links(g, list, n, 0, p, links@),
            i <= links@.len(),
            is_ascending(sorted@),
            forall|x: (usize, usize)| #[trigger]
                sorted@.contains(x) <==> links@.take(i as int).contains(x),
        decreases links@.len() - i,
    {
        let ghost before = sorted@;
        proof {
            let shorter = links@.take(i as int);
            let longer = links@.take(i + 1);
            assert(longer =~= shorter.push(links@[i as int]));
            assert(!shorter.contains(links@[i as int])) by {
                if shorter.contains(links@[i as int]) {
                    let x = choose|x: int| 0 <= x < i && shorter[x] == links@[i as int];
                    assert(links@[x].1 < links@[i as int].1);
                }
            }
            assert forall|x: (usize, usize)| #[trigger] longer.contains(x) <==> shorter.contains(
                x,
            ) || x == links@[i as int] by {
                if shorter.contains(x) {
                    let y = choose|y: int| 0 <= y < shorter.len() && shorter[y] == x;
                    assert(longer[y] == x);
                }
                assert(longer[i as int] == links@[i as int]);
                if longer.contains(x) && x != links@[i as int] {
                    let y = choose|y: int| 0 <= y < longer.len() && longer[y] == x;
                    assert(shorter[y] == x);
                }
            }
            assert(!before.contains(links@[i as int]));
        }
        insert_link(&mut sorted, links[i]);
        i += 1;
    }
    proof {
        assert(links@.take(i as int) =~= links@);
    }
    let mut r: Vec<usize> = Vec::new();
    let mut j: usize = 0;
    while j < sorted.len()
        invariant
            j <= sorted@.len(),
            r@.len() == j,
            forall|x: int| 0 <= x < j ==> #[trigger] r@[x] == sorted@[x].1,
        decreases sorted@.len() - j,
    {
        r.push(sorted[j].1);
        j += 1;
    }
    proof {
        assert forall|x: int| 0 <= x < sorted@.len() implies place_of(
            g,
            (#[trigger] sorted@[x]).1,
            p,
        ) == Some(sorted@[x].0 as int) && list.contains(sorted@[x].1) && sorted@[x].1 < n by {
            assert(sorted@.contains(sorted@[x]));
            let y = choose|y: int| 0 <= y < links@.len() && links@[y] == sorted@[x];
            assert(list.contains(links@[y].1));
        }
        assert forall|k: usize| #[trigger]
            r@.contains(k) <==> list.contains(k) && k < g.edges.len() && place_of(g, k, p)
                is Some by {
            if r@.contains(k) {
                let x = choose|x: int| 0 <= x < r@.len() && r@[x] == k;
                assert(place_of(g, sorted@[x].1, p) is Some);
            }
            if list.contains(k) && k < g.edges.len() && place_of(g, k, p) is Some {
                assert(place(g, k, p, bound(g, n, 0, k)) is Some);
                let y = choose|y: int| 0 <= y < links@.len() && (#[trigger] links@[y]).1 == k;
                assert(links@.contains(links@[y]));
                assert(sorted@.contains(links@[y]));
                let x = choose|x: int| 0 <= x < sorted@.len() && sorted@[x] == links@[y];
                assert(r@[x] == k);
            }
        }
        assert forall|x: int, y: int| 0 <= x < y < r@.len() implies is_told_before(
            g,
            p,
            #[trigger] r@[x],
            #[trigger] r@[y],
        ) by {
            assert(is_less(sorted@[x], sorted@[y]));
            assert(place_of(g, sorted@[x].1, p) == Some(sorted@[x].0 as int));
            assert(place_of(g, sorted@[y].1, p) == Some(sorted@[y].0 as int));
        }
    }
    r
}

/// How many times `k` is among the first `i` of `list`, which holds nothing twice.
spec fn among(list: Seq<usize>, i: int, k: usize) -> nat {
    if list.take(i).contains(k) {
        1
    } else {
        0
    }
}

fn count_pending(dependents: &Vec<Vec<usize>>) -> (r: Vec<usize>)
    requires
        forall|p: int|
            0 <= p < dependents@.len() ==> (#[trigger] dependents@[p])@.no_duplicates(),
        forall|p: int, i: int|
            0 <= p < dependents@.len() && 0 <= i < dependents@[p]@.len() ==> (
            #[trigger] dependents@[p]@[i]) < dependents@.len(),
    ensures
        all_counted(lists(dependents@), r@),
{
    let n: usize = dependents.len();
    let ghost told = lists(dependents@);
    let ghost open = none(told.len());
    let mut r: Vec<usize> = Vec::new();
    while r.len() < n
        invariant
            r@.len() <= n,
            forall|k: int| 0 <= k < r@.len() ==> #[trigger] r@[k] == 0,
        decreases n - r@.len(),
    {
        r.push(0);
    }
    let mut p: usize = 0;
    while p < n
        invariant
            n == dependents@.len(),
            told == lists(dependents@),
            open == none(told.len()),
            r@.len() == n,
            p <= n,
            forall|p: int|
                0 <= p < dependents@.len() ==> (#[trigger] dependents@[p])@.no_duplicates(),
            forall|p: int, i: int|
                0 <= p < dependents@.len() && 0 <= i < dependents@[p]@.len() ==> (
                #[trigger] dependents@[p]@[i]) < dependents@.len(),
            forall|k: usize|
                k < n ==> #[trigger] r@[k as int] == open_count(told, open, k, p as int),
        decreases n - p,
    {
        let list: &Vec<usize> = &dependents[p];
        let mut i: usize = 0;
        proof {
            assert(list@.no_duplicates());
            assert forall|k: usize| k < n implies #[trigger] open_count(told, open, k, p as int)
                <= p by {
                lemma_open_count(told, open, k, p as int);
            }
            assert forall|k: usize| k < n implies #[trigger] r@[k as int] == open_count(
                told,
                open,
                k,
                p as int,
            ) + among(list@, 0, k) by {
                assert(list@.take(0) =~= seq![]);
            }
        }
        while i < list.len()
            invariant
                n == dependents@.len(),
                r@.len() == n,
                p < n,
                i <= list@.len(),
                list@.no_duplicates(),
                forall|i: int| 0 <= i < list@.len() ==> (#[trigger] list@[i]) < n,
                forall|k: usize|
                    k < n ==> #[trigger] r@[k as int] == open_count(told, open, k, p as int)
                        + among(list@, i as int, k),
                forall|k: usize|
                    k < n ==> #[trigger] open_count(told, open, k, p as int) <= p,
            decreases list@.len() - i,
        {
            let d: usize = list[i];
            let ghost before = r@;
            proof {
                let shorter = list@.take(i as int);
                let longer = list@.take(i + 1);
                assert(longer =~= shorter.push(d));
                assert(before[d as int] == open_count(told, open, d, p as int) + among(
                    list@,
                    i as int,
                    d,
                ));
                if shorter.contains(d) {
                    let x = choose|x: int| 0 <= x < shorter.len() && shorter[x] == d;
                    assert(list@[x] == list@[i as int]);
                }
                assert(longer[i as int] == d);
                assert forall|k: usize| k != d implies longer.contains(k) == shorter.contains(
                    k,
                ) by {
                    if shorter.contains(k) {
                        let x = choose|x: int| 0 <= x < shorter.len() && shorter[x] == k;
                        assert(longer[x] == k);
                    }
                    if longer.contains(k) {
                        let x = choose|x: int| 0 <= x < longer.len() && longer[x] == k;
                        assert(shorter[x] == k);
                    }
                }
            }
            let count: usize = r[d];
            r.set(d, count + 1);
            i += 1;
        }
        proof {
            assert(list@.take(i as int) =~= list@);
            assert(told[p as int] == list@);
        }
        p += 1;
    }
    r
}

/// Which of the first `n` edges are in a list.
pub fn list_members(n: usize, list: &[usize]) -> (r: Vec<bool>)
    requires
        forall|i: int| 0 <= i < list@.len() ==> (#[trigger] list@[i]) < n,
    ensures
        r@.len() == n,
        forall|k: usize| k < n ==> #[trigger] r@[k as int] == list@.contains(k),
{
    let mut r: Vec<bool> = Vec::new();
    while r.len() < n
        invariant
            r@.len() <= n,
            forall|k: int| 0 <= k < r@.len() ==> !(#[trigger] r@[k]),
        decreases n - r@.len(),
    {
        r.push(false);
    }
    let mut i: usize = 0;
    while i < list.len()
        invariant
            i <= list@.len(),
            r@.len() == n,
            forall|x: int| 0 <= x < list@.len() ==> (#[trigger] list@[x]) < n,
            forall|k: usize|
                k < n ==> #[trigger] r@[k as int] == list@.take(i as int).contains(k),
        decreases list@.len() - i,
    {
        let ghost before = r@;
        r.set(list[i], true);
        proof {
            let shorter = list@.take(i as int);
            let longer = list@.take(i + 1);
            assert(longer =~= shorter.push(list@[i as int]));
            assert forall|k: usize| k < n implies #[trigger] r@[k as int] == longer.contains(
                k,
            ) by {
                assert(before[k as int] == shorter.contains(k));
                assert(longer[i as int] == list@[i as int]);
                if shorter.contains(k) {
                    let x = choose|x: int| 0 <= x < shorter.len() && shorter[x] == k;
                    assert(longer[x] == k);
                }
                if longer.contains(k) && k != list@[i as int] {
                    let x = choose|x: int| 0 <= x < longer.len() && longer[x] == k;
                    assert(shorter[x] == k);
                }
            }
        }
        i += 1;
    }
    proof {
        assert(list@.take(i as int) =~= list@);
    }
    r
}

impl<'a> Graph<'a> {
    /// The edges of `closure` that wait for each edge, in the order in which they are
    /// told that it has finished, and how many edges each edge waits for.
    pub fn link_edges(&self, closure: &[usize]) -> (r: Links)
        requires
            closure::is_graph(self@),
            closure::is_settled(self@, closure@),
        ensures
            all_told(self@, closure@, lists(r.dependents@)),
            all_counted(lists(r.dependents@), r.pending@),
    {
        let ghost g = self@;
        let ghost list = closure@;
        let manifest: &manifest::Manifest = self.manifest;
        let n: usize = manifest.edges.len();
        let inside: Vec<bool> = list_members(n, closure);
        let mut links: Vec<Vec<(usize, usize)>> = Vec::new();
        while links.len() < n
            invariant
                links@.len() <= n,
                forall|k: int| 0 <= k < links@.len() ==> (#[trigger] links@[k])@.len() == 0,
            decreases n - links@.len(),
        {
            links.push(Vec::new());
        }
        proof {
            assert forall|p: usize| p < links@.len() implies are_links(
                g,
                list,
                0,
                0,
                p,
                #[trigger] links@[p as int]@,
            ) by {
                assert forall|m: usize| (#[trigger] place(g, m, p, bound(g, 0, 0, m))) is None by {
                    assert(bound(g, 0, 0, m) == 0);
                }
            }
        }
        let mut k: usize = 0;
        while k < n
            invariant
                g == self@,
                closure::is_graph(g),
                manifest == self.manifest,
                n == manifest.edges@.len(),
                n == g.edges.len(),
                inside@.len() == n,
                forall|k: usize| k < n ==> #[trigger] inside@[k as int] == list.contains(k),
                k <= n,
                all_links(g, list, k as int, 0, links@),
            decreases n - k,
        {
            let ghost count = closure::names(g, k).len() as int;
            proof {
                assert(inside@[k as int] == list.contains(k));
            }
            if inside[k] {
                let edge: &Edge = &manifest.edges[k];
                proof {
                    assert(g.edges[k as int] == edge.deep_view());
                }
                let tolerant: bool = tolerates_phony_self_reference(edge, self.phony_cycle_error);
                let mut j: usize = 0;
                loop
                    invariant
                        g == self@,
                        closure::is_graph(g),
                        manifest == self.manifest,
                        n == manifest.edges@.len(),
                        n == g.edges.len(),
                        k < n,
                        list.contains(k),
                        count == closure::names(g, k).len(),
                        count <= usize::MAX,
                        j <= count,
                        tolerant == closure::tolerates(g.edges[k as int], g.strict),
                        all_links(g, list, k as int, j as int, links@),
                    ensures
                        all_links(g, list, k as int, count, links@),
                    decreases count - j,
                {
                    match self.input_at(k, j) {
                        None => {
                            break;
                        },
                        Some(input) => {
                            let found: Option<usize> = match map_get(self.outputs, input) {
                                Some(p) => Some(*p),
                                None => None,
                            };
                            let awaited: Option<usize> = match found {
                                Some(p) => {
                                    if p == k && tolerant {
                                        None
                                    } else {
                                        Some(p)
                                    }
                                },
                                None => None,
                            };
                            proof {
                                assert(awaited == closure::awaited(g, k, j as int));
                            }
                            match awaited {
                                Some(p) => {
                                    proof {
                                        assert(g.outputs.contains_key(input@));
                                        assert(g.edges[p as int]
                                            == manifest.edges@[p as int].deep_view());
                                    }
                                    let here: usize = find_position(&manifest.edges[p], input);
                                    add_link(
                                        &mut links,
                                        p,
                                        k,
                                        here,
                                        Ghost(g),
                                        Ghost(list),
                                        Ghost(j as int),
                                    );
                                },
                                None => {
                                    proof {
                                        lemma_nothing_new(g, list, k, j as int, links@);
                                    }
                                },
                            }
                            j += 1;
                        },
                    }
                }
            }
            proof {
                lemma_next_edge(g, list, k, links@);
            }
            k += 1;
        }
        let mut dependents: Vec<Vec<usize>> = Vec::new();
        while dependents.len() < n
            invariant
                n == g.edges.len(),
                all_links(g, list, n as int, 0, links@),
                dependents@.len() <= n,
                forall|p: usize|
                    p < dependents@.len() ==> are_told(g, list, p, #[trigger] dependents@[p as int]@),
            decreases n - dependents@.len(),
        {
            let p: usize = dependents.len();
            proof {
                assert(are_links(g, list, n as int, 0, p, links@[p as int]@));
            }
            let told: Vec<usize> = sort_links(&links[p], Ghost(g), Ghost(list), Ghost(p));
            dependents.push(told);
        }
        proof {
            let told = lists(dependents@);
            assert forall|p: usize| p < told.len() implies are_told(
                g,
                list,
                p,
                #[trigger] told[p as int],
            ) by {
                assert(told[p as int] == dependents@[p as int]@);
            }
            assert forall|p: int| 0 <= p < dependents@.len() implies (
            #[trigger] dependents@[p])@.no_duplicates() by {
                assert(are_told(g, list, p as usize, dependents@[p]@));
                let told = dependents@[p]@;
                assert forall|x: int, y: int|
                    0 <= x < told.len() && 0 <= y < told.len() && x != y implies told[x]
                    != told[y] by {
                    if x < y {
                        assert(is_told_before(g, p as usize, told[x], told[y]));
                    } else {
                        assert(is_told_before(g, p as usize, told[y], told[x]));
                    }
                }
            }
            assert forall|p: int, i: int|
                0 <= p < dependents@.len() && 0 <= i < dependents@[p]@.len() implies (
            #[trigger] dependents@[p]@[i]) < dependents@.len() by {
                assert(are_told(g, list, p as usize, dependents@[p]@));
                assert(dependents@[p]@.contains(dependents@[p]@[i]));
            }
        }
        let pending: Vec<usize> = count_pending(&dependents);
        Links { dependents, pending }
    }
}

proof fn lemma_nothing_new(
    g: GraphView,
    list: Seq<usize>,
    k: usize,
    j: int,
    links: Seq<Vec<(usize, usize)>>,
)
    requires
        all_links(g, list, k as int, j, links),
        closure::awaited(g, k, j) is None,
        0 <= j,
    ensures
        all_links(g, list, k as int, j + 1, links),
{
    assert forall|p: usize| p < links.len() implies are_links(
        g,
        list,
        k as int,
        j + 1,
        p,
        #[trigger] links[p as int]@,
    ) by {
        assert(are_links(g, list, k as int, j, p, links[p as int]@));
        assert(place(g, k, p, j + 1) == place(g, k, p, j));
        lemma_bounds_agree(g, list, k, j, p, links[p as int]@);
    }
}

proof fn lemma_next_edge(
    g: GraphView,
    list: Seq<usize>,
    k: usize,
    links: Seq<Vec<(usize, usize)>>,
)
    requires
        k < g.edges.len(),
        all_links(
            g,
            list,
            k as int,
            if list.contains(k) {
                closure::names(g, k).len() as int
            } else {
                0
            },
            links,
        ),
    ensures
        all_links(g, list, k + 1, 0, links),
{
    let j = if list.contains(k) {
        closure::names(g, k).len() as int
    } else {
        0
    };
    assert forall|p: usize| p < links.len() implies are_links(
        g,
        list,
        k + 1,
        0,
        p,
        #[trigger] links[p as int]@,
    ) by {
        let own = links[p as int]@;
        assert(are_links(g, list, k as int, j, p, own));
        assert forall|m: usize| list.contains(m) implies #[trigger] bound(g, k + 1, 0, m)
            == bound(g, k as int, j, m) by {}
        assert forall|x: int| 0 <= x < own.len() implies ({
            let m = (#[trigger] own[x]).1;
            m < g.edges.len() && list.contains(m) && place(g, m, p, bound(g, k + 1, 0, m)) == Some(
                own[x].0 as int,
            )
        }) by {
            assert(list.contains(own[x].1));
            assert(bound(g, k + 1, 0, own[x].1) == bound(g, k as int, j, own[x].1));
        }
        assert forall|m: usize|
            m < g.edges.len() && list.contains(m) && #[trigger] place(
                g,
                m,
                p,
                bound(g, k + 1, 0, m),
            ) is Some implies exists|x: int| 0 <= x < own.len() && (#[trigger] own[x]).1 == m by {
            assert(bound(g, k + 1, 0, m) == bound(g, k as int, j, m));
            assert(place(g, m, p, bound(g, k as int, j, m)) is Some);
        }
    }
}

} // verus!
