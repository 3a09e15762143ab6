//! Which dyndep files a build has yet to load, and what can be built before they
//! are.
use crate::asking;
use crate::asking::ask;
use crate::binding;
use crate::closure;
use crate::closure::edge_label;
use crate::closure::Graph;
use crate::closure::GraphView;
use crate::collections::map_get;
use crate::collections::map_new;
use crate::collections::set_contains;
use crate::collections::set_insert;
use crate::collections::set_new;
use crate::cycle;
use crate::deps_log;
use crate::finalize::is_listed;
use crate::manifest;
use crate::manifest::Edge;
use crate::manifest::EdgeView;
use crate::manifest::Manifest;
use crate::manifest::ManifestView;
use crate::manifest::ScopeView;
use crate::reach;
use crate::reach::reach;
use crate::render;
use crate::render::render_unescaped_binding;
use crate::spell;
use crate::text;
use crate::text::holds;
use crate::text::same_str;
use rapidhash::RapidHashMap;
use rapidhash::RapidHashSet;
use vstd::prelude::*;
use vstd::string::*;

verus! {

/// The dyndep file of an edge; empty where it has none.
pub open spec fn dyndep_of(scopes: Seq<ScopeView>, e: EdgeView) -> Seq<char> {
    binding::valued(scopes, e, render::lists_of(e, None), "dyndep"@, 0)
}

/// The dyndep files of the first `n` edges of `list` that are not among `seen`,
/// each once, or what is wrong with the first edge whose dyndep file is not one
/// of its inputs.
pub open spec fn pending(
    m: ManifestView,
    list: Seq<usize>,
    seen: Set<Seq<char>>,
    n: int,
) -> Result<Seq<Seq<char>>, Seq<char>>
    decreases n,
{
    if n <= 0 {
        Ok(seq![])
    } else {
        let e = m.edges[list[n - 1] as int];
        let file = dyndep_of(m.scopes, e);
        match pending(m, list, seen, n - 1) {
            Err(message) => Err(message),
            Ok(before) => if file.len() == 0 {
                Ok(before)
            } else if !manifest::inputs_of(e).contains(file) {
                Err(
                    "dyndep file '"@ + file + "' is not an input of '"@ + closure::edge_label_of(e)
                        + "'"@,
                )
            } else if seen.contains(file) || before.contains(file) {
                Ok(before)
            } else {
                Ok(before.push(file))
            },
        }
    }
}

proof fn lemma_pending_fails(
    m: ManifestView,
    list: Seq<usize>,
    seen: Set<Seq<char>>,
    n: int,
    all: int,
)
    requires
        n <= all,
        pending(m, list, seen, n) is Err,
    ensures
        pending(m, list, seen, all) == pending(m, list, seen, n),
    decreases all,
{
    if n < all && all > 0 {
        lemma_pending_fails(m, list, seen, n, all - 1);
    }
}

/// The dyndep files that the edges of a build have yet to load.
pub fn pending_dyndep_files(
    manifest: &Manifest,
    closure: &[usize],
    seen: &RapidHashSet<String>,
) -> (r: Result<Vec<String>, String>)
    requires
        forall|i: int| 0 <= i < closure@.len() ==> #[trigger] closure@[i] < manifest.edges@.len(),
    ensures
        match r {
            Ok(files) => pending(
                manifest.deep_view(),
                closure@,
                seen.deep_view(),
                closure@.len() as int,
            ) == Ok::<Seq<Seq<char>>, Seq<char>>(text::strings(files@)),
            Err(message) => pending(
                manifest.deep_view(),
                closure@,
                seen.deep_view(),
                closure@.len() as int,
            ) == Err::<Seq<Seq<char>>, Seq<char>>(message@),
        },
{
    let ghost m = manifest.deep_view();
    let ghost known = seen.deep_view();
    let mut files: Vec<String> = Vec::new();
    let mut found: RapidHashSet<String> = set_new();
    let mut i: usize = 0;
    proof {
        assert(text::strings(files@) =~= seq![]);
    }
    while i < closure.len()
        invariant
            m == manifest.deep_view(),
            known == seen.deep_view(),
            i <= closure@.len(),
            forall|i: int|
                0 <= i < closure@.len() ==> #[trigger] closure@[i] < manifest.edges@.len(),
            forall|file: Seq<char>| #[trigger]
                found.deep_view().contains(file) <==> text::strings(files@).contains(file),
            pending(m, closure@, known, i as int) == Ok::<Seq<Seq<char>>, Seq<char>>(
                text::strings(files@),
            ),
        decreases closure@.len() - i,
    {
        let k: usize = closure[i];
        let edge: &Edge = &manifest.edges[k];
        proof {
            assert(m.edges[k as int] == edge.deep_view());
            reveal_strlit("");
        }
        let file: String = render_unescaped_binding(manifest, edge, "dyndep");
        proof {
            assert(file@.len() == 0 ==> file@ =~= ""@);
            if pending(m, closure@, known, i + 1) is Err {
                lemma_pending_fails(m, closure@, known, i + 1, closure@.len() as int);
            }
        }
        if !same_str(file.as_str(), "") {
            if !is_listed(&edge.inputs(), file.as_str()) {
                let mut message: String = "dyndep file '".to_owned();
                message.append(file.as_str());
                message.append("' is not an input of '");
                message.append(edge_label(edge).as_str());
                message.append("'");
                return Err(message);
            }
            let ghost before = text::strings(files@);
            if !set_contains(seen, file.as_str()) && !set_contains(&found, file.as_str()) {
                let ghost added = file@;
                set_insert(&mut found, file.clone());
                files.push(file);
                proof {
                    let after = text::strings(files@);
                    assert(after =~= before.push(added));
                    assert forall|x: Seq<char>| #[trigger] found.deep_view().contains(x)
                        <==> after.contains(x) by {
                        assert(after[before.len() as int] == added);
                        if before.contains(x) {
                            let y = choose|y: int| 0 <= y < before.len() && before[y] == x;
                            assert(after[y] == x);
                        }
                        if after.contains(x) && x != added {
                            let y = choose|y: int| 0 <= y < after.len() && after[y] == x;
                            assert(before[y] == x);
                        }
                    }
                }
            }
        }
        i += 1;
    }
    Ok(files)
}

/// Whether edge `p` makes an input or a validation of edge `c`.
pub open spec fn feeds(g: GraphView, p: usize, c: usize) -> bool {
    ||| exists|j: int|
        0 <= j < closure::names(g, c).len() && closure::producer(
            g,
            #[trigger] closure::names(g, c)[j],
        ) == Some(p)
    ||| exists|v: int|
        0 <= v < g.edges[c as int].validations.len() && closure::producer(
            g,
            #[trigger] g.edges[c as int].validations[v],
        ) == Some(p)
}

/// Whether a graph points from each edge of `list` to those that it feeds.
pub open spec fn is_fed(g: GraphView, list: Seq<usize>, d: cycle::Graph) -> bool {
    &&& d.len() == g.edges.len()
    &&& forall|p: usize, c: usize|
        #![trigger d[p as int].contains(c)]
        p < d.len() ==> (d[p as int].contains(c) <==> list.contains(p) && list.contains(c) && feeds(
            g,
            p,
            c,
        ))
}

/// The edges of `list` with a dyndep file among `files`.
pub open spec fn is_bound(
    m: ManifestView,
    list: Seq<usize>,
    files: Seq<Seq<char>>,
    k: usize,
) -> bool {
    list.contains(k) && files.contains(dyndep_of(m.scopes, m.edges[k as int]))
}

/// Whether edges of `list` lead from one with a pending dyndep file to edge `k`,
/// each feeding the next.
pub open spec fn is_held(
    m: ManifestView,
    g: GraphView,
    list: Seq<usize>,
    files: Seq<Seq<char>>,
    k: usize,
) -> bool {
    exists|way: Seq<usize>| #[trigger]
        is_way(g, list, way) && is_bound(m, list, files, way[0]) && way.last() == k
}

pub open spec fn is_way(g: GraphView, list: Seq<usize>, way: Seq<usize>) -> bool {
    &&& way.len() > 0
    &&& forall|i: int| 0 <= i < way.len() ==> list.contains(#[trigger] way[i])
    &&& forall|i: int| 0 <= i < way.len() - 1 ==> feeds(g, #[trigger] way[i], way[i + 1])
}

/// An edge that a held edge feeds is held.
pub proof fn law_fed_edges_are_held(
    m: ManifestView,
    g: GraphView,
    list: Seq<usize>,
    files: Seq<Seq<char>>,
    p: usize,
    c: usize,
)
    requires
        is_held(m, g, list, files, p),
        list.contains(c),
        feeds(g, p, c),
    ensures
        is_held(m, g, list, files, c),
{
    let way = choose|way: Seq<usize>| #[trigger]
        is_way(g, list, way) && is_bound(m, list, files, way[0]) && way.last() == p;
    let longer = way.push(c);
    assert(way[way.len() - 1] == p);
    assert forall|i: int| 0 <= i < longer.len() - 1 implies feeds(
        g,
        #[trigger] longer[i],
        longer[i + 1],
    ) by {
        if i < way.len() - 1 {
            assert(feeds(g, way[i], way[i + 1]));
        }
    }
    assert(is_way(g, list, longer));
    assert(longer[0] == way[0]);
    assert(longer.last() == c);
}

/// Adds `c` to the edges that feed it.
fn link(
    graph: &Graph<'_>,
    c: usize,
    inside: &Vec<bool>,
    fed: &mut Vec<Vec<usize>>,
)
    requires
        closure::is_graph(graph@),
        c < graph@.edges.len(),
        inside@.len() == graph@.edges.len(),
        old(fed)@.len() == graph@.edges.len(),
    ensures
        final(fed)@.len() == old(fed)@.len(),
        forall|p: usize, x: usize|
            #![trigger final(fed)@[p as int]@.contains(x)]
            p < final(fed)@.len() ==> (final(fed)@[p as int]@.contains(x) <==> old(
                fed,
            )@[p as int]@.contains(x) || (x == c && inside@[p as int] && feeds(graph@, p, c))),
{
    let ghost g = graph@;
    let ghost start = fed@;
    let mut j: usize = 0;
    loop
        invariant_except_break
            g == graph@,
            closure::is_graph(g),
            c < g.edges.len(),
            inside@.len() == g.edges.len(),
            fed@.len() == g.edges.len(),
            start.len() == g.edges.len(),
            j <= closure::names(g, c).len(),
            forall|p: usize, x: usize|
                #![trigger fed@[p as int]@.contains(x)]
                p < fed@.len() ==> (fed@[p as int]@.contains(x) <==> start[p as int]@.contains(x)
                    || (x == c && inside@[p as int] && made_before(g, p, c, j as int))),
        ensures
            fed@.len() == g.edges.len(),
            forall|p: usize, x: usize|
                #![trigger fed@[p as int]@.contains(x)]
                p < fed@.len() ==> (fed@[p as int]@.contains(x) <==> start[p as int]@.contains(x)
                    || (x == c && inside@[p as int] && made_before(
                    g,
                    p,
                    c,
                    closure::names(g, c).len() as int,
                ))),
        decreases closure::names(g, c).len() - j,
    {
        match graph.input_at(c, j) {
            None => {
                break;
            },
            Some(input) => {
                let ghost before = fed@;
                let mut hit: Option<usize> = None;
                if let Some(found) = map_get(graph.outputs, input) {
                    let q: usize = *found;
                    proof {
                        assert(g.outputs.contains_key(input@));
                    }
                    hit = Some(q);
                    if inside[q] {
                        fed[q].push(c);
                    }
                }
                proof {
                    assert(hit == closure::producer(g, closure::names(g, c)[j as int]));
                    assert forall|p: usize, x: usize|
                        #![trigger fed@[p as int]@.contains(x)]
                        p < fed@.len() implies (fed@[p as int]@.contains(x)
                        <==> start[p as int]@.contains(x) || (x == c && inside@[p as int]
                        && made_before(g, p, c, j + 1))) by {
                        lemma_made_step(g, p, c, j as int);
                        assert(before[p as int]@.contains(x) <==> start[p as int]@.contains(x)
                            || (x == c && inside@[p as int] && made_before(g, p, c, j as int)));
                        if hit == Some(p) && inside@[p as int] {
                            lemma_pushed(before[p as int]@, c, x);
                            assert(fed@[p as int]@ == before[p as int]@.push(c));
                        } else {
                            assert(fed@[p as int] == before[p as int]);
                        }
                    }
                }
                j += 1;
            },
        }
    }
    let validations: &Vec<String> = &graph.manifest.edges[c].validations;
    let ghost list = g.edges[c as int].validations;
    let ghost middle = fed@;
    proof {
        assert(g.edges[c as int] == graph.manifest.edges@[c as int].deep_view());
    }
    let mut v: usize = 0;
    while v < validations.len()
        invariant
            g == graph@,
            closure::is_graph(g),
            c < g.edges.len(),
            inside@.len() == g.edges.len(),
            fed@.len() == g.edges.len(),
            middle.len() == g.edges.len(),
            list == g.edges[c as int].validations,
            list == text::strings(validations@),
            v <= validations@.len(),
            forall|p: usize, x: usize|
                #![trigger fed@[p as int]@.contains(x)]
                p < fed@.len() ==> (fed@[p as int]@.contains(x) <==> middle[p as int]@.contains(x)
                    || (x == c && inside@[p as int] && checked_before(g, p, list, v as int))),
        decreases validations@.len() - v,
    {
        let ghost before = fed@;
        let mut hit: Option<usize> = None;
        proof {
            assert(list[v as int] == validations@[v as int]@);
        }
        if let Some(found) = map_get(graph.outputs, validations[v].as_str()) {
            let q: usize = *found;
            proof {
                assert(g.outputs.contains_key(list[v as int]));
            }
            hit = Some(q);
            if inside[q] {
                fed[q].push(c);
            }
        }
        proof {
            assert(hit == closure::producer(g, list[v as int]));
            assert forall|p: usize, x: usize|
                #![trigger fed@[p as int]@.contains(x)]
                p < fed@.len() implies (fed@[p as int]@.contains(x) <==> middle[p as int]@.contains(
                x,
            ) || (x == c && inside@[p as int] && checked_before(g, p, list, v + 1))) by {
                lemma_checked_step(g, p, list, v as int);
                assert(before[p as int]@.contains(x) <==> middle[p as int]@.contains(x) || (x == c
                    && inside@[p as int] && checked_before(g, p, list, v as int)));
                if hit == Some(p) && inside@[p as int] {
                    lemma_pushed(before[p as int]@, c, x);
                    assert(fed@[p as int]@ == before[p as int]@.push(c));
                } else {
                    assert(fed@[p as int] == before[p as int]);
                }
            }
        }
        v += 1;
    }
    proof {
        assert forall|p: usize, x: usize|
            #![trigger fed@[p as int]@.contains(x)]
            p < fed@.len() implies (fed@[p as int]@.contains(x) <==> start[p as int]@.contains(x)
            || (x == c && inside@[p as int] && feeds(g, p, c))) by {
            assert(middle[p as int]@.contains(x) <==> start[p as int]@.contains(x) || (x == c
                && inside@[p as int] && made_before(
                g,
                p,
                c,
                closure::names(g, c).len() as int,
            )));
            assert(feeds(g, p, c) <==> made_before(g, p, c, closure::names(g, c).len() as int)
                || checked_before(g, p, list, list.len() as int));
        }
    }
}

/// Whether edge `p` makes one of the first `n` inputs of edge `c`.
spec fn made_before(g: GraphView, p: usize, c: usize, n: int) -> bool {
    exists|j: int|
        0 <= j < n && closure::producer(g, #[trigger] closure::names(g, c)[j]) == Some(p)
}

/// Whether edge `p` makes one of the first `n` paths of `list`.
spec fn checked_before(g: GraphView, p: usize, list: Seq<Seq<char>>, n: int) -> bool {
    exists|v: int| 0 <= v < n && closure::producer(g, #[trigger] list[v]) == Some(p)
}

proof fn lemma_made_step(g: GraphView, p: usize, c: usize, n: int)
    requires
        0 <= n < closure::names(g, c).len(),
    ensures
        made_before(g, p, c, n + 1) <==> made_before(g, p, c, n) || closure::producer(
            g,
            closure::names(g, c)[n],
        ) == Some(p),
{
    if made_before(g, p, c, n) {
        let j = choose|j: int|
            0 <= j < n && closure::producer(g, #[trigger] closure::names(g, c)[j]) == Some(p);
        assert(closure::producer(g, closure::names(g, c)[j]) == Some(p));
    }
}

proof fn lemma_checked_step(g: GraphView, p: usize, list: Seq<Seq<char>>, n: int)
    requires
        0 <= n < list.len(),
    ensures
        checked_before(g, p, list, n + 1) <==> checked_before(g, p, list, n) || closure::producer(
            g,
            list[n],
        ) == Some(p),
{
    if checked_before(g, p, list, n) {
        let v = choose|v: int|
            0 <= v < n && closure::producer(g, #[trigger] list[v]) == Some(p);
        assert(closure::producer(g, list[v]) == Some(p));
    }
}

proof fn lemma_pushed(s: Seq<usize>, c: usize, x: usize)
    ensures
        s.push(c).contains(x) <==> s.contains(x) || x == c,
{
    let t = s.push(c);
    assert(t[s.len() as int] == c);
    if s.contains(x) {
        let y = choose|y: int| 0 <= y < s.len() && s[y] == x;
        assert(t[y] == x);
    }
    if t.contains(x) && x != c {
        let y = choose|y: int| 0 <= y < t.len() && t[y] == x;
        assert(s[y] == x);
    }
}

/// The edges that each edge of a build feeds.
fn fed_edges(graph: &Graph<'_>, list: &[usize]) -> (r: Vec<Vec<usize>>)
    requires
        closure::is_graph(graph@),
        forall|i: int| 0 <= i < list@.len() ==> #[trigger] list@[i] < graph@.edges.len(),
    ensures
        is_fed(graph@, list@, cycle::graph_of(r@)),
        cycle::is_graph(cycle::graph_of(r@)),
        r@.len() == graph@.edges.len(),
{
    let ghost g = graph@;
    let n: usize = graph.manifest.edges.len();
    let mut inside: Vec<bool> = Vec::new();
    let mut r: Vec<Vec<usize>> = Vec::new();
    while r.len() < n
        invariant
            r@.len() <= n,
            inside@.len() == r@.len(),
            forall|k: int| 0 <= k < inside@.len() ==> !#[trigger] inside@[k],
            forall|k: int| 0 <= k < r@.len() ==> (#[trigger] r@[k])@.len() == 0,
        decreases n - r@.len(),
    {
        inside.push(false);
        r.push(Vec::new());
    }
    let mut i: usize = 0;
    while i < list.len()
        invariant
            i <= list@.len(),
            inside@.len() == n,
            forall|i: int| 0 <= i < list@.len() ==> #[trigger] list@[i] < n,
            forall|k: usize|
                k < n ==> (#[trigger] inside@[k as int] <==> list@.take(i as int).contains(k)),
        decreases list@.len() - i,
    {
        let k: usize = list[i];
        let ghost before = inside@;
        inside.set(k, true);
        proof {
            assert(list@.take(i + 1) =~= list@.take(i as int).push(k));
            assert forall|x: usize| x < n implies (#[trigger] inside@[x as int] <==> list@.take(
                i + 1,
            ).contains(x)) by {
                lemma_pushed(list@.take(i as int), k, x);
                assert(before[x as int] <==> list@.take(i as int).contains(x));
            }
        }
        i += 1;
    }
    proof {
        assert(list@.take(list@.len() as int) =~= list@);
    }
    let mut c: usize = 0;
    while c < list.len()
        invariant
            g == graph@,
            closure::is_graph(g),
            n == g.edges.len(),
            c <= list@.len(),
            inside@.len() == n,
            r@.len() == n,
            forall|i: int| 0 <= i < list@.len() ==> #[trigger] list@[i] < n,
            forall|k: usize| k < n ==> (#[trigger] inside@[k as int] <==> list@.contains(k)),
            forall|p: usize, x: usize|
                #![trigger r@[p as int]@.contains(x)]
                p < n ==> (r@[p as int]@.contains(x) <==> list@.contains(p) && list@.take(
                    c as int,
                ).contains(x) && feeds(g, p, x)),
        decreases list@.len() - c,
    {
        let ghost before = r@;
        let consumer: usize = list[c];
        link(graph, consumer, &inside, &mut r);
        proof {
            assert(list@.take(c + 1) =~= list@.take(c as int).push(consumer));
            assert forall|p: usize, x: usize|
                #![trigger r@[p as int]@.contains(x)]
                p < n implies (r@[p as int]@.contains(x) <==> list@.contains(p) && list@.take(
                c + 1,
            ).contains(x) && feeds(g, p, x)) by {
                lemma_pushed(list@.take(c as int), consumer, x);
                assert(before[p as int]@.contains(x) <==> list@.contains(p) && list@.take(
                    c as int,
                ).contains(x) && feeds(g, p, x));
                assert(inside@[p as int] <==> list@.contains(p));
            }
        }
        c += 1;
    }
    proof {
        let d = cycle::graph_of(r@);
        assert forall|p: usize, x: usize|
            #![trigger d[p as int].contains(x)]
            p < d.len() implies (d[p as int].contains(x) <==> list@.contains(p) && list@.contains(
            x,
        ) && feeds(g, p, x)) by {
            assert(d[p as int] == r@[p as int]@);
            assert(r@[p as int]@.contains(x) <==> list@.contains(p) && list@.take(
                c as int,
            ).contains(x) && feeds(g, p, x));
        }
        assert forall|p: int, j: int|
            0 <= p < d.len() && 0 <= j < d[p].len() implies #[trigger] d[p][j] < d.len() by {
            let q = p as usize;
            assert(d[q as int].contains(d[p][j]));
            let y = choose|y: int| 0 <= y < list@.len() && list@[y] == d[p][j];
            assert(list@[y] < n);
        }
    }
    r
}

proof fn lemma_held_is_reached(
    m: ManifestView,
    g: GraphView,
    list: Seq<usize>,
    files: Seq<Seq<char>>,
    d: cycle::Graph,
    seeds: Seq<usize>,
    k: usize,
)
    requires
        is_fed(g, list, d),
        forall|i: int| 0 <= i < list.len() ==> #[trigger] list[i] < g.edges.len(),
        forall|x: usize| #[trigger] seeds.contains(x) <==> is_bound(m, list, files, x),
    ensures
        reach::is_reached(d, seeds, k) <==> is_held(m, g, list, files, k),
{
    if reach::is_reached(d, seeds, k) {
        let walk = choose|walk: Seq<usize>| #[trigger]
            reach::is_walk(d, walk) && seeds.contains(walk[0]) && walk.last() == k;
        assert forall|i: int| 0 <= i < walk.len() implies list.contains(#[trigger] walk[i]) by {
            if i > 0 {
                assert(d[walk[i - 1] as int].contains(walk[i - 1 + 1]));
            } else {
                assert(is_bound(m, list, files, walk[0]));
            }
        }
        assert forall|i: int| 0 <= i < walk.len() - 1 implies feeds(
            g,
            #[trigger] walk[i],
            walk[i + 1],
        ) by {
            assert(d[walk[i] as int].contains(walk[i + 1]));
        }
        assert(is_way(g, list, walk));
    }
    if is_held(m, g, list, files, k) {
        let way = choose|way: Seq<usize>| #[trigger]
            is_way(g, list, way) && is_bound(m, list, files, way[0]) && way.last() == k;
        assert forall|i: int| 0 <= i < way.len() implies #[trigger] way[i] < d.len() by {
            assert(list.contains(way[i]));
            let y = choose|y: int| 0 <= y < list.len() && list[y] == way[i];
            assert(list[y] < g.edges.len());
        }
        assert forall|i: int| 0 <= i < way.len() - 1 implies d[(
        #[trigger] way[i]) as int].contains(way[i + 1]) by {
            assert(feeds(g, way[i], way[i + 1]));
            assert(list.contains(way[i]));
            assert(list.contains(way[i + 1]));
        }
        assert(reach::is_walk(d, way));
        assert(seeds.contains(way[0]));
    }
}

/// Tells the edges of a build that have to wait for dyndep files.
pub fn held_edges(graph: &Graph<'_>, list: &[usize], files: &Vec<String>) -> (r: Vec<bool>)
    requires
        closure::is_graph(graph@),
        forall|i: int| 0 <= i < list@.len() ==> #[trigger] list@[i] < graph@.edges.len(),
    ensures
        r@.len() == graph@.edges.len(),
        forall|k: usize|
            k < r@.len() ==> #[trigger] r@[k as int] == is_held(
                graph.manifest.deep_view(),
                graph@,
                list@,
                text::strings(files@),
                k,
            ),
{
    let ghost g = graph@;
    let ghost m = graph.manifest.deep_view();
    let ghost names = text::strings(files@);
    let fed: Vec<Vec<usize>> = fed_edges(graph, list);
    let mut seeds: Vec<usize> = Vec::new();
    let mut i: usize = 0;
    while i < list.len()
        invariant
            g == graph@,
            m == graph.manifest.deep_view(),
            g.edges == m.edges,
            g.edges.len() == graph.manifest.edges@.len(),
            names == text::strings(files@),
            i <= list@.len(),
            forall|i: int| 0 <= i < list@.len() ==> #[trigger] list@[i] < g.edges.len(),
            forall|j: int| 0 <= j < seeds@.len() ==> #[trigger] seeds@[j] < g.edges.len(),
            forall|x: usize| #[trigger]
                seeds@.contains(x) <==> list@.take(i as int).contains(x) && names.contains(
                    dyndep_of(m.scopes, m.edges[x as int]),
                ),
        decreases list@.len() - i,
    {
        let k: usize = list[i];
        let ghost before = seeds@;
        proof {
            assert(m.edges[k as int] == graph.manifest.edges@[k as int].deep_view());
        }
        let file: String = render_unescaped_binding(
            graph.manifest,
            &graph.manifest.edges[k],
            "dyndep",
        );
        let bound: bool = holds(files, file.as_str());
        if bound {
            seeds.push(k);
        }
        proof {
            assert(list@.take(i + 1) =~= list@.take(i as int).push(k));
            assert forall|x: usize| #[trigger] seeds@.contains(x) <==> list@.take(
                i + 1,
            ).contains(x) && names.contains(dyndep_of(m.scopes, m.edges[x as int])) by {
                lemma_pushed(list@.take(i as int), k, x);
                lemma_pushed(before, k, x);
                assert(before.contains(x) <==> list@.take(i as int).contains(x) && names.contains(
                    dyndep_of(m.scopes, m.edges[x as int]),
                ));
            }
        }
        i += 1;
    }
    let r: Vec<bool> = reach(&fed, &seeds);
    proof {
        assert(list@.take(list@.len() as int) =~= list@);
        assert forall|x: usize| #[trigger] seeds@.contains(x) <==> is_bound(m, list@, names, x) by {}
        assert forall|k: usize| k < r@.len() implies #[trigger] r@[k as int] == is_held(
            m,
            g,
            list@,
            names,
            k,
        ) by {
            lemma_held_is_reached(m, g, list@, names, cycle::graph_of(fed@), seeds@, k);
        }
    }
    r
}

/// The files of the first `n` that edges make.
pub open spec fn made_files(map: Map<Seq<char>, usize>, files: Seq<Seq<char>>, n: int) -> Seq<
    Seq<char>,
>
    decreases n,
{
    if n <= 0 {
        seq![]
    } else if map.contains_key(files[n - 1]) {
        made_files(map, files, n - 1).push(files[n - 1])
    } else {
        made_files(map, files, n - 1)
    }
}

/// Whether every input of an edge is made by an edge or there.
pub open spec fn has_inputs(
    map: Map<Seq<char>, usize>,
    e: EdgeView,
    there: spec_fn(Seq<char>) -> bool,
) -> bool {
    forall|j: int|
        0 <= j < manifest::inputs_of(e).len() ==> map.contains_key(
            #[trigger] manifest::inputs_of(e)[j],
        ) || there(manifest::inputs_of(e)[j])
}

/// `before` and the first outputs of those of the first `n` edges that run
/// something, have their inputs and are not held.
pub open spec fn with_safe_work(
    m: ManifestView,
    g: GraphView,
    list: Seq<usize>,
    files: Seq<Seq<char>>,
    there: spec_fn(Seq<char>) -> bool,
    before: Seq<Seq<char>>,
    n: int,
) -> Seq<Seq<char>>
    decreases n,
{
    if n <= 0 {
        before
    } else {
        let k = list[n - 1];
        let e = g.edges[k as int];
        let earlier = with_safe_work(m, g, list, files, there, before, n - 1);
        if !is_held(m, g, list, files, k) && e.rule != "phony"@ && has_inputs(g.outputs, e, there)
            && manifest::outputs_of(e).len() > 0 && !earlier.contains(
            manifest::outputs_of(e)[0],
        ) {
            earlier.push(manifest::outputs_of(e)[0])
        } else {
            earlier
        }
    }
}

/// What is to be built before dyndep files are loaded: the files, and what can be
/// built meanwhile. Nothing is where no edge makes one of the files.
pub open spec fn prebuilt(
    m: ManifestView,
    g: GraphView,
    list: Seq<usize>,
    files: Seq<Seq<char>>,
    there: spec_fn(Seq<char>) -> bool,
) -> Seq<Seq<char>> {
    let made = made_files(g.outputs, files, files.len() as int);
    if made.len() == 0 {
        made
    } else {
        with_safe_work(m, g, list, files, there, made, list.len() as int)
    }
}

fn can_run<F: Fn(&str) -> bool>(
    outputs: &RapidHashMap<String, usize>,
    edge: &Edge,
    is_there: &F,
    answers: &mut RapidHashMap<String, bool>,
) -> (r: bool)
    requires
        forall|path: &str| #[trigger] is_there.requires((path,)),
        asking::are_answers(*is_there, old(answers).deep_view()),
    ensures
        asking::are_answers(*is_there, final(answers).deep_view()),
        forall|there: spec_fn(Seq<char>) -> bool| #[trigger]
            asking::agrees(there, final(answers).deep_view()) ==> asking::agrees(
                there,
                old(answers).deep_view(),
            ) && r == has_inputs(outputs.deep_view(), edge.deep_view(), there),
{
    let ghost first = answers.deep_view();
    let inputs: Vec<&str> = edge.inputs();
    let ghost map = outputs.deep_view();
    let ghost e = edge.deep_view();
    let ghost list = manifest::inputs_of(e);
    let mut j: usize = 0;
    while j < inputs.len()
        invariant
            j <= inputs@.len(),
            map == outputs.deep_view(),
            e == edge.deep_view(),
            list == manifest::inputs_of(e),
            spell::views(inputs@) == list,
            forall|path: &str| #[trigger] is_there.requires((path,)),
            first == old(answers).deep_view(),
            asking::are_answers(*is_there, answers.deep_view()),
            forall|there: spec_fn(Seq<char>) -> bool| #[trigger]
                asking::agrees(there, answers.deep_view()) ==> asking::agrees(there, first),
            forall|there: spec_fn(Seq<char>) -> bool, k: int|
                #![trigger asking::agrees(there, answers.deep_view()), list[k]]
                asking::agrees(there, answers.deep_view()) && 0 <= k < j ==> map.contains_key(
                    list[k],
                ) || there(list[k]),
        decreases inputs@.len() - j,
    {
        let input: &str = inputs[j];
        proof {
            assert(spell::views(inputs@)[j as int] == input@);
        }
        if map_get(outputs, input).is_none() {
            let ghost known = answers.deep_view();
            let found: bool = ask(is_there, answers, input);
            if !found {
                proof {
                    assert forall|there: spec_fn(Seq<char>) -> bool| #[trigger]
                        asking::agrees(there, answers.deep_view()) implies asking::agrees(
                        there,
                        first,
                    ) && !has_inputs(map, e, there) by {
                        assert(asking::agrees(there, known));
                        assert(list[j as int] == input@);
                    }
                }
                return false;
            }
            proof {
                assert forall|there: spec_fn(Seq<char>) -> bool, k: int|
                    #![trigger asking::agrees(there, answers.deep_view()), list[k]]
                    asking::agrees(there, answers.deep_view()) && 0 <= k < j + 1 implies map.contains_key(
                    list[k],
                ) || there(list[k]) by {
                    assert(asking::agrees(there, known));
                    assert(list[j as int] == input@);
                }
            }
        }
        j += 1;
    }
    proof {
        assert forall|there: spec_fn(Seq<char>) -> bool| #[trigger]
            asking::agrees(there, answers.deep_view()) implies asking::agrees(there, first)
            && has_inputs(map, e, there) by {
            assert forall|k: int| 0 <= k < list.len() implies map.contains_key(
                #[trigger] list[k],
            ) || there(list[k]) by {}
        }
    }
    true
}

/// What is to be built before dyndep files are loaded. `is_there` tells which
/// files there are; it is asked for each file at most once, and its answers settle the
/// result.
pub fn dyndep_prebuild_targets<F: Fn(&str) -> bool>(
    graph: &Graph<'_>,
    closure: &[usize],
    dyndep_files: &Vec<String>,
    is_there: F,
) -> (r: Vec<String>)
    requires
        closure::is_graph(graph@),
        forall|i: int| 0 <= i < closure@.len() ==> #[trigger] closure@[i] < graph@.edges.len(),
        forall|path: &str| #[trigger] is_there.requires((path,)),
    ensures
        forall|there: spec_fn(Seq<char>) -> bool| #[trigger]
            deps_log::tells(is_there, there) ==> text::strings(r@) == prebuilt(
                graph.manifest.deep_view(),
                graph@,
                closure@,
                text::strings(dyndep_files@),
                there,
            ),
        exists|answers: Map<Seq<char>, bool>|
            {
                &&& #[trigger] asking::are_answers(is_there, answers)
                &&& forall|there: spec_fn(Seq<char>) -> bool| #[trigger]
                    asking::agrees(there, answers) ==> text::strings(r@) == prebuilt(
                        graph.manifest.deep_view(),
                        graph@,
                        closure@,
                        text::strings(dyndep_files@),
                        there,
                    )
            },
{
    let mut answers: RapidHashMap<String, bool> = map_new();
    let ghost g = graph@;
    let ghost m = graph.manifest.deep_view();
    let ghost files = text::strings(dyndep_files@);
    let held: Vec<bool> = held_edges(graph, closure, dyndep_files);
    let mut r: Vec<String> = Vec::new();
    let mut i: usize = 0;
    proof {
        assert(text::strings(r@) =~= seq![]);
    }
    while i < dyndep_files.len()
        invariant
            g == graph@,
            i <= dyndep_files@.len(),
            files == text::strings(dyndep_files@),
            text::strings(r@) == made_files(g.outputs, files, i as int),
        decreases dyndep_files@.len() - i,
    {
        let ghost before = text::strings(r@);
        proof {
            assert(files[i as int] == dyndep_files@[i as int]@);
        }
        if map_get(graph.outputs, dyndep_files[i].as_str()).is_some() {
            r.push(dyndep_files[i].clone());
            proof {
                assert(text::strings(r@) =~= before.push(files[i as int]));
            }
        }
        i += 1;
    }
    if r.len() == 0 {
        proof {
            assert(asking::are_answers(is_there, answers.deep_view()));
        }
        return r;
    }
    let ghost made = text::strings(r@);
    let mut n: usize = 0;
    while n < closure.len()
        invariant
            g == graph@,
            m == graph.manifest.deep_view(),
            g.edges == m.edges,
            g.edges.len() == graph.manifest.edges@.len(),
            files == text::strings(dyndep_files@),
            n <= closure@.len(),
            held@.len() == g.edges.len(),
            forall|i: int| 0 <= i < closure@.len() ==> #[trigger] closure@[i] < g.edges.len(),
            forall|path: &str| #[trigger] is_there.requires((path,)),
            forall|k: usize|
                k < held@.len() ==> #[trigger] held@[k as int] == is_held(
                    m,
                    g,
                    closure@,
                    files,
                    k,
                ),
            asking::are_answers(is_there, answers.deep_view()),
            forall|there: spec_fn(Seq<char>) -> bool| #[trigger]
                asking::agrees(there, answers.deep_view()) ==> text::strings(r@) == with_safe_work(
                    m,
                    g,
                    closure@,
                    files,
                    there,
                    made,
                    n as int,
                ),
        decreases closure@.len() - n,
    {
        let k: usize = closure[n];
        let edge: &Edge = &graph.manifest.edges[k];
        let ghost before = text::strings(r@);
        proof {
            assert(g.edges[k as int] == edge.deep_view());
            assert(held@[k as int] == is_held(m, g, closure@, files, k));
        }
        let outputs: Vec<&str> = edge.outputs();
        let ready: bool = can_run(graph.outputs, edge, &is_there, &mut answers);
        if !held[k] && !same_str(edge.rule.as_str(), "phony") && ready && outputs.len() > 0 {
            proof {
                assert(spell::views(outputs@)[0] == outputs@[0]@);
            }
            if !holds(&r, outputs[0]) {
                let ghost added = outputs@[0]@;
                r.push(outputs[0].to_owned());
                proof {
                    assert(text::strings(r@) =~= before.push(added));
                }
            }
        }
        n += 1;
    }
    proof {
        assert forall|there: spec_fn(Seq<char>) -> bool| #[trigger]
            deps_log::tells(is_there, there) implies text::strings(r@) == prebuilt(
            m,
            g,
            closure@,
            files,
            there,
        ) by {
            asking::lemma_telling_agrees(is_there, answers.deep_view(), there);
        }
    }
    r
}

} // verus!
