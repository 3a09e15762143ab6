//! What can be relied on where it is asked which edges must run by what they declare.
use crate::build_log;
use crate::declared_dirt;
use crate::declared_dirt::Basis;
use crate::declared_dirt::Sweep;
use crate::freshness;
use crate::manifest;
use crate::manifest::ManifestView;
use crate::stale_laws;
use crate::staleness;
use crate::staleness::Situation;
use vstd::prelude::*;

verus! {

/// What of a situation decides whether an edge must run by what it declares.
pub open spec fn basis(s: Situation) -> Basis {
    Basis { world: s.world, log: s.log, windows: s.windows }
}

/// Whether edge `k` is made from an output of edge `q`, by way of a path.
pub open spec fn rests_on(
    m: ManifestView,
    s: Situation,
    k: usize,
    path: Seq<char>,
    q: usize,
) -> bool {
    stale_laws::is_made_from(m.edges[k as int], path) && s.world.outputs.contains_key(path)
        && s.world.outputs[path] == q
}

/// Whether no edge is made, in however many steps, from what it makes itself: every edge has a
/// higher rank than those that it is made from.
pub open spec fn are_ranked(m: ManifestView, s: Situation, rank: spec_fn(usize) -> nat) -> bool {
    forall|k: usize, path: Seq<char>, q: usize|
        k < m.edges.len() && #[trigger] rests_on(m, s, k, path, q) ==> rank(q) < rank(k)
}

/// Whether an edge is made from a path that has no time.
pub open spec fn is_lacking(m: ManifestView, s: Situation, k: usize, path: Seq<char>) -> bool {
    stale_laws::is_made_from(m.edges[k as int], path) && !stale_laws::has_time(s.world, path)
}

/// Whether an edge is made from a path that is newer than one of its outputs, or newer than the
/// log says of one.
pub open spec fn is_outrun(m: ManifestView, s: Situation, k: usize, path: Seq<char>) -> bool {
    let e = m.edges[k as int];
    let t = stale_laws::time(s.world, path);
    stale_laws::is_made_from(e, path) && ((stale_laws::outputs_count(m, s, e) && exists|
        output: Seq<char>,
    | #[trigger]
        stale_laws::is_older(s, e, output, t)) || stale_laws::outdates(s, e, path))
}

/// Whether edge `k` is made from what an edge makes that must run, where `dirt` are the edges
/// that must.
pub open spec fn is_passed_on(
    m: ManifestView,
    s: Situation,
    dirt: Map<usize, bool>,
    k: usize,
    path: Seq<char>,
    q: usize,
) -> bool {
    rests_on(m, s, k, path, q) && dirt[q]
}

/// Whether edge `k` must run, where `dirt` are the edges that must.
pub open spec fn has_reason(
    m: ManifestView,
    s: Situation,
    dirt: Map<usize, bool>,
    k: usize,
) -> bool {
    let e = m.edges[k as int];
    ||| exists|path: Seq<char>| #[trigger] is_lacking(m, s, k, path)
    ||| exists|path: Seq<char>, q: usize| #[trigger] is_passed_on(m, s, dirt, k, path, q)
    ||| if e.rule == "phony"@ {
        e.explicit_inputs.len() == 0 && e.implicit_inputs.len() == 0 && e.order_only_inputs.len()
            == 0
    } else {
        ||| exists|output: Seq<char>| #[trigger] stale_laws::is_absent(s, e, output)
        ||| exists|path: Seq<char>| #[trigger] is_outrun(m, s, k, path)
        ||| !stale_laws::is_set(m, s, e, "generator"@) && exists|output: Seq<char>| #[trigger]
            stale_laws::runs_another(m, s, e, output)
    }
}

/// Whether an edge finds inputs when it runs: its `deps` or its `depfile` is not empty.
pub open spec fn finds_inputs(m: ManifestView, s: Situation, k: usize) -> bool {
    let e = m.edges[k as int];
    staleness::quoted(m, e, "deps"@, s.windows) != Seq::<char>::empty() || staleness::plain(
        m,
        e,
        "depfile"@,
    ) != Seq::<char>::empty()
}

/// Whether edge `k` is made from an output of edge `q`.
pub open spec fn is_upon(m: ManifestView, s: Situation, k: usize, q: usize) -> bool {
    exists|path: Seq<char>| #[trigger] rests_on(m, s, k, path, q)
}

/// Whether edge `i` of a trace is made from an output of the next.
pub open spec fn leads_on(m: ManifestView, s: Situation, trace: Seq<usize>, i: int) -> bool {
    is_upon(m, s, trace[i], trace[i + 1])
}

/// Whether edges lead from one that finds inputs to `k`, each made from what the next makes.
pub open spec fn is_trace(m: ManifestView, s: Situation, trace: Seq<usize>, k: usize) -> bool {
    &&& trace.len() > 0
    &&& trace[0] < m.edges.len()
    &&& finds_inputs(m, s, trace[0])
    &&& trace.last() == k
    &&& forall|i: int| 0 <= i < trace.len() - 1 ==> #[trigger] leads_on(m, s, trace, i)
}

/// Whether an edge is asked about: it finds inputs, or one that does is made from what it
/// makes, in however many steps.
pub open spec fn is_asked_about(m: ManifestView, s: Situation, k: usize) -> bool {
    exists|trace: Seq<usize>| #[trigger] is_trace(m, s, trace, k)
}

proof fn lemma_asked_on(m: ManifestView, s: Situation, k: usize, path: Seq<char>, q: usize)
    requires
        is_asked_about(m, s, k),
        rests_on(m, s, k, path, q),
    ensures
        is_asked_about(m, s, q),
{
    let trace = choose|trace: Seq<usize>| #[trigger] is_trace(m, s, trace, k);
    let longer = trace.push(q);
    assert(is_upon(m, s, k, q));
    assert forall|i: int| 0 <= i < longer.len() - 1 implies #[trigger] leads_on(
        m,
        s,
        longer,
        i,
    ) by {
        if i < trace.len() - 1 {
            assert(leads_on(m, s, trace, i));
        }
    }
    assert(is_trace(m, s, longer, q));
}

/// Whether what is known of edges says of each whether it must run, and nothing is left out
/// that they are made from.
pub open spec fn is_settled(m: ManifestView, s: Situation, dirt: Map<usize, bool>) -> bool {
    &&& forall|k: usize| #[trigger]
        dirt.contains_key(k) ==> k < m.edges.len() && is_asked_about(m, s, k) && dirt[k]
            == has_reason(m, s, dirt, k)
    &&& forall|k: usize, path: Seq<char>, q: usize|
        dirt.contains_key(k) && #[trigger] rests_on(m, s, k, path, q) ==> dirt.contains_key(q)
}

spec fn grows(a: Map<usize, bool>, b: Map<usize, bool>) -> bool {
    forall|k: usize| #[trigger] a.contains_key(k) ==> b.contains_key(k) && b[k] == a[k]
}

proof fn lemma_reason_stays(
    m: ManifestView,
    s: Situation,
    a: Map<usize, bool>,
    b: Map<usize, bool>,
    k: usize,
)
    requires
        grows(a, b),
        forall|path: Seq<char>, q: usize| #[trigger]
            rests_on(m, s, k, path, q) ==> a.contains_key(q),
    ensures
        has_reason(m, s, a, k) == has_reason(m, s, b, k),
{
    assert forall|path: Seq<char>, q: usize|
        #![trigger is_passed_on(m, s, a, k, path, q)]
        #![trigger is_passed_on(m, s, b, k, path, q)]
        is_passed_on(m, s, a, k, path, q) == is_passed_on(m, s, b, k, path, q) by {
        if rests_on(m, s, k, path, q) {
            assert(a.contains_key(q));
        }
    }
    if exists|path: Seq<char>, q: usize| #[trigger] is_passed_on(m, s, a, k, path, q) {
        let (path, q) = choose|path: Seq<char>, q: usize| #[trigger]
            is_passed_on(m, s, a, k, path, q);
        assert(is_passed_on(m, s, b, k, path, q));
    }
    if exists|path: Seq<char>, q: usize| #[trigger] is_passed_on(m, s, b, k, path, q) {
        let (path, q) = choose|path: Seq<char>, q: usize| #[trigger]
            is_passed_on(m, s, b, k, path, q);
        assert(is_passed_on(m, s, a, k, path, q));
    }
}

/// Whether the edges that are being looked at all rank above `n`.
spec fn rank_above(open: Seq<usize>, rank: spec_fn(usize) -> nat, n: nat) -> bool {
    forall|i: int| 0 <= i < open.len() ==> rank(#[trigger] open[i]) > n
}

spec fn is_trail(m: ManifestView, open: Seq<usize>) -> bool {
    freshness::are_edges(open, m.edges.len())
}

proof fn lemma_visited(
    m: ManifestView,
    s: Situation,
    rank: spec_fn(usize) -> nat,
    k: usize,
    open: Seq<usize>,
    done: Map<usize, bool>,
)
    requires
        freshness::is_world(s.world),
        m.edges == s.world.edges,
        are_ranked(m, s, rank),
        is_settled(m, s, done),
        k < m.edges.len(),
        is_asked_about(m, s, k),
        is_trail(m, open),
        rank_above(open, rank, rank(k)),
    ensures
        ({
            let (all, dirty) = declared_dirt::visited(m, basis(s), k, open, done);
            &&& is_settled(m, s, all)
            &&& grows(done, all)
            &&& all.contains_key(k) && all[k] == dirty
            &&& forall|x: usize| #[trigger]
                all.contains_key(x) && rank(x) > rank(k) ==> done.contains_key(x)
        }),
    decreases m.edges.len() - open.len(), 0int,
{
    let b = basis(s);
    if open.contains(k) {
        assert(open[open.index_of(k)] == k);
    }
    freshness::lemma_few_edges(open, m.edges.len());
    if !done.contains_key(k) {
        let e = m.edges[k as int];
        let start = Sweep { done, dirty: declared_dirt::runs_anyway(b, e), newest: 0 };
        let inner = open.push(k);
        assert(is_trail(m, inner)) by {
            assert forall|i: int, j: int|
                0 <= i < inner.len() && 0 <= j < inner.len() && i != j implies inner[i]
                != inner[j] by {
                if i == open.len() {
                    assert(open.contains(open[j]));
                } else if j == open.len() {
                    assert(open.contains(open[i]));
                }
            }
        }
        lemma_swept(m, s, rank, k, 0, inner, start);
        let swept = declared_dirt::swept(m, b, k, 0, inner, start);
        let all = declared_dirt::visited(m, b, k, open, done).0;
        let dirty = declared_dirt::visited(m, b, k, open, done).1;
        assert(!swept.done.contains_key(k));
        assert(all == swept.done.insert(k, dirty));
        assert(grows(swept.done, all));
        stale_laws::lemma_lists(e);
        let list = freshness::sources(e);
        assert forall|path: Seq<char>, q: usize| #[trigger]
            rests_on(m, s, k, path, q) implies swept.done.contains_key(q) by {
            assert(list.contains(path));
            assert(list[list.index_of(path)] == path);
        }
        lemma_reason_stays(m, s, swept.done, all, k);
        lemma_reason(m, s, k, swept);
        assert forall|x: usize| #[trigger] all.contains_key(x) implies x < m.edges.len()
            && is_asked_about(m, s, x) && all[x] == has_reason(m, s, all, x) by {
            if x != k {
                assert(swept.done.contains_key(x));
                lemma_reason_stays(m, s, swept.done, all, x);
            }
        }
    }
}

/// Whether what was found of the sources of edge `k`, those before source `j`, is what there is.
spec fn is_swept(m: ManifestView, s: Situation, k: usize, j: int, at: Sweep) -> bool {
    let e = m.edges[k as int];
    let list = freshness::sources(e);
    &&& at.dirty <==> declared_dirt::runs_anyway(basis(s), e) || exists|i: int|
        0 <= i < j && #[trigger] is_bad(s, at.done, list, i)
    &&& forall|i: int|
        0 <= i < j && s.world.outputs.contains_key(#[trigger] list[i]) ==> at.done.contains_key(
            s.world.outputs[list[i]],
        )
    &&& forall|i: int|
        0 <= i < j && stale_laws::has_time(s.world, #[trigger] list[i]) ==> stale_laws::time(
            s.world,
            list[i],
        ) <= at.newest
    &&& at.newest == 0 || exists|i: int| 0 <= i < j && #[trigger] is_newest(s, list, i, at.newest)
}

spec fn is_newest(s: Situation, list: Seq<Seq<char>>, i: int, t: u128) -> bool {
    stale_laws::has_time(s.world, list[i]) && stale_laws::time(s.world, list[i]) == t
}

spec fn is_bad(s: Situation, done: Map<usize, bool>, list: Seq<Seq<char>>, i: int) -> bool {
    !stale_laws::has_time(s.world, list[i]) || (s.world.outputs.contains_key(list[i])
        && done[s.world.outputs[list[i]]])
}

proof fn lemma_swept(
    m: ManifestView,
    s: Situation,
    rank: spec_fn(usize) -> nat,
    k: usize,
    j: int,
    open: Seq<usize>,
    at: Sweep,
)
    requires
        freshness::is_world(s.world),
        m.edges == s.world.edges,
        are_ranked(m, s, rank),
        is_settled(m, s, at.done),
        k < m.edges.len(),
        is_asked_about(m, s, k),
        is_trail(m, open),
        forall|i: int| 0 <= i < open.len() ==> rank(#[trigger] open[i]) >= rank(k),
        0 <= j <= freshness::sources(m.edges[k as int]).len(),
        is_swept(m, s, k, j, at),
    ensures
        ({
            let r = declared_dirt::swept(m, basis(s), k, j, open, at);
            let n = freshness::sources(m.edges[k as int]).len() as int;
            &&& is_settled(m, s, r.done)
            &&& grows(at.done, r.done)
            &&& is_swept(m, s, k, n, r)
            &&& forall|x: usize| #[trigger]
                r.done.contains_key(x) && rank(x) >= rank(k) ==> at.done.contains_key(x)
        }),
    decreases
            m.edges.len() - open.len(),
            freshness::sources(m.edges[k as int]).len() - j + 1,
{
    let b = basis(s);
    let list = freshness::sources(m.edges[k as int]);
    if j < list.len() {
        let path = list[j];
        let (done, made) = if b.world.outputs.contains_key(path) {
            declared_dirt::visited(m, b, b.world.outputs[path], open, at.done)
        } else {
            (at.done, false)
        };
        if b.world.outputs.contains_key(path) {
            let q = b.world.outputs[path];
            stale_laws::lemma_lists(m.edges[k as int]);
            assert(list.contains(path));
            assert(rests_on(m, s, k, path, q));
            assert(rank(q) < rank(k));
            lemma_asked_on(m, s, k, path, q);
            lemma_visited(m, s, rank, q, open, at.done);
        }
        let next = match freshness::time(b.world, path, seq![]) {
            Ok(t) => Sweep {
                done,
                dirty: at.dirty || made,
                newest: freshness::later(at.newest, t),
            },
            Err(_) => Sweep { done, dirty: true, newest: at.newest },
        };
        lemma_step(m, s, k, j, at, next, made);
        lemma_swept(m, s, rank, k, j + 1, open, next);
        let r = declared_dirt::swept(m, b, k, j, open, at);
        assert(r == declared_dirt::swept(m, b, k, j + 1, open, next));
        assert forall|x: usize| #[trigger]
            r.done.contains_key(x) && rank(x) >= rank(k) implies at.done.contains_key(x) by {
            assert(next.done.contains_key(x));
        }
    }
}

proof fn lemma_step(
    m: ManifestView,
    s: Situation,
    k: usize,
    j: int,
    at: Sweep,
    next: Sweep,
    made: bool,
)
    requires
        0 <= j < freshness::sources(m.edges[k as int]).len(),
        is_swept(m, s, k, j, at),
        grows(at.done, next.done),
        ({
            let path = freshness::sources(m.edges[k as int])[j];
            let t = freshness::time(s.world, path, seq![]);
            &&& s.world.outputs.contains_key(path) ==> next.done.contains_key(
                s.world.outputs[path],
            ) && next.done[s.world.outputs[path]] == made
            &&& !s.world.outputs.contains_key(path) ==> !made
            &&& next.dirty == (t is Err || at.dirty || made)
            &&& next.newest == if t is Ok {
                freshness::later(at.newest, t->Ok_0)
            } else {
                at.newest
            }
        }),
    ensures
        is_swept(m, s, k, j + 1, next),
{
    let list = freshness::sources(m.edges[k as int]);
    assert forall|i: int| 0 <= i < j implies #[trigger] is_bad(s, next.done, list, i) == is_bad(
        s,
        at.done,
        list,
        i,
    ) by {
        if s.world.outputs.contains_key(list[i]) {
            assert(at.done.contains_key(s.world.outputs[list[i]]));
        }
    }
    assert(is_bad(s, next.done, list, j) <==> freshness::time(s.world, list[j], seq![]) is Err
        || made);
    if exists|i: int| 0 <= i < j && #[trigger] is_bad(s, at.done, list, i) {
        let i = choose|i: int| 0 <= i < j && #[trigger] is_bad(s, at.done, list, i);
        assert(is_bad(s, next.done, list, i));
    }
    if next.newest != 0 {
        if next.newest == at.newest {
            let i = choose|i: int| 0 <= i < j && #[trigger] is_newest(s, list, i, at.newest);
            assert(is_newest(s, list, i, next.newest));
        } else {
            assert(is_newest(s, list, j, next.newest));
        }
    }
}

/// What is found of the sources of edge `k`, and what the log says, is why it must run.
proof fn lemma_reason(m: ManifestView, s: Situation, k: usize, at: Sweep)
    requires
        is_swept(m, s, k, freshness::sources(m.edges[k as int]).len() as int, at),
    ensures
        (at.dirty || declared_dirt::runs_by_log(m, basis(s), m.edges[k as int], at.newest))
            == has_reason(m, s, at.done, k),
{
    let e = m.edges[k as int];
    let phony = e.rule == "phony"@;
    reveal_strlit("0");
    assert("0"@ =~= seq!['0']);
    stale_laws::lemma_lists(e);
    let generator = stale_laws::is_set(m, s, e, "generator"@);
    stale_laws::lemma_another(m, s, e, generator);
    lemma_anyway(s, m, k);
    lemma_bad(m, s, k, at);
    if !at.dirty && !phony {
        lemma_outrun(m, s, k, at);
    }
}

proof fn lemma_anyway(s: Situation, m: ManifestView, k: usize)
    ensures
        ({
            let e = m.edges[k as int];
            declared_dirt::runs_anyway(basis(s), e) <==> if e.rule == "phony"@ {
                e.explicit_inputs.len() == 0 && e.implicit_inputs.len() == 0
                    && e.order_only_inputs.len() == 0
            } else {
                exists|output: Seq<char>| #[trigger] stale_laws::is_absent(s, e, output)
            }
        }),
{
    let e = m.edges[k as int];
    let outputs = manifest::outputs_of(e);
    stale_laws::lemma_lists(e);
    staleness::lemma_oldest(s.world.times, outputs, 0, u128::MAX);
    if exists|j: int|
        0 <= j < outputs.len() && !s.world.times.contains_key(#[trigger] outputs[j]) {
        let j = choose|j: int|
            0 <= j < outputs.len() && !s.world.times.contains_key(#[trigger] outputs[j]);
        assert(outputs.contains(outputs[j]));
        assert(stale_laws::is_absent(s, e, outputs[j]));
    }
    if exists|output: Seq<char>| #[trigger] stale_laws::is_absent(s, e, output) {
        let output = choose|output: Seq<char>| #[trigger] stale_laws::is_absent(s, e, output);
        assert(outputs.contains(output));
        assert(outputs[outputs.index_of(output)] == output);
    }
}

proof fn lemma_bad(m: ManifestView, s: Situation, k: usize, at: Sweep)
    ensures
        ({
            let list = freshness::sources(m.edges[k as int]);
            (exists|i: int| 0 <= i < list.len() && #[trigger] is_bad(s, at.done, list, i)) <==> {
                ||| exists|path: Seq<char>| #[trigger] is_lacking(m, s, k, path)
                ||| exists|path: Seq<char>, q: usize| #[trigger]
                    is_passed_on(m, s, at.done, k, path, q)
            }
        }),
{
    let e = m.edges[k as int];
    let list = freshness::sources(e);
    stale_laws::lemma_lists(e);
    if exists|i: int| 0 <= i < list.len() && #[trigger] is_bad(s, at.done, list, i) {
        let i = choose|i: int| 0 <= i < list.len() && #[trigger] is_bad(s, at.done, list, i);
        assert(list.contains(list[i]));
        if !stale_laws::has_time(s.world, list[i]) {
            assert(is_lacking(m, s, k, list[i]));
        } else {
            assert(is_passed_on(m, s, at.done, k, list[i], s.world.outputs[list[i]]));
        }
    }
    if exists|path: Seq<char>| #[trigger] is_lacking(m, s, k, path) {
        let path = choose|path: Seq<char>| #[trigger] is_lacking(m, s, k, path);
        assert(list.contains(path));
        assert(is_bad(s, at.done, list, list.index_of(path)));
    }
    if exists|path: Seq<char>, q: usize| #[trigger] is_passed_on(m, s, at.done, k, path, q) {
        let (path, q) = choose|path: Seq<char>, q: usize| #[trigger]
            is_passed_on(m, s, at.done, k, path, q);
        assert(list.contains(path));
        assert(is_bad(s, at.done, list, list.index_of(path)));
    }
}

proof fn lemma_outrun(m: ManifestView, s: Situation, k: usize, at: Sweep)
    requires
        is_swept(m, s, k, freshness::sources(m.edges[k as int]).len() as int, at),
        !exists|path: Seq<char>| #[trigger] is_lacking(m, s, k, path),
        forall|output: Seq<char>| !#[trigger] stale_laws::is_absent(s, m.edges[k as int], output),
    ensures
        ({
            let e = m.edges[k as int];
            let outputs = manifest::outputs_of(e);
            let oldest = staleness::oldest_of(s.world.times, outputs, 0, u128::MAX);
            (exists|path: Seq<char>| #[trigger] is_outrun(m, s, k, path)) <==> (oldest is Ok
                && at.newest > oldest->Ok_0 && !staleness::goes_by_log(m, e, s.log, s.windows))
                || build_log::first_older(s.log, outputs, at.newest as nat, 0) is Some
        }),
{
    let e = m.edges[k as int];
    let list = freshness::sources(e);
    let outputs = manifest::outputs_of(e);
    let oldest = staleness::oldest_of(s.world.times, outputs, 0, u128::MAX);
    stale_laws::lemma_lists(e);
    stale_laws::lemma_logged(m, s, e);
    staleness::lemma_oldest(s.world.times, outputs, 0, u128::MAX);
    stale_laws::lemma_oldest_is_least(s.world.times, outputs, 0, u128::MAX);
    staleness::lemma_older(s.log, outputs, at.newest as nat, 0);
    if oldest is Err {
        let j = choose|j: int|
            0 <= j < outputs.len() && !s.world.times.contains_key(#[trigger] outputs[j]);
        assert(outputs.contains(outputs[j]));
        assert(stale_laws::is_absent(s, e, outputs[j]));
    }
    if exists|path: Seq<char>| #[trigger] is_outrun(m, s, k, path) {
        let path = choose|path: Seq<char>| #[trigger] is_outrun(m, s, k, path);
        assert(!is_lacking(m, s, k, path));
        assert(list.contains(path));
        assert(list[list.index_of(path)] == path);
        let t = stale_laws::time(s.world, path);
        assert(t <= at.newest);
        if stale_laws::outdates(s, e, path) {
            let output = choose|output: Seq<char>| #[trigger]
                stale_laws::is_recorded_before(s, e, output, t);
            assert(outputs.contains(output));
            assert(outputs[outputs.index_of(output)] == output);
        } else {
            let output = choose|output: Seq<char>| #[trigger]
                stale_laws::is_older(s, e, output, t);
            assert(outputs.contains(output));
            assert(outputs[outputs.index_of(output)] == output);
        }
    }
    if at.newest > 0 {
        let i = choose|i: int| 0 <= i < list.len() && #[trigger] is_newest(s, list, i, at.newest);
        assert(list.contains(list[i]));
        if at.newest > oldest->Ok_0 && !staleness::goes_by_log(m, e, s.log, s.windows) {
            let j = choose|j: int|
                0 <= j < outputs.len() && s.world.times[#[trigger] outputs[j]] == oldest->Ok_0;
            assert(outputs.contains(outputs[j]));
            assert(!stale_laws::is_absent(s, e, outputs[j]));
            assert(stale_laws::is_older(s, e, outputs[j], at.newest));
            assert(is_outrun(m, s, k, list[i]));
        }
        if build_log::first_older(s.log, outputs, at.newest as nat, 0) is Some {
            let j = choose|j: int|
                0 <= j < outputs.len() && s.log.contains_key(#[trigger] outputs[j])
                    && s.log[outputs[j]].mtime < at.newest;
            assert(outputs.contains(outputs[j]));
            assert(stale_laws::is_recorded_before(s, e, outputs[j], at.newest));
            assert(is_outrun(m, s, k, list[i]));
        }
    }
}

proof fn lemma_all_visited(m: ManifestView, s: Situation, rank: spec_fn(usize) -> nat, n: int)
    requires
        freshness::is_world(s.world),
        m.edges == s.world.edges,
        are_ranked(m, s, rank),
        0 <= n <= m.edges.len(),
    ensures
        is_settled(m, s, declared_dirt::all_visited(m, basis(s), n)),
        forall|k: usize|
            k < n && #[trigger] finds_inputs(m, s, k) ==> declared_dirt::all_visited(
                m,
                basis(s),
                n,
            ).contains_key(k),
    decreases n,
{
    let all = declared_dirt::all_visited(m, basis(s), n);
    if n > 0 {
        lemma_all_visited(m, s, rank, n - 1);
        let k = (n - 1) as usize;
        let e = m.edges[n - 1];
        assert(staleness::quoted(m, e, "deps"@, s.windows).len() == 0 ==> staleness::quoted(
            m,
            e,
            "deps"@,
            s.windows,
        ) =~= Seq::<char>::empty());
        assert(staleness::plain(m, e, "depfile"@).len() == 0 ==> staleness::plain(
            m,
            e,
            "depfile"@,
        ) =~= Seq::<char>::empty());
        assert(declared_dirt::finds_inputs(m, e, s.windows) == finds_inputs(m, s, k));
        if finds_inputs(m, s, k) {
            assert(is_trace(m, s, seq![k], k));
            let before = declared_dirt::all_visited(m, basis(s), n - 1);
            lemma_visited(m, s, rank, k, seq![], before);
            assert forall|x: usize| x < n && #[trigger] finds_inputs(m, s, x) implies
                all.contains_key(x) by {
                if x < n - 1 {
                    assert(before.contains_key(x));
                }
            }
        }
    }
}

proof fn lemma_asked_are_known(
    m: ManifestView,
    s: Situation,
    dirt: Map<usize, bool>,
    trace: Seq<usize>,
    k: usize,
)
    requires
        is_settled(m, s, dirt),
        forall|x: usize|
            x < m.edges.len() && #[trigger] finds_inputs(m, s, x) ==> dirt.contains_key(x),
        is_trace(m, s, trace, k),
    ensures
        dirt.contains_key(k),
    decreases trace.len(),
{
    if trace.len() > 1 {
        let shorter = trace.drop_last();
        let p = shorter.last();
        assert forall|i: int| 0 <= i < shorter.len() - 1 implies #[trigger] leads_on(
            m,
            s,
            shorter,
            i,
        ) by {
            assert(leads_on(m, s, trace, i));
        }
        lemma_asked_are_known(m, s, dirt, shorter, p);
        assert(leads_on(m, s, trace, trace.len() - 2));
        assert(is_upon(m, s, p, k));
        let path = choose|path: Seq<char>| #[trigger] rests_on(m, s, p, path, k);
        assert(rests_on(m, s, p, path, k));
    }
}

/// What a list of answers says of each edge.
pub open spec fn answers(dirt: Seq<bool>) -> Map<usize, bool> {
    Map::new(|k: usize| k < dirt.len(), |k: usize| dirt[k as int])
}

/// Where no edge is made from what it makes itself, an edge that is asked about must run by
/// what it declares exactly where it has a reason: an input has no time or is made by an edge
/// that must run, a phony edge has no inputs, an output is missing, an input is newer than an
/// output or than the log says, or the command is another. Of other edges nothing is said.
pub proof fn law_edges_that_are_asked_about_run_with_reason(
    m: ManifestView,
    s: Situation,
    rank: spec_fn(usize) -> nat,
    k: usize,
)
    requires
        freshness::is_world(s.world),
        m.edges == s.world.edges,
        are_ranked(m, s, rank),
        k < m.edges.len(),
    ensures
        declared_dirt::declared_dirt(m, basis(s)).len() == m.edges.len(),
        declared_dirt::declared_dirt(m, basis(s))[k as int] <==> is_asked_about(m, s, k)
            && has_reason(m, s, answers(declared_dirt::declared_dirt(m, basis(s))), k),
{
    let n = m.edges.len() as int;
    let all = declared_dirt::all_visited(m, basis(s), n);
    let dirt = declared_dirt::declared_dirt(m, basis(s));
    lemma_all_visited(m, s, rank, n);
    assert forall|x: usize| #[trigger] all.contains_key(x) implies answers(dirt).contains_key(x)
        && answers(dirt)[x] == all[x] by {
        assert(dirt[x as int] == (all.contains_key(x) && all[x]));
    }
    assert(dirt[k as int] == (all.contains_key(k) && all[k]));
    if is_asked_about(m, s, k) {
        let trace = choose|trace: Seq<usize>| #[trigger] is_trace(m, s, trace, k);
        lemma_asked_are_known(m, s, all, trace, k);
    }
    if all.contains_key(k) {
        lemma_reason_stays(m, s, all, answers(dirt), k);
    }
}

} // verus!
