//! What holds of a build at every moment.
use crate::board;
use crate::board::Board;
use crate::board::Field;
use crate::board::Phase;
use crate::links;
use crate::pools;
use crate::pools::Places;
use crate::queue;
use vstd::prelude::*;

verus! {

/// Whether every edge has those that wait for it and a weight, and no pool is listed
/// twice.
pub open spec fn is_field(f: Field) -> bool {
    let n = f.m.edges.len();
    &&& n <= usize::MAX
    &&& f.told.len() == n
    &&& f.weights.len() == n
    &&& forall|p: int| 0 <= p < n ==> (#[trigger] f.told[p]).no_duplicates()
    &&& forall|p: int, i: int|
        0 <= p < n && 0 <= i < f.told[p].len() ==> (#[trigger] f.told[p][i]) < n && f.told[p][i]
            != p
    &&& f.pools.no_duplicates()
}

/// Whether each edge has finished.
pub open spec fn done(phase: Seq<Phase>) -> Seq<bool> {
    Seq::new(phase.len(), |i: int| phase[i] == Phase::Finished)
}

/// Whether edge `p` has failed and edge `d` waited for it.
pub open spec fn spoils(f: Field, b: Board, p: int, d: usize) -> bool {
    f.told[p].contains(d) && b.phase[p] == Phase::Finished && b.broken[p]
}

/// Whether an edge that edge `d` waited for has failed.
pub open spec fn is_spoiled(f: Field, b: Board, d: usize) -> bool {
    exists|p: int| 0 <= p < f.told.len() && #[trigger] spoils(f, b, p, d)
}

/// Whether an edge is blocked exactly while edges that it waits for have not
/// finished, and knows whether one of them has failed.
pub open spec fn is_sound(f: Field, b: Board) -> bool {
    let n = f.m.edges.len();
    &&& b.phase.len() == n
    &&& b.pending.len() == n
    &&& b.failed.len() == n
    &&& b.broken.len() == n
    &&& b.places.reserved.len() == n
    &&& b.plan matches Some(plan) ==> plan.len() == n
    &&& forall|k: usize|
        k < n ==> #[trigger] b.pending[k as int] == links::open_count(
            f.told,
            done(b.phase),
            k,
            n as int,
        )
    &&& forall|k: int|
        0 <= k < n ==> (#[trigger] b.phase[k] == Phase::Blocked ==> b.pending[k] > 0)
    &&& forall|k: int|
        0 <= k < n ==> (#[trigger] b.phase[k] != Phase::Blocked && b.phase[k] != Phase::Absent
            ==> b.pending[k] == 0)
    &&& forall|p: int, d: usize|
        0 <= p < n && d < n && #[trigger] f.told[p].contains(d) ==> b.phase[p] != Phase::Absent
            && b.phase[d as int] != Phase::Absent
    &&& forall|d: usize| d < n ==> #[trigger] b.failed[d as int] == is_spoiled(f, b, d)
    &&& forall|i: int| 0 <= i < b.fresh.len() ==> (#[trigger] b.fresh[i]) < n
    &&& forall|k: int|
        0 <= k < n && #[trigger] b.phase[k] != Phase::Absent ==> (board::limit_of(
            f,
            k as usize,
        ) matches Some((pool, _)) ==> f.pools.contains(pool))
    &&& forall|k: int|
        0 <= k < n && #[trigger] b.phase[k] == Phase::Parked ==> board::limit_of(f, k as usize)
            is Some
}

/// Whether an edge waits for nothing and has not finished.
pub open spec fn is_free(phase: Phase) -> bool {
    phase == Phase::Ready || phase == Phase::Parked || phase == Phase::Held || phase
        == Phase::Running
}

proof fn lemma_open_count_without(
    told: Seq<Seq<usize>>,
    before: Seq<bool>,
    after: Seq<bool>,
    k: int,
    d: usize,
    n: int,
)
    requires
        0 <= k < told.len(),
        0 <= n <= told.len(),
        before.len() == told.len(),
        !before[k],
        after == before.update(k, true),
    ensures
        links::open_count(told, before, d, n) == links::open_count(told, after, d, n) + (if k < n
            && told[k].contains(d) {
            1nat
        } else {
            0
        }),
    decreases n,
{
    if n > 0 {
        lemma_open_count_without(told, before, after, k, d, n - 1);
    }
}

/// What no unfinished edge holds up waits for finished edges only.
pub proof fn lemma_nothing_open(told: Seq<Seq<usize>>, finished: Seq<bool>, k: usize, n: int, p: int)
    requires
        links::open_count(told, finished, k, n) == 0,
        0 <= p < n <= told.len(),
        told[p].contains(k),
    ensures
        finished[p],
    decreases n,
{
    if p < n - 1 {
        lemma_nothing_open(told, finished, k, n - 1, p);
    }
}

pub proof fn lemma_remaining_bound(phase: Seq<Phase>, n: int)
    requires
        0 <= n,
    ensures
        board::remaining(phase, n) <= n,
        board::running(phase, n) <= board::remaining(phase, n),
    decreases n,
{
    if n > 0 {
        lemma_remaining_bound(phase, n - 1);
    }
}

/// How finishing edges counts.
pub proof fn lemma_remaining_without(before: Seq<Phase>, after: Seq<Phase>, k: int, n: int)
    requires
        0 <= k < before.len(),
        before.len() == after.len(),
        0 <= n <= before.len(),
        is_free(before[k]),
        after[k] == Phase::Finished,
        forall|i: int|
            0 <= i < before.len() && i != k ==> (#[trigger] after[i] == before[i] || (before[i]
                == Phase::Blocked && after[i] == Phase::Ready)),
    ensures
        board::remaining(before, n) == board::remaining(after, n) + (if k < n {
            1nat
        } else {
            0
        }),
        board::running(before, n) == board::running(after, n) + (if k < n && before[k]
            == Phase::Running {
            1nat
        } else {
            0
        }),
    decreases n,
{
    if n > 0 {
        lemma_remaining_without(before, after, k, n - 1);
        if n - 1 != k {
            assert(after[n - 1] == before[n - 1] || (before[n - 1] == Phase::Blocked && after[n - 1]
                == Phase::Ready));
        }
    }
}

/// Edges that come to do something else, without having finished, count as before.
pub proof fn lemma_remaining_same(before: Seq<Phase>, after: Seq<Phase>, n: int)
    requires
        before.len() == after.len(),
        0 <= n <= before.len(),
        forall|i: int|
            0 <= i < before.len() ==> (#[trigger] after[i] == before[i] || (is_free(before[i])
                && is_free(after[i]))),
    ensures
        board::remaining(before, n) == board::remaining(after, n),
        (forall|i: int|
            0 <= i < before.len() ==> (#[trigger] after[i] == Phase::Running <==> before[i]
                == Phase::Running)) ==> board::running(before, n) == board::running(after, n),
    decreases n,
{
    if n > 0 {
        lemma_remaining_same(before, after, n - 1);
        assert(after[n - 1] == before[n - 1] || (is_free(before[n - 1]) && is_free(after[n - 1])));
        if forall|i: int|
            0 <= i < before.len() ==> (#[trigger] after[i] == Phase::Running <==> before[i]
                == Phase::Running) {
            assert(after[n - 1] == Phase::Running <==> before[n - 1] == Phase::Running);
        }
    }
}

pub proof fn lemma_woken(told: Seq<usize>, pending: Seq<usize>, n: int)
    requires
        0 <= n <= told.len(),
    ensures
        forall|k: usize| #[trigger]
            board::woken(told, pending, n).contains(k) <==> told.take(n).contains(k)
                && pending[k as int] == 1,
    decreases n,
{
    let all = board::woken(told, pending, n);
    if n > 0 {
        lemma_woken(told, pending, n - 1);
        let less = board::woken(told, pending, n - 1);
        let shorter = told.take(n - 1);
        let longer = told.take(n);
        let last = told[n - 1];
        assert(longer =~= shorter.push(last));
        assert forall|k: usize| #[trigger] all.contains(k) <==> longer.contains(k)
            && pending[k as int] == 1 by {
            assert(less.contains(k) <==> shorter.contains(k) && pending[k as int] == 1);
            lemma_push_contains(shorter, last, k);
            lemma_push_contains(less, last, k);
        }
    } else {
        assert(told.take(0) =~= seq![]);
    }
}

pub proof fn lemma_push_contains<A>(list: Seq<A>, last: A, x: A)
    ensures
        list.push(last).contains(x) <==> list.contains(x) || x == last,
{
    let longer = list.push(last);
    assert(longer[list.len() as int] == last);
    if list.contains(x) {
        let i = choose|i: int| 0 <= i < list.len() && list[i] == x;
        assert(longer[i] == x);
    }
    if longer.contains(x) && x != last {
        let i = choose|i: int| 0 <= i < longer.len() && longer[i] == x;
        assert(list[i] == x);
    }
}

/// What waits for an edge that has not finished is blocked.
pub proof fn lemma_told_is_blocked(f: Field, b: Board, k: usize, i: int)
    requires
        is_field(f),
        is_sound(f, b),
        k < f.m.edges.len(),
        b.phase[k as int] != Phase::Finished,
        0 <= i < f.told[k as int].len(),
    ensures
        f.told[k as int][i] < f.m.edges.len(),
        f.told[k as int][i] != k,
        b.phase[f.told[k as int][i] as int] == Phase::Blocked,
        b.pending[f.told[k as int][i] as int] > 0,
{
    let n = f.m.edges.len() as int;
    let d = f.told[k as int][i];
    assert(f.told[k as int].contains(d));
    let after = done(b.phase).update(k as int, true);
    assert(b.pending[d as int] == links::open_count(f.told, done(b.phase), d, n));
    lemma_open_count_without(f.told, done(b.phase), after, k as int, d, n);
    assert(b.phase[d as int] != Phase::Absent);
}

/// A sound board stays sound when an edge that waits for nothing finishes.
pub proof fn lemma_finished_is_sound(f: Field, b: Board, k: usize, ok: bool)
    requires
        is_field(f),
        is_sound(f, b),
        k < f.m.edges.len(),
        is_free(b.phase[k as int]),
    ensures
        is_sound(f, board::finished(f, b, k, ok)),
        board::remaining(b.phase, b.phase.len() as int) == board::remaining(
            board::finished(f, b, k, ok).phase,
            b.phase.len() as int,
        ) + 1,
        board::running(b.phase, b.phase.len() as int) == board::running(
            board::finished(f, b, k, ok).phase,
            b.phase.len() as int,
        ) + (if b.phase[k as int] == Phase::Running {
            1nat
        } else {
            0
        }),
{
    let n = f.m.edges.len() as int;
    let told = f.told[k as int];
    let r = board::finished(f, b, k, ok);
    assert(told.take(told.len() as int) =~= told);
    assert(done(r.phase) =~= done(b.phase).update(k as int, true));
    assert(!told.contains(k)) by {
        if told.contains(k) {
            let i = choose|i: int| 0 <= i < told.len() && told[i] == k;
            assert(f.told[k as int][i] != k);
        }
    }
    assert forall|d: usize| d < n implies #[trigger] r.pending[d as int] == links::open_count(
        f.told,
        done(r.phase),
        d,
        n,
    ) by {
        assert(b.pending[d as int] == links::open_count(f.told, done(b.phase), d, n));
        lemma_open_count_without(f.told, done(b.phase), done(r.phase), k as int, d, n);
    }
    assert forall|d: int| 0 <= d < n && told.contains(d as usize) implies b.phase[d]
        == Phase::Blocked && b.pending[d] > 0 by {
        assert(b.pending[d] == links::open_count(f.told, done(b.phase), d as usize, n));
        lemma_open_count_without(f.told, done(b.phase), done(r.phase), k as int, d as usize, n);
        assert(f.told[k as int].contains(d as usize));
    }
    assert forall|d: int| 0 <= d < n && #[trigger] r.phase[d] == Phase::Blocked implies r.pending[d]
        > 0 by {
        assert(b.phase[d] == Phase::Blocked ==> b.pending[d] > 0);
    }
    assert forall|d: int|
        0 <= d < n && #[trigger] r.phase[d] != Phase::Blocked && r.phase[d]
            != Phase::Absent implies r.pending[d] == 0 by {
        assert(b.phase[d] != Phase::Blocked && b.phase[d] != Phase::Absent ==> b.pending[d] == 0);
    }
    assert forall|p: int, d: usize|
        0 <= p < n && d < n && #[trigger] f.told[p].contains(d) implies r.phase[p] != Phase::Absent
        && r.phase[d as int] != Phase::Absent by {
        assert(b.phase[p] != Phase::Absent && b.phase[d as int] != Phase::Absent);
    }
    assert forall|d: usize| d < n implies #[trigger] r.failed[d as int] == is_spoiled(
        f,
        r,
        d,
    ) by {
        assert(b.failed[d as int] == is_spoiled(f, b, d));
        if is_spoiled(f, b, d) {
            let p = choose|p: int| 0 <= p < f.told.len() && #[trigger] spoils(f, b, p, d);
            assert(p != k);
            assert(spoils(f, r, p, d));
        }
        if !ok && told.contains(d) {
            assert(spoils(f, r, k as int, d));
        }
        if is_spoiled(f, r, d) {
            let p = choose|p: int| 0 <= p < f.told.len() && #[trigger] spoils(f, r, p, d);
            if p != k {
                assert(spoils(f, b, p, d)) by {
                    assert(r.phase[p] == Phase::Finished ==> b.phase[p] == Phase::Finished);
                }
            }
        }
    }
    lemma_woken(told, b.pending, told.len() as int);
    assert forall|i: int| 0 <= i < r.fresh.len() implies (#[trigger] r.fresh[i]) < n by {
        if i < b.fresh.len() {
            assert(b.fresh[i] < n);
        } else {
            let new = board::woken(told, b.pending, told.len() as int);
            let d = new[i - b.fresh.len()];
            assert(new.contains(d));
            assert(told.contains(d));
            let x = choose|x: int| 0 <= x < told.len() && told[x] == d;
            assert(f.told[k as int][x] < n);
        }
    }
    assert forall|d: int| 0 <= d < n && #[trigger] r.phase[d] != Phase::Absent implies (
    board::limit_of(f, d as usize) matches Some((pool, _)) ==> f.pools.contains(pool)) by {
        assert(b.phase[d] != Phase::Absent);
    }
    assert forall|d: int| 0 <= d < n && #[trigger] r.phase[d] == Phase::Parked implies
        board::limit_of(f, d as usize) is Some by {
        assert(b.phase[d] == Phase::Parked);
    }
    lemma_remaining_without(b.phase, r.phase, k as int, n);
}

/// When an edge finishes, others only become ready.
pub proof fn lemma_finished_phases(f: Field, b: Board, k: usize, ok: bool)
    requires
        is_field(f),
        is_sound(f, b),
        k < f.m.edges.len(),
        is_free(b.phase[k as int]),
    ensures
        forall|d: int|
            0 <= d < b.phase.len() && d != k ==> (#[trigger] board::finished(f, b, k, ok).phase[d]
                == b.phase[d] || (b.phase[d] == Phase::Blocked && board::finished(
                f,
                b,
                k,
                ok,
            ).phase[d] == Phase::Ready)),
{
    let told = f.told[k as int];
    assert(told.take(told.len() as int) =~= told);
    let r = board::finished(f, b, k, ok);
    assert forall|d: int| 0 <= d < b.phase.len() && d != k implies (#[trigger] r.phase[d]
        == b.phase[d] || (b.phase[d] == Phase::Blocked && r.phase[d] == Phase::Ready)) by {
        if told.contains(d as usize) {
            let i = choose|i: int| 0 <= i < told.len() && told[i] == d as usize;
            lemma_told_is_blocked(f, b, k, i);
        }
    }
}

/// A sound board stays sound when edges that wait for nothing come to do something
/// else.
pub proof fn lemma_phases_are_sound(f: Field, b: Board, r: Board)
    requires
        is_field(f),
        is_sound(f, b),
        r.pending == b.pending,
        r.failed == b.failed,
        r.broken == b.broken,
        r.plan == b.plan,
        r.places.reserved.len() == b.places.reserved.len(),
        r.phase.len() == b.phase.len(),
        forall|i: int| 0 <= i < r.fresh.len() ==> (#[trigger] r.fresh[i]) < b.phase.len(),
        forall|i: int|
            0 <= i < b.phase.len() ==> (#[trigger] r.phase[i] == b.phase[i] || (is_free(b.phase[i])
                && is_free(r.phase[i]))),
        forall|i: int|
            0 <= i < b.phase.len() && #[trigger] r.phase[i] == Phase::Parked ==> board::limit_of(
                f,
                i as usize,
            ) is Some,
    ensures
        is_sound(f, r),
        board::remaining(r.phase, r.phase.len() as int) == board::remaining(
            b.phase,
            b.phase.len() as int,
        ),
{
    let n = f.m.edges.len() as int;
    assert(done(r.phase) =~= done(b.phase));
    assert forall|k: usize| k < n implies #[trigger] r.pending[k as int] == links::open_count(
        f.told,
        done(r.phase),
        k,
        n,
    ) by {
        assert(b.pending[k as int] == links::open_count(f.told, done(b.phase), k, n));
    }
    assert forall|k: int| 0 <= k < n && #[trigger] r.phase[k] == Phase::Blocked implies r.pending[k]
        > 0 by {
        assert(b.phase[k] == Phase::Blocked ==> b.pending[k] > 0);
    }
    assert forall|k: int|
        0 <= k < n && #[trigger] r.phase[k] != Phase::Blocked && r.phase[k]
            != Phase::Absent implies r.pending[k] == 0 by {
        assert(b.phase[k] != Phase::Blocked && b.phase[k] != Phase::Absent ==> b.pending[k] == 0);
    }
    assert forall|p: int, d: usize|
        0 <= p < n && d < n && #[trigger] f.told[p].contains(d) implies r.phase[p] != Phase::Absent
        && r.phase[d as int] != Phase::Absent by {
        assert(b.phase[p] != Phase::Absent && b.phase[d as int] != Phase::Absent);
    }
    assert forall|d: usize| d < n implies #[trigger] r.failed[d as int] == is_spoiled(
        f,
        r,
        d,
    ) by {
        assert(b.failed[d as int] == is_spoiled(f, b, d));
        assert forall|p: int| 0 <= p < f.told.len() implies #[trigger] spoils(f, r, p, d) == spoils(
            f,
            b,
            p,
            d,
        ) by {
            assert(r.phase[p] == b.phase[p] || (is_free(b.phase[p]) && is_free(r.phase[p])));
        }
        if is_spoiled(f, b, d) {
            let p = choose|p: int| 0 <= p < f.told.len() && #[trigger] spoils(f, b, p, d);
            assert(spoils(f, r, p, d));
        }
    }
    assert forall|k: int| 0 <= k < n && #[trigger] r.phase[k] != Phase::Absent implies (
    board::limit_of(f, k as usize) matches Some((pool, _)) ==> f.pools.contains(pool)) by {
        assert(b.phase[k] != Phase::Absent);
    }
    lemma_remaining_same(b.phase, r.phase, n);
}

pub proof fn lemma_with_places_len(
    f: Field,
    dirty: Seq<bool>,
    ready: Seq<usize>,
    n: int,
    p: Places,
)
    requires
        0 <= n <= ready.len(),
        forall|i: int| 0 <= i < ready.len() ==> (#[trigger] ready[i]) < p.reserved.len(),
    ensures
        pools::with_places(f.m, f.windows, dirty, ready, n, p).reserved.len() == p.reserved.len(),
    decreases n,
{
    if n > 0 {
        lemma_with_places_len(f, dirty, ready, n - 1, p);
        assert(ready[n - 1] < p.reserved.len());
    }
}

/// A sound board stays sound when places are given and given up.
pub proof fn lemma_places_are_sound(f: Field, b: Board, k: usize)
    requires
        is_field(f),
        is_sound(f, b),
    ensures
        is_sound(f, board::reserved(f, b)),
        k < f.m.edges.len() ==> is_sound(f, board::released(f, b, k)),
{
    lemma_with_places_len(f, b.plan->Some_0, b.fresh, b.fresh.len() as int, b.places);
    lemma_phases_are_sound(f, b, board::reserved(f, b));
    if k < f.m.edges.len() {
        lemma_phases_are_sound(f, b, board::released(f, b, k));
    }
}

/// The edges that do something, and those that wait for a place in a pool, are few.
pub proof fn lemma_few_are_doing(f: Field, b: Board, phase: Phase, pool: Seq<char>)
    ensures
        board::doing(b, phase).finite(),
        board::doing(b, phase).len() <= b.phase.len(),
        board::waiting(f, b, pool).finite(),
{
    queue::lemma_set_below(board::doing(b, phase), b.phase.len());
    queue::lemma_set_below(board::waiting(f, b, pool), b.phase.len());
}

/// Whether two boards differ only in who has a place.
pub open spec fn differ_in_places(b: Board, r: Board) -> bool {
    &&& r.pending == b.pending
    &&& r.failed == b.failed
    &&& r.broken == b.broken
    &&& r.plan == b.plan
    &&& r.fresh == b.fresh
    &&& r.places.reserved.len() == b.places.reserved.len()
    &&& r.phase.len() == b.phase.len()
    &&& forall|i: int|
        0 <= i < b.phase.len() ==> (#[trigger] r.phase[i] == b.phase[i] || (r.phase[i]
            == Phase::Ready && b.phase[i] == Phase::Parked) || (r.phase[i] == Phase::Parked
            && b.phase[i] == Phase::Ready))
}

pub proof fn lemma_parked_is_sound(f: Field, b: Board)
    requires
        is_field(f),
        is_sound(f, b),
    ensures
        is_sound(f, board::parked(f, b)),
        differ_in_places(b, board::parked(f, b)),
{
    lemma_phases_are_sound(f, b, board::parked(f, b));
}

/// The edge that is let in to a pool first.
pub proof fn lemma_let_in_is_sound(f: Field, b: Board, pool: Seq<char>)
    requires
        is_field(f),
        is_sound(f, b),
        board::waiting(f, b, pool) != Set::<usize>::empty(),
    ensures
        ({
            let k = queue::first(f.weights, board::waiting(f, b, pool));
            &&& board::waiting(f, b, pool).contains(k)
            &&& is_sound(f, board::let_in(b, k, pool))
            &&& differ_in_places(b, board::let_in(b, k, pool))
        }),
{
    lemma_few_are_doing(f, b, Phase::Ready, pool);
    queue::lemma_first_exists(f.weights, board::waiting(f, b, pool));
    let k = queue::first(f.weights, board::waiting(f, b, pool));
    assert(board::waiting(f, b, pool).contains(k));
    let r = board::let_in(b, k, pool);
    assert forall|i: int| 0 <= i < b.phase.len() && #[trigger] r.phase[i] == Phase::Parked implies
        board::limit_of(f, i as usize) is Some by {
        assert(b.phase[i] == Phase::Parked);
    }
    lemma_phases_are_sound(f, b, r);
}

pub proof fn lemma_admitted_to_is_sound(f: Field, b: Board, pool: Seq<char>)
    requires
        is_field(f),
        is_sound(f, b),
    ensures
        is_sound(f, board::admitted_to(f, b, pool)),
        differ_in_places(b, board::admitted_to(f, b, pool)),
    decreases
            pools::room(f.m, Some(pool), usize::MAX) - pools::held(b.places.usage, pool),
{
    let r = board::admitted_to(f, b, pool);
    if board::waiting(f, b, pool) == Set::<usize>::empty() {
    } else if pools::held(b.places.usage, pool) < pools::room(f.m, Some(pool), usize::MAX) {
        lemma_let_in_is_sound(f, b, pool);
        let k = queue::first(f.weights, board::waiting(f, b, pool));
        let next = board::let_in(b, k, pool);
        lemma_admitted_to_is_sound(f, next, pool);
        assert forall|i: int| 0 <= i < b.phase.len() implies (#[trigger] r.phase[i] == b.phase[i]
            || (r.phase[i] == Phase::Ready && b.phase[i] == Phase::Parked) || (r.phase[i]
            == Phase::Parked && b.phase[i] == Phase::Ready)) by {
            assert(next.phase[i] == b.phase[i] || (next.phase[i] == Phase::Ready && b.phase[i]
                == Phase::Parked));
        }
    } else {
        lemma_phases_are_sound(f, b, r);
    }
}

pub proof fn lemma_admitted_to_pools_is_sound(f: Field, b: Board, n: int)
    requires
        is_field(f),
        is_sound(f, b),
        0 <= n <= f.pools.len(),
    ensures
        is_sound(f, board::admitted_to_pools(f, b, n)),
        differ_in_places(b, board::admitted_to_pools(f, b, n)),
    decreases n,
{
    if n > 0 {
        lemma_admitted_to_pools_is_sound(f, b, n - 1);
        let before = board::admitted_to_pools(f, b, n - 1);
        lemma_admitted_to_is_sound(f, before, f.pools[n - 1]);
        lemma_differ_again(b, before, board::admitted_to_pools(f, b, n));
    }
}

proof fn lemma_differ_again(a: Board, b: Board, c: Board)
    requires
        differ_in_places(a, b),
        differ_in_places(b, c),
    ensures
        differ_in_places(a, c),
{
    assert forall|i: int| 0 <= i < a.phase.len() implies (#[trigger] c.phase[i] == a.phase[i] || (
    c.phase[i] == Phase::Ready && a.phase[i] == Phase::Parked) || (c.phase[i] == Phase::Parked
        && a.phase[i] == Phase::Ready)) by {
        assert(b.phase[i] == a.phase[i] || (b.phase[i] == Phase::Ready && a.phase[i]
            == Phase::Parked) || (b.phase[i] == Phase::Parked && a.phase[i] == Phase::Ready));
    }
}

/// A sound board stays sound when edges are let in to pools.
pub proof fn lemma_admitted_is_sound(f: Field, b: Board)
    requires
        is_field(f),
        is_sound(f, b),
    ensures
        is_sound(f, board::admitted(f, b)),
        differ_in_places(b, board::admitted(f, b)),
        board::remaining(board::admitted(f, b).phase, b.phase.len() as int) == board::remaining(
            b.phase,
            b.phase.len() as int,
        ),
        board::running(board::admitted(f, b).phase, b.phase.len() as int) == board::running(
            b.phase,
            b.phase.len() as int,
        ),
{
    lemma_parked_is_sound(f, b);
    lemma_admitted_to_pools_is_sound(f, board::parked(f, b), f.pools.len() as int);
    let r = board::admitted(f, b);
    lemma_differ_again(b, board::parked(f, b), r);
    lemma_remaining_same(b.phase, r.phase, b.phase.len() as int);
}

/// The edges of a set, in order, are the edges of the set.
pub proof fn lemma_ordered(weights: Seq<usize>, set: Set<usize>)
    requires
        set.finite(),
    ensures
        board::ordered(weights, set).to_set() == set,
        board::ordered(weights, set).no_duplicates(),
    decreases set.len(),
{
    let all = board::ordered(weights, set);
    if set == Set::<usize>::empty() {
        assert(all.to_set() =~= set);
    } else {
        queue::lemma_first_exists(weights, set);
        let k = queue::first(weights, set);
        let rest = board::ordered(weights, set.remove(k));
        lemma_ordered(weights, set.remove(k));
        assert(all =~= seq![k] + rest);
        assert forall|x: usize| all.contains(x) <==> set.contains(x) by {
            assert(rest.contains(x) <==> rest.to_set().contains(x));
            assert(all[0] == k);
            if rest.contains(x) {
                let i = choose|i: int| 0 <= i < rest.len() && rest[i] == x;
                assert(all[i + 1] == x);
            }
            if all.contains(x) && x != k {
                let i = choose|i: int| 0 <= i < all.len() && all[i] == x;
                assert(rest[i - 1] == x);
            }
        }
        assert(all.to_set() =~= set);
        assert forall|i: int, j: int|
            0 <= i < all.len() && 0 <= j < all.len() && i != j implies all[i] != all[j] by {
            if i == 0 {
                assert(rest.contains(rest[j - 1]));
                assert(rest.to_set().contains(rest[j - 1]));
            } else if j == 0 {
                assert(rest.contains(rest[i - 1]));
                assert(rest.to_set().contains(rest[i - 1]));
            } else {
                assert(rest[i - 1] != rest[j - 1]);
            }
        }
    }
}

/// Edges for which there is nothing to be done are among those that were asked about.
pub proof fn lemma_idle(f: Field, b: Board, list: Seq<usize>)
    requires
        list.no_duplicates(),
    ensures
        forall|k: usize| #[trigger]
            board::idle(f, b, list).contains(k) <==> list.contains(k) && board::is_idle(f, b, k),
        board::idle(f, b, list).no_duplicates(),
    decreases list.len(),
{
    if list.len() > 0 {
        let less = list.drop_last();
        let last = list.last();
        lemma_idle(f, b, less);
        let before = board::idle(f, b, less);
        assert(less.push(last) =~= list);
        assert(!less.contains(last)) by {
            if less.contains(last) {
                let i = choose|i: int| 0 <= i < less.len() && less[i] == last;
                assert(list[i] == list[list.len() - 1]);
            }
        }
        assert forall|k: usize| #[trigger]
            board::idle(f, b, list).contains(k) <==> list.contains(k) && board::is_idle(
                f,
                b,
                k,
            ) by {
            lemma_push_contains(less, last, k);
            lemma_push_contains(before, last, k);
            assert(before.contains(k) <==> less.contains(k) && board::is_idle(f, b, k));
        }
        if board::is_idle(f, b, last) {
            lemma_push_distinct(before, last);
        }
    }
}

pub proof fn lemma_push_distinct<A>(list: Seq<A>, last: A)
    requires
        list.no_duplicates(),
        !list.contains(last),
    ensures
        list.push(last).no_duplicates(),
{
    let longer = list.push(last);
    assert forall|i: int, j: int|
        0 <= i < longer.len() && 0 <= j < longer.len() && i != j implies longer[i]
        != longer[j] by {
        if i == list.len() {
            assert(list.contains(list[j]));
        } else if j == list.len() {
            assert(list.contains(list[i]));
        }
    }
}

/// Whether edges stand in line that are ready, none of them twice.
pub open spec fn is_line(b: Board, line: Seq<usize>) -> bool {
    &&& line.no_duplicates()
    &&& forall|i: int| 0 <= i < line.len() ==> board::doing(b, Phase::Ready).contains(
        #[trigger] line[i],
    )
}

/// The line once its first edge has finished.
pub open spec fn next_line(f: Field, b: Board, line: Seq<usize>) -> Seq<usize> {
    let next = board::finished(f, b, line[0], true);
    let new = board::doing(next, Phase::Ready).difference(board::doing(b, Phase::Ready));
    line.skip(1) + board::idle(f, next, board::ordered(f.weights, new))
}

pub proof fn lemma_next_line(f: Field, b: Board, line: Seq<usize>)
    requires
        is_field(f),
        is_sound(f, b),
        is_line(b, line),
        line.len() > 0,
    ensures
        line[0] < f.m.edges.len(),
        is_sound(f, board::finished(f, b, line[0], true)),
        is_line(board::finished(f, b, line[0], true), next_line(f, b, line)),
        board::remaining(b.phase, b.phase.len() as int) == board::remaining(
            board::finished(f, b, line[0], true).phase,
            b.phase.len() as int,
        ) + 1,
{
    let k = line[0];
    assert(board::doing(b, Phase::Ready).contains(line[0]));
    lemma_finished_is_sound(f, b, k, true);
    let next = board::finished(f, b, k, true);
    let new = board::doing(next, Phase::Ready).difference(board::doing(b, Phase::Ready));
    lemma_few_are_doing(f, next, Phase::Ready, seq![]);
    queue::lemma_set_below(new, b.phase.len());
    lemma_ordered(f.weights, new);
    let order = board::ordered(f.weights, new);
    lemma_idle(f, next, order);
    let more = board::idle(f, next, order);
    let after = line.skip(1) + more;
    assert forall|i: int| 0 <= i < more.len() implies new.contains(#[trigger] more[i]) by {
        assert(more.contains(more[i]));
        assert(order.contains(more[i]));
        assert(order.to_set().contains(more[i]));
    }
    assert forall|i: int| 0 <= i < after.len() implies board::doing(next, Phase::Ready).contains(
        #[trigger] after[i],
    ) by {
        if i < line.len() - 1 {
            assert(after[i] == line[i + 1]);
            assert(board::doing(b, Phase::Ready).contains(line[i + 1]));
            assert(line[i + 1] != k);
        } else {
            assert(new.contains(more[i - (line.len() - 1)]));
        }
    }
    assert forall|i: int, j: int|
        0 <= i < after.len() && 0 <= j < after.len() && i != j implies after[i] != after[j] by {
        let m = line.len() - 1;
        if i < m && j < m {
            assert(line[i + 1] != line[j + 1]);
        } else if i < m {
            assert(board::doing(b, Phase::Ready).contains(line[i + 1]));
            assert(new.contains(more[j - m]));
        } else if j < m {
            assert(board::doing(b, Phase::Ready).contains(line[j + 1]));
            assert(new.contains(more[i - m]));
        } else {
            assert(more[i - m] != more[j - m]);
        }
    }
}

/// A sound board stays sound when edges for which there is nothing to be done finish.
pub proof fn lemma_cleared_is_sound(f: Field, b: Board, line: Seq<usize>)
    requires
        is_field(f),
        is_sound(f, b),
        is_line(b, line),
    ensures
        is_sound(f, board::cleared(f, b, line)),
        board::cleared(f, b, line).phase.len() == b.phase.len(),
        board::cleared(f, b, line).plan == b.plan,
        board::remaining(board::cleared(f, b, line).phase, b.phase.len() as int)
            <= board::remaining(b.phase, b.phase.len() as int),
        board::running(board::cleared(f, b, line).phase, b.phase.len() as int) == board::running(
            b.phase,
            b.phase.len() as int,
        ),
    decreases board::remaining(b.phase, b.phase.len() as int),
{
    if line.len() > 0 {
        lemma_next_line(f, b, line);
        let k = line[0];
        assert(board::doing(b, Phase::Ready).contains(line[0]));
        lemma_finished_is_sound(f, b, k, true);
        lemma_cleared_is_sound(f, board::finished(f, b, k, true), next_line(f, b, line));
    }
}

/// A sound board stays sound when a round begins.
pub proof fn lemma_without_idle_is_sound(f: Field, b: Board)
    requires
        is_field(f),
        is_sound(f, b),
    ensures
        is_line(
            b,
            board::idle(f, b, board::ordered(f.weights, board::doing(b, Phase::Ready))),
        ),
        is_sound(f, board::without_idle(f, b)),
        board::without_idle(f, b).phase.len() == b.phase.len(),
        board::without_idle(f, b).plan == b.plan,
        board::remaining(board::without_idle(f, b).phase, b.phase.len() as int)
            <= board::remaining(b.phase, b.phase.len() as int),
        board::running(board::without_idle(f, b).phase, b.phase.len() as int) == board::running(
            b.phase,
            b.phase.len() as int,
        ),
{
    lemma_few_are_doing(f, b, Phase::Ready, seq![]);
    let order = board::ordered(f.weights, board::doing(b, Phase::Ready));
    lemma_ordered(f.weights, board::doing(b, Phase::Ready));
    lemma_idle(f, b, order);
    let line = board::idle(f, b, order);
    assert forall|i: int| 0 <= i < line.len() implies board::doing(b, Phase::Ready).contains(
        #[trigger] line[i],
    ) by {
        assert(line.contains(line[i]));
        assert(order.contains(line[i]));
        assert(order.to_set().contains(line[i]));
    }
    lemma_cleared_is_sound(f, b, line);
}

} // verus!
