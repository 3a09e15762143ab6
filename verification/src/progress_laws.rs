//! A build does not get stuck: as long as edges that may be started are started, there
//! is always something to be done.
use crate::board;
use crate::board::Board;
use crate::board::Course;
use crate::board::Field;
use crate::board::Limits;
use crate::board::Offer;
use crate::board::Phase;
use crate::board::Step;
use crate::closure;
use crate::closure::GraphView;
use crate::links;
use crate::manifest;
use crate::pool_laws;
use crate::pools;
use crate::pools::Places;
use crate::queue;
use crate::scheduler;
use crate::scheduler_laws;
use crate::soundness;
use vstd::prelude::*;

verus! {

/// Whether an edge can use a place in its pool.
pub open spec fn is_active(phase: Phase) -> bool {
    phase == Phase::Ready || phase == Phase::Held || phase == Phase::Running
}

/// Whether a plan leaves phony edges without inputs alone.
pub open spec fn is_sparing(f: Field, plan: Seq<bool>) -> bool {
    forall|k: int|
        0 <= k < f.m.edges.len() && f.m.edges[k].rule == "phony"@ && manifest::inputs_of(
            f.m.edges[k],
        ).len() == 0 ==> !(#[trigger] plan[k])
}

/// Whether edge `k` is one that a build will do something for.
pub open spec fn is_planned(f: Field, b: Board, k: int) -> bool {
    b.plan->Some_0[k] || f.m.edges[k].rule != "phony"@
}

/// Whether places are held only by edges that can use them. Where pools have limits,
/// the plan is known.
pub open spec fn is_lively(f: Field, b: Board) -> bool {
    if f.pools.len() == 0 {
        &&& forall|k: int| 0 <= k < b.phase.len() ==> !(#[trigger] b.places.reserved[k])
        &&& forall|k: int| 0 <= k < b.phase.len() ==> #[trigger] b.phase[k] != Phase::Parked
        &&& forall|i: int|
            0 <= i < b.fresh.len() ==> b.phase[(#[trigger] b.fresh[i]) as int] != Phase::Absent
    } else {
        &&& b.plan is Some
        &&& is_sparing(f, b.plan->Some_0)
        &&& forall|k: int|
            0 <= k < b.phase.len() && #[trigger] b.places.reserved[k] ==> is_active(b.phase[k])
                && is_planned(f, b, k)
        &&& forall|k: int|
            0 <= k < b.phase.len() && #[trigger] b.phase[k] == Phase::Parked ==> is_planned(f, b, k)
        &&& forall|i: int|
            0 <= i < b.fresh.len() ==> (b.phase[(#[trigger] b.fresh[i]) as int] == Phase::Ready
                || !b.plan->Some_0[b.fresh[i] as int])
    }
}

/// Without limited pools no edge that a build needs has a limit.
proof fn lemma_no_limits(f: Field, b: Board, k: int)
    requires
        soundness::is_sound(f, b),
        f.pools.len() == 0,
        0 <= k < b.phase.len(),
        b.phase[k] != Phase::Absent,
    ensures
        board::limit_of(f, k as usize) is None,
{
    if let Some((pool, _)) = board::limit_of(f, k as usize) {
        assert(f.pools.contains(pool));
    }
}

/// Who gets a place when places are given.
proof fn lemma_who_gets_a_place(
    f: Field,
    dirty: Seq<bool>,
    ready: Seq<usize>,
    n: int,
    p: Places,
)
    requires
        0 <= n <= ready.len(),
        forall|i: int| 0 <= i < ready.len() ==> (#[trigger] ready[i]) < p.reserved.len(),
    ensures
        pools::with_places(f.m, f.windows, dirty, ready, n, p).reserved.len() == p.reserved.len(),
        forall|k: int|
            0 <= k < p.reserved.len() && !p.reserved[k] && #[trigger] pools::with_places(
                f.m,
                f.windows,
                dirty,
                ready,
                n,
                p,
            ).reserved[k] ==> ready.contains(k as usize) && dirty[k] && board::limit_of(
                f,
                k as usize,
            ) is Some,
    decreases n,
{
    if n > 0 {
        lemma_who_gets_a_place(f, dirty, ready, n - 1, p);
        let before = pools::with_places(f.m, f.windows, dirty, ready, n - 1, p);
        let after = pools::with_places(f.m, f.windows, dirty, ready, n, p);
        let last = ready[n - 1];
        assert(last < p.reserved.len());
        assert forall|k: int|
            0 <= k < p.reserved.len() && !p.reserved[k] && #[trigger] after.reserved[k] implies
            ready.contains(k as usize) && dirty[k] && board::limit_of(f, k as usize) is Some by {
            if k != last {
                assert(before.reserved[k]);
            } else if !before.reserved[k] {
                assert(ready[n - 1] == k as usize);
            }
        }
    }
}

proof fn lemma_reserved_is_lively(f: Field, b: Board)
    requires
        soundness::is_field(f),
        soundness::is_sound(f, b),
        is_lively(f, b),
        b.plan is Some,
    ensures
        is_lively(f, board::reserved(f, b)),
{
    let r = board::reserved(f, b);
    let dirty = b.plan->Some_0;
    lemma_who_gets_a_place(f, dirty, b.fresh, b.fresh.len() as int, b.places);
    assert forall|k: int|
        0 <= k < b.phase.len() && #[trigger] r.places.reserved[k] && !b.places.reserved[k] implies
        f.pools.len() > 0 && is_active(b.phase[k]) && dirty[k] by {
        let i = choose|i: int| 0 <= i < b.fresh.len() && b.fresh[i] == k as usize;
        if f.pools.len() == 0 {
            assert(b.phase[b.fresh[i] as int] != Phase::Absent);
            lemma_no_limits(f, b, k);
        } else {
            assert(b.phase[b.fresh[i] as int] == Phase::Ready || !dirty[b.fresh[i] as int]);
        }
    }
    if f.pools.len() == 0 {
        assert forall|k: int| 0 <= k < r.phase.len() implies !(#[trigger] r.places.reserved[k]) by {
            assert(!b.places.reserved[k]);
        }
    } else {
        assert forall|k: int| 0 <= k < r.phase.len() && #[trigger] r.places.reserved[k] implies
            is_active(r.phase[k]) && is_planned(f, r, k) by {
            assert(b.places.reserved[k] ==> is_active(b.phase[k]) && is_planned(f, b, k));
        }
        assert forall|k: int| 0 <= k < r.phase.len() && #[trigger] r.phase[k]
            == Phase::Parked implies is_planned(f, r, k) by {
            assert(b.phase[k] == Phase::Parked);
        }
    }
}

/// An edge that finishes, and has no place, leaves the places to those that can use
/// them.
proof fn lemma_finished_is_lively(f: Field, b: Board, k: usize, ok: bool)
    requires
        soundness::is_field(f),
        soundness::is_sound(f, b),
        is_lively(f, b),
        k < b.phase.len(),
        soundness::is_free(b.phase[k as int]),
        !b.places.reserved[k as int],
        b.fresh.len() == 0 || f.pools.len() == 0 || b.phase[k as int] != Phase::Ready
            || !b.plan->Some_0[k as int],
    ensures
        is_lively(f, board::finished(f, b, k, ok)),
{
    let r = board::finished(f, b, k, ok);
    let told = f.told[k as int];
    soundness::lemma_finished_phases(f, b, k, ok);
    soundness::lemma_woken(told, b.pending, told.len() as int);
    assert(told.take(told.len() as int) =~= told);
    assert forall|i: int| b.fresh.len() <= i < r.fresh.len() implies r.phase[(
    #[trigger] r.fresh[i]) as int] == Phase::Ready by {
        let new = board::woken(told, b.pending, told.len() as int);
        let d = new[i - b.fresh.len()];
        assert(new.contains(d));
        assert(told.contains(d) && b.pending[d as int] == 1);
        let x = choose|x: int| 0 <= x < told.len() && told[x] == d;
        soundness::lemma_told_is_blocked(f, b, k, x);
    }
    assert forall|j: int| 0 <= j < r.phase.len() && #[trigger] r.phase[j]
        == Phase::Parked implies b.phase[j] == Phase::Parked by {}
    if f.pools.len() == 0 {
        assert forall|i: int| 0 <= i < r.fresh.len() implies r.phase[(#[trigger] r.fresh[i]) as int]
            != Phase::Absent by {
            if i < b.fresh.len() {
                assert(b.phase[b.fresh[i] as int] != Phase::Absent);
                assert(b.fresh[i] < b.phase.len());
                if b.fresh[i] != k {
                    assert(r.phase[b.fresh[i] as int] == b.phase[b.fresh[i] as int]
                        || r.phase[b.fresh[i] as int] == Phase::Ready);
                }
            }
        }
        assert forall|j: int| 0 <= j < r.phase.len() implies !(#[trigger] r.places.reserved[j]) by {
            assert(!b.places.reserved[j]);
        }
        assert forall|j: int| 0 <= j < r.phase.len() implies #[trigger] r.phase[j]
            != Phase::Parked by {
            assert(b.phase[j] != Phase::Parked);
        }
    } else {
        assert forall|j: int| 0 <= j < r.phase.len() && #[trigger] r.places.reserved[j] implies
            is_active(r.phase[j]) && is_planned(f, r, j) by {
            assert(b.places.reserved[j]);
            assert(j != k);
            assert(r.phase[j] == b.phase[j] || r.phase[j] == Phase::Ready);
        }
        assert forall|j: int| 0 <= j < r.phase.len() && #[trigger] r.phase[j]
            == Phase::Parked implies is_planned(f, r, j) by {
            assert(b.phase[j] == Phase::Parked);
        }
        assert forall|i: int| 0 <= i < r.fresh.len() implies (r.phase[(
        #[trigger] r.fresh[i]) as int] == Phase::Ready || !r.plan->Some_0[r.fresh[i] as int]) by {
            if i < b.fresh.len() {
                let d = b.fresh[i];
                assert(d < b.phase.len());
                assert(b.phase[d as int] == Phase::Ready || !b.plan->Some_0[d as int]);
                if d != k {
                    assert(r.phase[d as int] == b.phase[d as int] || r.phase[d as int]
                        == Phase::Ready);
                }
            }
        }
    }
}

proof fn lemma_given_up_is_lively(f: Field, b: Board, k: usize, ok: bool)
    requires
        soundness::is_field(f),
        soundness::is_sound(f, b),
        is_lively(f, b),
        k < b.phase.len(),
        soundness::is_free(b.phase[k as int]),
        b.fresh.len() == 0 || f.pools.len() == 0 || b.phase[k as int] != Phase::Ready,
    ensures
        is_lively(f, board::finished(f, board::released(f, b, k), k, ok)),
{
    let r = board::released(f, b, k);
    soundness::lemma_places_are_sound(f, b, k);
    assert forall|j: int| 0 <= j < r.phase.len() && #[trigger] r.places.reserved[j] implies
        b.places.reserved[j] by {}
    if f.pools.len() == 0 {
        assert forall|j: int| 0 <= j < r.phase.len() implies !(#[trigger] r.places.reserved[j]) by {
            assert(!b.places.reserved[j]);
        }
        assert forall|j: int| 0 <= j < r.phase.len() implies #[trigger] r.phase[j]
            != Phase::Parked by {
            assert(b.phase[j] != Phase::Parked);
        }
    } else {
        assert forall|j: int| 0 <= j < r.phase.len() && #[trigger] r.phase[j]
            == Phase::Parked implies is_planned(f, r, j) by {
            assert(b.phase[j] == Phase::Parked);
        }
        assert forall|j: int| 0 <= j < r.phase.len() && #[trigger] r.places.reserved[j] implies
            is_active(r.phase[j]) && is_planned(f, r, j) by {
            assert(b.places.reserved[j]);
        }
    }
    lemma_finished_is_lively(f, r, k, ok);
}

proof fn lemma_cleared_is_lively(f: Field, b: Board, line: Seq<usize>)
    requires
        soundness::is_field(f),
        soundness::is_sound(f, b),
        soundness::is_line(b, line),
        is_lively(f, b),
        b.plan is Some,
        f.pools.len() > 0 ==> forall|i: int|
            0 <= i < line.len() ==> f.m.edges[(#[trigger] line[i]) as int].rule == "phony"@
                && !b.plan->Some_0[line[i] as int],
    ensures
        is_lively(f, board::cleared(f, b, line)),
        board::cleared(f, b, line).plan == b.plan,
    decreases board::remaining(b.phase, b.phase.len() as int),
{
    if line.len() > 0 {
        let k = line[0];
        soundness::lemma_next_line(f, b, line);
        assert(board::doing(b, Phase::Ready).contains(line[0]));
        if f.pools.len() > 0 {
            if b.places.reserved[k as int] {
                assert(is_planned(f, b, k as int));
            }
        }
        assert(!b.places.reserved[k as int]);
        lemma_finished_is_lively(f, b, k, true);
        let next = board::finished(f, b, k, true);
        let rest = soundness::next_line(f, b, line);
        if f.pools.len() > 0 {
            let new = board::doing(next, Phase::Ready).difference(board::doing(b, Phase::Ready));
            queue::lemma_set_below(new, next.phase.len());
            soundness::lemma_ordered(f.weights, new);
            let order = board::ordered(f.weights, new);
            soundness::lemma_idle(f, next, order);
            let more = board::idle(f, next, order);
            assert forall|i: int| 0 <= i < rest.len() implies f.m.edges[(
            #[trigger] rest[i]) as int].rule == "phony"@ && !next.plan->Some_0[rest[i] as int] by {
                if i < line.len() - 1 {
                    assert(rest[i] == line[i + 1]);
                } else {
                    let d = more[i - (line.len() - 1)];
                    assert(more.contains(d));
                    assert(order.contains(d) && board::is_idle(f, next, d));
                    assert(order.to_set().contains(d));
                    lemma_idle_is_unplanned(f, next, d);
                }
            }
        }
        lemma_cleared_is_lively(f, next, rest);
    }
}

proof fn lemma_idle_is_unplanned(f: Field, b: Board, k: usize)
    requires
        board::is_idle(f, b, k),
        b.plan is Some,
        is_sparing(f, b.plan->Some_0),
        k < f.m.edges.len(),
    ensures
        f.m.edges[k as int].rule == "phony"@,
        !b.plan->Some_0[k as int],
{
    if manifest::inputs_of(f.m.edges[k as int]).len() == 0 {
        assert(!b.plan->Some_0[(k as int)]);
    }
}

proof fn lemma_without_idle_is_lively(f: Field, b: Board)
    requires
        soundness::is_field(f),
        soundness::is_sound(f, b),
        is_lively(f, b),
        b.plan is Some,
    ensures
        is_lively(f, board::without_idle(f, b)),
        board::without_idle(f, b).plan == b.plan,
{
    soundness::lemma_without_idle_is_sound(f, b);
    soundness::lemma_few_are_doing(f, b, Phase::Ready, seq![]);
    soundness::lemma_ordered(f.weights, board::doing(b, Phase::Ready));
    let order = board::ordered(f.weights, board::doing(b, Phase::Ready));
    soundness::lemma_idle(f, b, order);
    let line = board::idle(f, b, order);
    if f.pools.len() > 0 {
        assert forall|i: int| 0 <= i < line.len() implies f.m.edges[(
        #[trigger] line[i]) as int].rule == "phony"@ && !b.plan->Some_0[line[i] as int] by {
            assert(line.contains(line[i]));
            assert(order.contains(line[i]));
            assert(order.to_set().contains(line[i]));
            lemma_idle_is_unplanned(f, b, line[i]);
        }
    }
    lemma_cleared_is_lively(f, b, line);
}

/// Whether edges wait for places only in pools that have no more room.
pub open spec fn wait_where_full(f: Field, b: Board) -> bool {
    forall|k: int|
        0 <= k < b.phase.len() && #[trigger] b.phase[k] == Phase::Parked ==> (board::limit_of(
            f,
            k as usize,
        ) matches Some((pool, limit)) ==> pools::held(b.places.usage, pool) >= limit)
}

/// Whether a pool is full where edges wait for a place in it.
pub open spec fn is_exhausted(f: Field, b: Board, pool: Seq<char>) -> bool {
    board::waiting(f, b, pool) == Set::<usize>::empty() || pools::held(b.places.usage, pool)
        >= pools::room(f.m, Some(pool), usize::MAX)
}

proof fn lemma_admitted_to_is_lively(f: Field, b: Board, pool: Seq<char>)
    requires
        soundness::is_field(f),
        soundness::is_sound(f, b),
        is_lively(f, b),
        b.fresh.len() == 0,
        f.pools.len() > 0,
    ensures
        is_lively(f, board::admitted_to(f, b, pool)),
        is_exhausted(f, board::admitted_to(f, b, pool), pool),
        forall|other: Seq<char>|
            other != pool && #[trigger] is_exhausted(f, b, other) ==> is_exhausted(
                f,
                board::admitted_to(f, b, pool),
                other,
            ),
        board::admitted_to(f, b, pool).fresh.len() == 0,
    decreases
            pools::room(f.m, Some(pool), usize::MAX) - pools::held(b.places.usage, pool),
{
    let r = board::admitted_to(f, b, pool);
    if board::waiting(f, b, pool) == Set::<usize>::empty() {
    } else if pools::held(b.places.usage, pool) < pools::room(f.m, Some(pool), usize::MAX) {
        soundness::lemma_let_in_is_sound(f, b, pool);
        let k = queue::first(f.weights, board::waiting(f, b, pool));
        let next = board::let_in(b, k, pool);
        assert(b.phase[k as int] == Phase::Parked);
        assert forall|j: int| 0 <= j < next.phase.len() && #[trigger] next.places.reserved[j] implies
            is_active(next.phase[j]) && is_planned(f, next, j) by {
            if j != k {
                assert(b.places.reserved[j]);
            } else {
                assert(is_planned(f, b, j));
            }
        }
        assert forall|j: int| 0 <= j < next.phase.len() && #[trigger] next.phase[j]
            == Phase::Parked implies is_planned(f, next, j) by {
            assert(b.phase[j] == Phase::Parked);
        }
        assert forall|other: Seq<char>|
            other != pool && #[trigger] is_exhausted(f, b, other) implies is_exhausted(
            f,
            next,
            other,
        ) by {
            assert(board::waiting(f, next, other) =~= board::waiting(f, b, other));
        }
        lemma_admitted_to_is_lively(f, next, pool);
        assert forall|other: Seq<char>|
            other != pool && #[trigger] is_exhausted(f, b, other) implies is_exhausted(
            f,
            r,
            other,
        ) by {
            assert(is_exhausted(f, next, other));
        }
    } else {
        assert(board::waiting(f, r, pool) =~= board::waiting(f, b, pool));
        assert forall|j: int| 0 <= j < r.phase.len() && #[trigger] r.places.reserved[j] implies
            is_active(r.phase[j]) && is_planned(f, r, j) by {
            assert(b.places.reserved[j]);
        }
        assert forall|j: int| 0 <= j < r.phase.len() && #[trigger] r.phase[j]
            == Phase::Parked implies is_planned(f, r, j) by {
            assert(b.phase[j] == Phase::Parked);
        }
        assert forall|other: Seq<char>|
            other != pool && #[trigger] is_exhausted(f, b, other) implies is_exhausted(
            f,
            r,
            other,
        ) by {
            assert(board::waiting(f, r, other) =~= board::waiting(f, b, other));
        }
    }
}

proof fn lemma_admitted_to_pools_is_lively(f: Field, b: Board, n: int)
    requires
        soundness::is_field(f),
        soundness::is_sound(f, b),
        is_lively(f, b),
        b.fresh.len() == 0,
        f.pools.len() > 0,
        0 <= n <= f.pools.len(),
    ensures
        is_lively(f, board::admitted_to_pools(f, b, n)),
        board::admitted_to_pools(f, b, n).fresh.len() == 0,
        forall|i: int|
            0 <= i < n ==> is_exhausted(
                f,
                board::admitted_to_pools(f, b, n),
                #[trigger] f.pools[i],
            ),
    decreases n,
{
    if n > 0 {
        lemma_admitted_to_pools_is_lively(f, b, n - 1);
        soundness::lemma_admitted_to_pools_is_sound(f, b, n - 1);
        let before = board::admitted_to_pools(f, b, n - 1);
        lemma_admitted_to_is_lively(f, before, f.pools[n - 1]);
        assert forall|i: int| 0 <= i < n implies is_exhausted(
            f,
            board::admitted_to_pools(f, b, n),
            #[trigger] f.pools[i],
        ) by {
            if i < n - 1 {
                assert(f.pools[i] != f.pools[n - 1]);
                assert(is_exhausted(f, before, f.pools[i]));
            }
        }
    }
}

proof fn lemma_admitted_is_lively(f: Field, b: Board)
    requires
        soundness::is_field(f),
        soundness::is_sound(f, b),
        is_lively(f, b),
        b.fresh.len() == 0,
        b.plan is Some,
    ensures
        is_lively(f, board::admitted(f, b)),
        wait_where_full(f, board::admitted(f, b)),
{
    let r = board::parked(f, b);
    let last = board::admitted(f, b);
    soundness::lemma_parked_is_sound(f, b);
    soundness::lemma_admitted_is_sound(f, b);
    if f.pools.len() == 0 {
        assert forall|j: int| 0 <= j < r.phase.len() implies #[trigger] r.phase[j] == b.phase[j] by {
            if b.phase[j] == Phase::Ready {
                lemma_no_limits(f, b, j);
            }
        }
        assert(r =~= b);
        assert forall|k: int| 0 <= k < last.phase.len() implies #[trigger] last.phase[k]
            != Phase::Parked by {
            assert(b.phase[k] != Phase::Parked);
        }
    } else {
        assert forall|j: int| 0 <= j < r.phase.len() && #[trigger] r.places.reserved[j] implies
            is_active(r.phase[j]) && is_planned(f, r, j) by {
            assert(b.places.reserved[j]);
        }
        assert forall|j: int| 0 <= j < r.phase.len() && #[trigger] r.phase[j]
            == Phase::Parked implies is_planned(f, r, j) by {
            if b.phase[j] == Phase::Parked {
                assert(is_planned(f, b, j));
            }
        }
        lemma_admitted_to_pools_is_lively(f, r, f.pools.len() as int);
        assert forall|k: int| 0 <= k < last.phase.len() && #[trigger] last.phase[k]
            == Phase::Parked implies (board::limit_of(f, k as usize) matches Some((pool, limit))
            ==> pools::held(last.places.usage, pool) >= limit) by {
            if let Some((pool, limit)) = board::limit_of(f, k as usize) {
                assert(last.phase[k] != Phase::Absent);
                assert(f.pools.contains(pool));
                let i = choose|i: int| 0 <= i < f.pools.len() && f.pools[i] == pool;
                assert(is_exhausted(f, last, f.pools[i]));
                assert(board::waiting(f, last, pool).contains(k as usize));
            }
        }
    }
}

proof fn lemma_other_phase_is_lively(f: Field, b: Board, k: usize, phase: Phase)
    requires
        soundness::is_sound(f, b),
        is_lively(f, b),
        k < b.phase.len(),
        is_active(b.phase[k as int]),
        is_active(phase) || (phase == Phase::Parked && !b.places.reserved[k as int]
            && f.pools.len() > 0 && is_planned(f, b, k as int)),
        b.fresh.len() == 0 || f.pools.len() == 0 || phase == Phase::Ready || b.phase[k as int]
            != Phase::Ready,
    ensures
        is_lively(f, board::with_phase(b, k, phase)),
{
    let r = board::with_phase(b, k, phase);
    if f.pools.len() == 0 {
        assert forall|j: int| 0 <= j < r.phase.len() implies !(#[trigger] r.places.reserved[j]) by {
            assert(!b.places.reserved[j]);
        }
        assert forall|j: int| 0 <= j < r.phase.len() implies #[trigger] r.phase[j]
            != Phase::Parked by {
            assert(b.phase[j] != Phase::Parked);
        }
        assert forall|i: int| 0 <= i < r.fresh.len() implies r.phase[(#[trigger] r.fresh[i]) as int]
            != Phase::Absent by {
            assert(b.fresh[i] < b.phase.len());
            assert(b.phase[b.fresh[i] as int] != Phase::Absent);
        }
    } else {
        assert forall|j: int| 0 <= j < r.phase.len() && #[trigger] r.places.reserved[j] implies
            is_active(r.phase[j]) && is_planned(f, r, j) by {
            assert(b.places.reserved[j]);
        }
        assert forall|j: int| 0 <= j < r.phase.len() && #[trigger] r.phase[j]
            == Phase::Parked implies is_planned(f, r, j) by {
            if j != k {
                assert(b.phase[j] == Phase::Parked);
            }
        }
        assert forall|i: int| 0 <= i < r.fresh.len() implies (r.phase[(
        #[trigger] r.fresh[i]) as int] == Phase::Ready || !r.plan->Some_0[r.fresh[i] as int]) by {
            assert(b.fresh[i] < b.phase.len());
            assert(b.phase[b.fresh[i] as int] == Phase::Ready
                || !b.plan->Some_0[b.fresh[i] as int]);
        }
    }
}

/// Whether a round in which nothing has been done, while nothing runs, still has all
/// ready edges before it, and edges wait for places only where there is no room.
pub open spec fn is_going(f: Field, c: Course) -> bool {
    let b = c.board;
    &&& soundness::is_sound(f, b)
    &&& pool_laws::is_fair(f, b)
    &&& is_lively(f, b)
    &&& c.control.running == board::running(b.phase, b.phase.len() as int)
    &&& !c.control.top && !c.control.moved && c.control.running == 0 && !c.control.stopped ==> {
        &&& board::doing(b, Phase::Ready).len() <= c.control.left
        &&& board::remaining(b.phase, b.phase.len() as int) > 0
        &&& wait_where_full(f, b)
        &&& b.plan is Some ==> b.fresh.len() == 0
    }
}

/// Whether no edge is being looked at.
pub open spec fn is_answered(b: Board) -> bool {
    forall|k: int| 0 <= k < b.phase.len() ==> #[trigger] b.phase[k] != Phase::Held
}

proof fn lemma_no_runner(phase: Seq<Phase>, n: int, k: int)
    requires
        board::running(phase, n) == 0,
        0 <= k < n <= phase.len(),
    ensures
        phase[k] != Phase::Running,
    decreases n,
{
    if k < n - 1 {
        lemma_no_runner(phase, n - 1, k);
    }
}

proof fn lemma_a_holder(f: Field, reserved: Seq<bool>, pool: Seq<char>, n: int)
    requires
        pool_laws::holders(f, reserved, pool, n) > 0,
    ensures
        exists|k: int| 0 <= k < n && #[trigger] reserved[k],
    decreases n,
{
    if n > 0 && !reserved[n - 1] {
        lemma_a_holder(f, reserved, pool, n - 1);
    }
}

/// While edges have not finished and nothing is looked at or runs, an edge is ready.
proof fn lemma_an_edge_is_ready(f: Field, g: GraphView, list: Seq<usize>, b: Board)
    requires
        soundness::is_field(f),
        soundness::is_sound(f, b),
        pool_laws::is_fair(f, b),
        is_lively(f, b),
        wait_where_full(f, b),
        is_answered(b),
        board::running(b.phase, b.phase.len() as int) == 0,
        board::remaining(b.phase, b.phase.len() as int) > 0,
        closure::is_settled(g, list),
        f.m.edges == g.edges,
        links::all_told(g, list, f.told),
        forall|k: usize|
            k < b.phase.len() ==> (#[trigger] b.phase[k as int] == Phase::Absent
                <==> !list.contains(k)),
    ensures
        board::doing(b, Phase::Ready) != Set::<usize>::empty(),
{
    let n = b.phase.len() as int;
    scheduler_laws::law_something_can_be_done(f, g, list, b);
    let k = choose|k: int| 0 <= k < n && soundness::is_free(#[trigger] b.phase[k]);
    lemma_no_runner(b.phase, n, k);
    assert(b.phase[k] != Phase::Held);
    let j = if b.phase[k] == Phase::Parked {
        assert(board::limit_of(f, k as usize) is Some);
        let (pool, limit) = board::limit_of(f, k as usize)->Some_0;
        assert(limit > 0);
        assert(pools::held(b.places.usage, pool) == pool_laws::holders(
            f,
            b.places.reserved,
            pool,
            n,
        ));
        lemma_a_holder(f, b.places.reserved, pool, n);
        let j = choose|j: int| 0 <= j < n && #[trigger] b.places.reserved[j];
        assert(is_active(b.phase[j])) by {
            if f.pools.len() == 0 {
                assert(!b.places.reserved[j]);
            }
        }
        lemma_no_runner(b.phase, n, j);
        assert(b.phase[j] != Phase::Held);
        j
    } else {
        k
    };
    assert(board::doing(b, Phase::Ready).contains(j as usize));
}

/// A build that goes on in order is never stuck.
pub proof fn law_build_is_not_stuck(
    f: Field,
    limits: Limits,
    c: Course,
    g: GraphView,
    list: Seq<usize>,
)
    requires
        soundness::is_field(f),
        is_going(f, c),
        is_answered(c.board),
        closure::is_settled(g, list),
        f.m.edges == g.edges,
        links::all_told(g, list, f.told),
        forall|k: usize|
            k < c.board.phase.len() ==> (#[trigger] c.board.phase[k as int] == Phase::Absent
                <==> !list.contains(k)),
    ensures
        board::next(f, limits, c).1 != Step::Stuck,
{
    let b = c.board;
    if board::next(f, limits, c).1 == Step::Stuck {
        let n = b.phase.len() as int;
        if c.control.left == 0 {
            lemma_an_edge_is_ready(f, g, list, b);
            soundness::lemma_few_are_doing(f, b, Phase::Ready, seq![]);
            assert(board::doing(b, Phase::Ready) =~= Set::<usize>::empty());
        } else {
            let after = scheduler_laws::board_before_taking(f, b);
            lemma_before_taking_is_lively(f, c);
            scheduler_laws::lemma_before_taking(f, c);
            soundness::lemma_remaining_same(b.phase, after.phase, n);
            assert forall|k: int| 0 <= k < n implies #[trigger] after.phase[k] != Phase::Held by {
                assert(b.phase[k] != Phase::Held);
            }
            assert forall|k: int| 0 <= k < n implies (#[trigger] after.phase[k] == Phase::Running
                <==> b.phase[k] == Phase::Running) by {}
            assert forall|k: usize| k < n implies (#[trigger] after.phase[k as int] == Phase::Absent
                <==> !list.contains(k)) by {
                assert(b.phase[k as int] == Phase::Absent <==> !list.contains(k));
            }
            lemma_an_edge_is_ready(f, g, list, after);
        }
    }
}

proof fn lemma_before_taking_is_lively(f: Field, c: Course)
    requires
        soundness::is_field(f),
        is_going(f, c),
    ensures
        ({
            let after = scheduler_laws::board_before_taking(f, c.board);
            &&& is_lively(f, after)
            &&& pool_laws::is_fair(f, after)
            &&& c.board.plan is Some ==> after.fresh.len() == 0
            &&& wait_where_full(f, c.board) ==> wait_where_full(f, after)
        }),
{
    let b = c.board;
    if b.plan is Some && b.fresh.len() > 0 {
        soundness::lemma_places_are_sound(f, b, 0);
        lemma_reserved_is_lively(f, b);
        pool_laws::lemma_reserved_is_fair(f, b);
        soundness::lemma_admitted_is_sound(f, board::reserved(f, b));
        lemma_admitted_is_lively(f, board::reserved(f, b));
        pool_laws::lemma_admitted_is_fair(f, board::reserved(f, b));
    }
}

proof fn lemma_taken_is_going(f: Field, c: Course, after: Board)
    requires
        soundness::is_field(f),
        is_going(f, c),
        !c.control.top,
        c.control.left > 0,
        after == scheduler_laws::board_before_taking(f, c.board),
        soundness::is_sound(f, after),
        is_lively(f, after),
        c.control.running == board::running(after.phase, after.phase.len() as int),
        c.board.plan is Some ==> after.fresh.len() == 0,
        after.plan == c.board.plan,
    ensures
        ({
            let r = board::taken(f, Course { board: after, ..c }).0;
            &&& is_lively(f, r.board)
            &&& r.control.running == board::running(r.board.phase, r.board.phase.len() as int)
            &&& !r.control.top && !r.control.moved && r.control.running == 0 && !r.control.stopped
                ==> {
                &&& board::doing(r.board, Phase::Ready).len() <= r.control.left
                &&& board::remaining(r.board.phase, r.board.phase.len() as int) > 0
                &&& wait_where_full(f, r.board)
                &&& r.board.plan is Some ==> r.board.fresh.len() == 0
            }
        }),
{
    let n = after.phase.len() as int;
    let ready = board::doing(after, Phase::Ready);
    let r = board::taken(f, Course { board: after, ..c }).0;
    if ready != Set::<usize>::empty() {
        soundness::lemma_few_are_doing(f, after, Phase::Ready, seq![]);
        queue::lemma_first_exists(f.weights, ready);
        let k = queue::first(f.weights, ready);
        assert(ready.contains(k));
        if after.failed[k as int] {
            lemma_given_up_is_lively(f, after, k, false);
            soundness::lemma_places_are_sound(f, after, k);
            soundness::lemma_finished_is_sound(f, board::released(f, after, k), k, false);
        } else {
            lemma_other_phase_is_lively(f, after, k, Phase::Held);
            soundness::lemma_remaining_same(after.phase, r.board.phase, n);
            assert(board::doing(r.board, Phase::Ready) =~= ready.remove(k));
            if wait_where_full(f, after) {
                assert forall|j: int| 0 <= j < n && #[trigger] r.board.phase[j]
                    == Phase::Parked implies (board::limit_of(f, j as usize) matches Some(
                    (pool, limit),
                ) ==> pools::held(r.board.places.usage, pool) >= limit) by {
                    assert(after.phase[j] == Phase::Parked);
                }
            }
        }
    }
}

/// A build goes on in order, whatever it does next.
pub proof fn law_steps_keep_a_build_going(f: Field, limits: Limits, c: Course)
    requires
        soundness::is_field(f),
        is_going(f, c),
    ensures
        is_going(f, board::next(f, limits, c).0),
{
    let b = c.board;
    let n = b.phase.len() as int;
    scheduler_laws::law_steps_keep_a_build_sound(f, limits, c);
    pool_laws::law_steps_keep_a_build_fair(f, limits, c);
    if c.control.top {
        if board::remaining(b.phase, n) > 0 {
            let after = board::begun(f, b);
            if b.plan is Some {
                let first = board::reserved(f, b);
                soundness::lemma_places_are_sound(f, b, 0);
                lemma_reserved_is_lively(f, b);
                soundness::lemma_without_idle_is_sound(f, first);
                lemma_without_idle_is_lively(f, first);
                let idle = board::without_idle(f, first);
                soundness::lemma_places_are_sound(f, idle, 0);
                lemma_reserved_is_lively(f, idle);
                soundness::lemma_admitted_is_sound(f, board::reserved(f, idle));
                lemma_admitted_is_lively(f, board::reserved(f, idle));
            } else {
                assert(f.pools.len() == 0);
                assert forall|k: int| 0 <= k < n && #[trigger] b.phase[k]
                    == Phase::Parked implies false by {}
            }
            soundness::lemma_few_are_doing(f, after, Phase::Ready, seq![]);
        }
    } else if c.control.left > 0 {
        let after = scheduler_laws::board_before_taking(f, b);
        lemma_before_taking_is_lively(f, c);
        scheduler_laws::lemma_before_taking(f, c);
        soundness::lemma_remaining_same(b.phase, after.phase, n);
        assert forall|k: int| 0 <= k < n implies (#[trigger] after.phase[k] == Phase::Running
            <==> b.phase[k] == Phase::Running) by {}
        lemma_taken_is_going(f, c, after);
    }
}

/// A build goes on in order, whatever becomes of an edge that was looked at. Only
/// edges that are not phony must run.
pub proof fn law_examined_edges_keep_a_build_going(f: Field, limits: Limits, c: Course, k: usize)
    requires
        soundness::is_field(f),
        is_going(f, c),
        c.board.fresh.len() == 0 || f.pools.len() == 0,
        k < c.board.phase.len(),
        c.board.phase[k as int] == Phase::Held,
    ensures
        is_going(f, board::found_clean(f, c, k)),
        c.board.plan is Some && f.m.edges[k as int].rule != "phony"@ ==> is_going(
            f,
            board::found_dirty(f, limits, c, k).0,
        ),
        board::found_dirty(f, limits, c, k).1 == Offer::Start && c.board.phase.len() <= usize::MAX
            ==> is_going(f, board::started(limits, c, k)),
        c.control.running > 0 ==> is_going(f, board::put_back(c, k)),
{
    let b = c.board;
    let n = b.phase.len() as int;
    scheduler_laws::law_events_keep_a_build_sound(f, limits, c, k, true);
    pool_laws::law_events_keep_a_build_fair(f, limits, c, k, true);
    soundness::lemma_places_are_sound(f, b, k);
    soundness::lemma_finished_is_sound(f, board::released(f, b, k), k, true);
    lemma_given_up_is_lively(f, b, k, true);
    lemma_other_phase_is_lively(f, b, k, Phase::Ready);
    lemma_other_phase_is_lively(f, b, k, Phase::Running);
    let back = board::with_phase(b, k, Phase::Ready);
    soundness::lemma_remaining_same(b.phase, back.phase, n);
    scheduler::lemma_one_more_runs(b.phase, k as int, n);
    let runs = board::with_phase(b, k, Phase::Running);
    soundness::lemma_remaining_bound(runs.phase, n);
    if b.plan is Some && f.m.edges[k as int].rule != "phony"@ && board::limit_of(f, k) is Some
        && !b.places.reserved[k as int] {
        lemma_no_limits_or_pools(f, b, k as int);
        let waits = board::with_phase(b, k, Phase::Parked);
        lemma_other_phase_is_lively(f, b, k, Phase::Parked);
        scheduler_laws::lemma_other_phase_is_sound(f, b, k, Phase::Parked);
        soundness::lemma_remaining_same(b.phase, waits.phase, n);
        soundness::lemma_admitted_is_sound(f, waits);
        lemma_admitted_is_lively(f, waits);
    }
}

proof fn lemma_no_limits_or_pools(f: Field, b: Board, k: int)
    requires
        soundness::is_sound(f, b),
        0 <= k < b.phase.len(),
        b.phase[k] != Phase::Absent,
        board::limit_of(f, k as usize) is Some,
    ensures
        f.pools.len() > 0,
{
    if f.pools.len() == 0 {
        lemma_no_limits(f, b, k);
    }
}

/// A build goes on in order when a command that it has waited for ends.
pub proof fn law_ended_commands_keep_a_build_going(
    f: Field,
    limits: Limits,
    c: Course,
    k: usize,
    ok: bool,
)
    requires
        soundness::is_field(f),
        is_going(f, c),
        c.control.top,
        k < c.board.phase.len(),
        c.board.phase[k as int] == Phase::Running,
    ensures
        is_going(f, board::ended(f, limits, c, k, ok)),
{
    let b = c.board;
    scheduler_laws::law_events_keep_a_build_sound(f, limits, c, k, ok);
    pool_laws::lemma_given_up_is_fair(f, b, k, ok);
    soundness::lemma_places_are_sound(f, b, k);
    soundness::lemma_finished_is_sound(f, board::released(f, b, k), k, ok);
    lemma_given_up_is_lively(f, b, k, ok);
}

/// A build that has just begun goes on in order, with a plan where pools have limits.
pub proof fn law_fresh_build_is_going(
    f: Field,
    list: Seq<usize>,
    pending: Seq<usize>,
    plan: Option<Seq<bool>>,
)
    requires
        soundness::is_field(f),
        soundness::is_sound(f, (Board { plan, ..scheduler::empty_board(list, pending) })),
        plan matches Some(plan) ==> is_sparing(f, plan),
        f.pools.len() > 0 ==> plan is Some,
    ensures
        is_going(
            f,
            (Course {
                board: Board { plan, ..scheduler::empty_board(list, pending) },
                control: scheduler::first_control(),
            }),
        ),
{
    let b = Board { plan, ..scheduler::empty_board(list, pending) };
    let n = b.phase.len() as int;
    assert forall|pool: Seq<char>| #[trigger]
        pools::held(b.places.usage, pool) == pool_laws::holders(f, b.places.reserved, pool, n) by {
        lemma_no_holders(f, b.places.reserved, pool, n);
    }
    lemma_none_runs(b.phase, n);
}

proof fn lemma_no_holders(f: Field, reserved: Seq<bool>, pool: Seq<char>, n: int)
    requires
        0 <= n <= reserved.len(),
        forall|k: int| 0 <= k < reserved.len() ==> !(#[trigger] reserved[k]),
    ensures
        pool_laws::holders(f, reserved, pool, n) == 0,
    decreases n,
{
    if n > 0 {
        lemma_no_holders(f, reserved, pool, n - 1);
    }
}

proof fn lemma_none_runs(phase: Seq<Phase>, n: int)
    requires
        0 <= n <= phase.len(),
        forall|k: int| 0 <= k < phase.len() ==> #[trigger] phase[k] != Phase::Running,
    ensures
        board::running(phase, n) == 0,
    decreases n,
{
    if n > 0 {
        lemma_none_runs(phase, n - 1);
    }
}

} // verus!
