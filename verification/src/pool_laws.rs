//! However a build goes, no more edges of a pool run at a time than it has room for.
use crate::board;
use crate::board::Board;
use crate::board::Course;
use crate::board::Field;
use crate::board::Limits;
use crate::board::Offer;
use crate::board::Phase;
use crate::pools;
use crate::pools::Places;
use crate::queue;
use crate::scheduler_laws;
use crate::soundness;
use vstd::prelude::*;

verus! {

/// Whether edge `k` is in a limited pool.
pub open spec fn is_in(f: Field, k: usize, pool: Seq<char>) -> bool {
    board::limit_of(f, k) matches Some((own, _)) && own == pool
}

/// How many of the first `n` edges hold a place in a pool.
pub open spec fn holders(f: Field, reserved: Seq<bool>, pool: Seq<char>, n: int) -> nat
    decreases n,
{
    if n <= 0 {
        0
    } else {
        holders(f, reserved, pool, n - 1) + (if reserved[n - 1] && is_in(f, (n - 1) as usize, pool) {
            1nat
        } else {
            0
        })
    }
}

/// How many of the first `n` edges run and are in a pool.
pub open spec fn runners(f: Field, phase: Seq<Phase>, pool: Seq<char>, n: int) -> nat
    decreases n,
{
    if n <= 0 {
        0
    } else {
        runners(f, phase, pool, n - 1) + (if phase[n - 1] == Phase::Running && is_in(
            f,
            (n - 1) as usize,
            pool,
        ) {
            1nat
        } else {
            0
        })
    }
}

/// Whether the places of pools are counted, no pool has more than it has room for, and
/// edges of limited pools run only with a place.
pub open spec fn is_fair(f: Field, b: Board) -> bool {
    &&& forall|pool: Seq<char>| #[trigger]
        pools::held(b.places.usage, pool) == holders(
            f,
            b.places.reserved,
            pool,
            b.places.reserved.len() as int,
        )
    &&& pools::are_within_room(f.m, b.places.usage)
    &&& forall|k: int|
        0 <= k < b.phase.len() && #[trigger] b.phase[k] == Phase::Running && board::limit_of(
            f,
            k as usize,
        ) is Some ==> b.places.reserved[k]
    &&& forall|k: int|
        0 <= k < b.phase.len() && #[trigger] b.phase[k] == Phase::Parked ==> !b.places.reserved[k]
    &&& forall|i: int|
        0 <= i < b.fresh.len() ==> b.phase[(#[trigger] b.fresh[i]) as int] != Phase::Parked
}

proof fn lemma_holders_change(f: Field, before: Seq<bool>, k: int, to: bool, pool: Seq<char>, n: int)
    requires
        0 <= k < before.len(),
        0 <= n <= before.len(),
        before.len() <= usize::MAX,
        before[k] != to,
    ensures
        k < n && is_in(f, k as usize, pool) ==> holders(f, before.update(k, to), pool, n)
            == holders(f, before, pool, n) + (if to {
            1int
        } else {
            -1
        }),
        !(k < n && is_in(f, k as usize, pool)) ==> holders(f, before.update(k, to), pool, n)
            == holders(f, before, pool, n),
    decreases n,
{
    if n > 0 {
        lemma_holders_change(f, before, k, to, pool, n - 1);
    }
}

/// No more edges of a pool run than hold a place in it, and no more hold a place than
/// the pool has room for.
pub proof fn law_pools_run_within_their_room(f: Field, b: Board, pool: Seq<char>)
    requires
        soundness::is_field(f),
        soundness::is_sound(f, b),
        is_fair(f, b),
    ensures
        runners(f, b.phase, pool, b.phase.len() as int) <= pools::room(
            f.m,
            Some(pool),
            usize::MAX,
        ),
{
    let n = b.phase.len() as int;
    lemma_runners_hold(f, b, pool, n);
    assert(pools::held(b.places.usage, pool) == holders(f, b.places.reserved, pool, n));
}

proof fn lemma_runners_hold(f: Field, b: Board, pool: Seq<char>, n: int)
    requires
        is_fair(f, b),
        0 <= n <= b.phase.len(),
        b.phase.len() <= usize::MAX,
    ensures
        runners(f, b.phase, pool, n) <= holders(f, b.places.reserved, pool, n),
    decreases n,
{
    if n > 0 {
        lemma_runners_hold(f, b, pool, n - 1);
        if b.phase[n - 1] == Phase::Running && is_in(f, (n - 1) as usize, pool) {
            assert(b.places.reserved[n - 1]);
        }
    }
}

/// What counts as counted, and as within room, of places alone.
spec fn are_counted(f: Field, p: Places) -> bool {
    &&& forall|pool: Seq<char>| #[trigger]
        pools::held(p.usage, pool) == holders(f, p.reserved, pool, p.reserved.len() as int)
    &&& pools::are_within_room(f.m, p.usage)
}

proof fn lemma_place_is_counted(f: Field, dirty: Seq<bool>, k: usize, p: Places)
    requires
        are_counted(f, p),
        k < p.reserved.len() <= usize::MAX,
        p.reserved.len() == f.m.edges.len(),
    ensures
        are_counted(f, pools::with_place(f.m, f.windows, dirty, k, p)),
{
    let r = pools::with_place(f.m, f.windows, dirty, k, p);
    let n = p.reserved.len() as int;
    assert forall|pool: Seq<char>| #[trigger]
        pools::held(r.usage, pool) == holders(f, r.reserved, pool, n) by {
        assert(pools::held(p.usage, pool) == holders(f, p.reserved, pool, n));
        if r.reserved[k as int] != p.reserved[k as int] {
            lemma_holders_change(f, p.reserved, k as int, true, pool, n);
        }
    }
}

proof fn lemma_places_are_counted(
    f: Field,
    dirty: Seq<bool>,
    ready: Seq<usize>,
    n: int,
    p: Places,
)
    requires
        are_counted(f, p),
        0 <= n <= ready.len(),
        p.reserved.len() <= usize::MAX,
        p.reserved.len() == f.m.edges.len(),
        forall|i: int| 0 <= i < ready.len() ==> (#[trigger] ready[i]) < p.reserved.len(),
    ensures
        are_counted(f, pools::with_places(f.m, f.windows, dirty, ready, n, p)),
        forall|k: int|
            0 <= k < p.reserved.len() && !p.reserved[k] && #[trigger] pools::with_places(
                f.m,
                f.windows,
                dirty,
                ready,
                n,
                p,
            ).reserved[k] ==> ready.contains(k as usize),
        forall|k: int|
            0 <= k < p.reserved.len() && p.reserved[k] ==> #[trigger] pools::with_places(
                f.m,
                f.windows,
                dirty,
                ready,
                n,
                p,
            ).reserved[k],
    decreases n,
{
    if n > 0 {
        lemma_places_are_counted(f, dirty, ready, n - 1, p);
        soundness::lemma_with_places_len(f, dirty, ready, n - 1, p);
        let before = pools::with_places(f.m, f.windows, dirty, ready, n - 1, p);
        let k = ready[n - 1];
        assert(k < p.reserved.len());
        lemma_place_is_counted(f, dirty, k, before);
        let after = pools::with_places(f.m, f.windows, dirty, ready, n, p);
        assert forall|j: int|
            0 <= j < p.reserved.len() && !p.reserved[j] && #[trigger] after.reserved[j] implies
            ready.contains(j as usize) by {
            if j != k {
                assert(before.reserved[j]);
            }
        }
        assert forall|j: int| 0 <= j < p.reserved.len() && p.reserved[j] implies
            #[trigger] after.reserved[j] by {
            assert(before.reserved[j]);
        }
    }
}

pub proof fn lemma_reserved_is_fair(f: Field, b: Board)
    requires
        soundness::is_field(f),
        soundness::is_sound(f, b),
        is_fair(f, b),
    ensures
        is_fair(f, board::reserved(f, b)),
{
    let dirty = b.plan->Some_0;
    let n = b.fresh.len() as int;
    assert(are_counted(f, b.places));
    lemma_places_are_counted(f, dirty, b.fresh, n, b.places);
    soundness::lemma_with_places_len(f, dirty, b.fresh, n, b.places);
    let r = board::reserved(f, b);
    assert(are_counted(f, r.places));
    assert forall|k: int| 0 <= k < r.phase.len() && #[trigger] r.phase[k] == Phase::Parked implies
        !r.places.reserved[k] by {
        assert(b.phase[k] == Phase::Parked);
        if r.places.reserved[k] {
            assert(b.fresh.contains(k as usize));
            let i = choose|i: int| 0 <= i < b.fresh.len() && b.fresh[i] == k as usize;
            assert(b.phase[b.fresh[i] as int] != Phase::Parked);
        }
    }
    assert forall|k: int|
        0 <= k < r.phase.len() && #[trigger] r.phase[k] == Phase::Running && board::limit_of(
            f,
            k as usize,
        ) is Some implies r.places.reserved[k] by {
        assert(b.phase[k] == Phase::Running);
        assert(b.places.reserved[k]);
    }
}

proof fn lemma_finished_is_fair(f: Field, b: Board, k: usize, ok: bool)
    requires
        soundness::is_field(f),
        soundness::is_sound(f, b),
        is_fair(f, b),
        k < b.phase.len(),
        soundness::is_free(b.phase[k as int]),
    ensures
        is_fair(f, board::finished(f, b, k, ok)),
{
    let r = board::finished(f, b, k, ok);
    let told = f.told[k as int];
    soundness::lemma_finished_phases(f, b, k, ok);
    assert forall|j: int| 0 <= j < r.phase.len() && #[trigger] r.phase[j] == Phase::Parked implies
        !r.places.reserved[j] by {
        assert(b.phase[j] == Phase::Parked);
    }
    assert forall|j: int|
        0 <= j < r.phase.len() && #[trigger] r.phase[j] == Phase::Running && board::limit_of(
            f,
            j as usize,
        ) is Some implies r.places.reserved[j] by {
        assert(b.phase[j] == Phase::Running);
    }
    soundness::lemma_woken(told, b.pending, told.len() as int);
    assert(told.take(told.len() as int) =~= told);
    assert forall|i: int| 0 <= i < r.fresh.len() implies r.phase[(#[trigger] r.fresh[i]) as int]
        != Phase::Parked by {
        if i < b.fresh.len() {
            let d = b.fresh[i];
            assert(b.phase[d as int] != Phase::Parked);
            assert(d < b.phase.len());
            if d != k {
                assert(r.phase[d as int] == b.phase[d as int] || r.phase[d as int]
                    == Phase::Ready);
            }
        } else {
            let new = board::woken(told, b.pending, told.len() as int);
            let d = new[i - b.fresh.len()];
            assert(new.contains(d));
            assert(told.contains(d));
            let x = choose|x: int| 0 <= x < told.len() && told[x] == d;
            soundness::lemma_told_is_blocked(f, b, k, x);
        }
    }
}

/// Giving up a place when finishing keeps a build fair.
pub proof fn lemma_given_up_is_fair(f: Field, b: Board, k: usize, ok: bool)
    requires
        soundness::is_field(f),
        soundness::is_sound(f, b),
        is_fair(f, b),
        k < b.phase.len(),
        soundness::is_free(b.phase[k as int]),
    ensures
        is_fair(f, board::finished(f, board::released(f, b, k), k, ok)),
{
    let n = b.phase.len() as int;
    lemma_finished_is_fair(f, b, k, ok);
    let plain = board::finished(f, b, k, ok);
    let r = board::finished(f, board::released(f, b, k), k, ok);
    assert(r.phase =~= plain.phase);
    assert(r.fresh =~= plain.fresh);
    assert forall|pool: Seq<char>| #[trigger]
        pools::held(r.places.usage, pool) == holders(f, r.places.reserved, pool, n) by {
        assert(pools::held(b.places.usage, pool) == holders(f, b.places.reserved, pool, n));
        if b.places.reserved[k as int] {
            lemma_holders_change(f, b.places.reserved, k as int, false, pool, n);
        }
    }
    assert forall|j: int|
        0 <= j < n && #[trigger] r.phase[j] == Phase::Running && board::limit_of(f, j as usize)
            is Some implies r.places.reserved[j] by {
        assert(plain.phase[j] == Phase::Running);
        assert(j != k);
    }
    assert forall|j: int| 0 <= j < n && #[trigger] r.phase[j] == Phase::Parked implies
        !r.places.reserved[j] by {
        assert(plain.phase[j] == Phase::Parked);
    }
    assert forall|i: int| 0 <= i < r.fresh.len() implies r.phase[(#[trigger] r.fresh[i]) as int]
        != Phase::Parked by {
        assert(plain.phase[plain.fresh[i] as int] != Phase::Parked);
    }
}

proof fn lemma_let_in_is_fair(f: Field, b: Board, pool: Seq<char>)
    requires
        soundness::is_field(f),
        soundness::is_sound(f, b),
        is_fair(f, b),
        board::waiting(f, b, pool) != Set::<usize>::empty(),
        pools::held(b.places.usage, pool) < pools::room(f.m, Some(pool), usize::MAX),
    ensures
        is_fair(
            f,
            board::let_in(b, queue::first(f.weights, board::waiting(f, b, pool)), pool),
        ),
{
    soundness::lemma_let_in_is_sound(f, b, pool);
    let k = queue::first(f.weights, board::waiting(f, b, pool));
    let r = board::let_in(b, k, pool);
    let n = b.phase.len() as int;
    assert(b.phase[k as int] == Phase::Parked);
    assert(!b.places.reserved[k as int]);
    assert forall|other: Seq<char>| #[trigger]
        pools::held(r.places.usage, other) == holders(f, r.places.reserved, other, n) by {
        assert(pools::held(b.places.usage, other) == holders(f, b.places.reserved, other, n));
        lemma_holders_change(f, b.places.reserved, k as int, true, other, n);
    }
    assert forall|j: int| 0 <= j < n && #[trigger] r.phase[j] == Phase::Parked implies
        !r.places.reserved[j] by {
        assert(b.phase[j] == Phase::Parked);
    }
    assert forall|j: int|
        0 <= j < n && #[trigger] r.phase[j] == Phase::Running && board::limit_of(f, j as usize)
            is Some implies r.places.reserved[j] by {
        assert(b.phase[j] == Phase::Running);
    }
    assert forall|i: int| 0 <= i < r.fresh.len() implies r.phase[(#[trigger] r.fresh[i]) as int]
        != Phase::Parked by {
        assert(b.phase[b.fresh[i] as int] != Phase::Parked);
    }
}

proof fn lemma_admitted_to_is_fair(f: Field, b: Board, pool: Seq<char>)
    requires
        soundness::is_field(f),
        soundness::is_sound(f, b),
        is_fair(f, b),
    ensures
        is_fair(f, board::admitted_to(f, b, pool)),
    decreases
            pools::room(f.m, Some(pool), usize::MAX) - pools::held(b.places.usage, pool),
{
    if board::waiting(f, b, pool) == Set::<usize>::empty() {
    } else if pools::held(b.places.usage, pool) < pools::room(f.m, Some(pool), usize::MAX) {
        lemma_let_in_is_fair(f, b, pool);
        soundness::lemma_let_in_is_sound(f, b, pool);
        let k = queue::first(f.weights, board::waiting(f, b, pool));
        lemma_admitted_to_is_fair(f, board::let_in(b, k, pool), pool);
    } else {
        let r = board::admitted_to(f, b, pool);
        assert forall|other: Seq<char>| #[trigger]
            pools::held(r.places.usage, other) == holders(
                f,
                r.places.reserved,
                other,
                r.places.reserved.len() as int,
            ) by {
            assert(pools::held(b.places.usage, other) == holders(
                f,
                b.places.reserved,
                other,
                b.places.reserved.len() as int,
            ));
        }
    }
}

proof fn lemma_admitted_to_pools_is_fair(f: Field, b: Board, n: int)
    requires
        soundness::is_field(f),
        soundness::is_sound(f, b),
        is_fair(f, b),
        0 <= n <= f.pools.len(),
    ensures
        is_fair(f, board::admitted_to_pools(f, b, n)),
    decreases n,
{
    if n > 0 {
        lemma_admitted_to_pools_is_fair(f, b, n - 1);
        soundness::lemma_admitted_to_pools_is_sound(f, b, n - 1);
        lemma_admitted_to_is_fair(f, board::admitted_to_pools(f, b, n - 1), f.pools[n - 1]);
    }
}

pub proof fn lemma_admitted_is_fair(f: Field, b: Board)
    requires
        soundness::is_field(f),
        soundness::is_sound(f, b),
        is_fair(f, b),
        b.fresh.len() == 0,
    ensures
        is_fair(f, board::admitted(f, b)),
{
    let r = board::parked(f, b);
    soundness::lemma_parked_is_sound(f, b);
    assert forall|j: int| 0 <= j < r.phase.len() && #[trigger] r.phase[j] == Phase::Parked implies
        !r.places.reserved[j] by {
        if b.phase[j] == Phase::Parked {
            assert(!b.places.reserved[j]);
        }
    }
    assert forall|j: int|
        0 <= j < r.phase.len() && #[trigger] r.phase[j] == Phase::Running && board::limit_of(
            f,
            j as usize,
        ) is Some implies r.places.reserved[j] by {
        assert(b.phase[j] == Phase::Running);
    }
    lemma_admitted_to_pools_is_fair(f, r, f.pools.len() as int);
}

proof fn lemma_cleared_is_fair(f: Field, b: Board, line: Seq<usize>)
    requires
        soundness::is_field(f),
        soundness::is_sound(f, b),
        soundness::is_line(b, line),
        is_fair(f, b),
    ensures
        is_fair(f, board::cleared(f, b, line)),
    decreases board::remaining(b.phase, b.phase.len() as int),
{
    if line.len() > 0 {
        soundness::lemma_next_line(f, b, line);
        assert(board::doing(b, Phase::Ready).contains(line[0]));
        lemma_finished_is_fair(f, b, line[0], true);
        lemma_cleared_is_fair(
            f,
            board::finished(f, b, line[0], true),
            soundness::next_line(f, b, line),
        );
    }
}

/// What an edge that does not wait for a place does is fair unless it runs without one.
proof fn lemma_other_phase_is_fair(f: Field, b: Board, k: usize, phase: Phase)
    requires
        soundness::is_sound(f, b),
        is_fair(f, b),
        k < b.phase.len(),
        phase == Phase::Parked ==> !b.places.reserved[k as int] && b.fresh.len() == 0,
        phase == Phase::Running && board::limit_of(f, k) is Some ==> b.places.reserved[k as int],
    ensures
        is_fair(f, board::with_phase(b, k, phase)),
{
    let r = board::with_phase(b, k, phase);
    assert forall|j: int| 0 <= j < r.phase.len() && #[trigger] r.phase[j] == Phase::Parked implies
        !r.places.reserved[j] by {
        assert(j == k || b.phase[j] == Phase::Parked);
    }
    assert forall|j: int|
        0 <= j < r.phase.len() && #[trigger] r.phase[j] == Phase::Running && board::limit_of(
            f,
            j as usize,
        ) is Some implies r.places.reserved[j] by {
        assert(j == k || b.phase[j] == Phase::Running);
    }
    assert forall|i: int| 0 <= i < r.fresh.len() implies r.phase[(#[trigger] r.fresh[i]) as int]
        != Phase::Parked by {
        assert(b.phase[b.fresh[i] as int] != Phase::Parked);
        assert(b.fresh[i] < b.phase.len());
    }
}

/// A fair build stays fair, whatever it does next.
pub proof fn law_steps_keep_a_build_fair(f: Field, limits: Limits, c: Course)
    requires
        soundness::is_field(f),
        soundness::is_sound(f, c.board),
        is_fair(f, c.board),
    ensures
        is_fair(f, board::next(f, limits, c).0.board),
{
    let b = c.board;
    if c.control.top {
        if b.plan is Some {
            let first = board::reserved(f, b);
            soundness::lemma_places_are_sound(f, b, 0);
            lemma_reserved_is_fair(f, b);
            soundness::lemma_without_idle_is_sound(f, first);
            lemma_cleared_is_fair(
                f,
                first,
                board::idle(f, first, board::ordered(f.weights, board::doing(first, Phase::Ready))),
            );
            let idle = board::without_idle(f, first);
            soundness::lemma_places_are_sound(f, idle, 0);
            lemma_reserved_is_fair(f, idle);
            lemma_admitted_is_fair(f, board::reserved(f, idle));
        }
    } else if c.control.left > 0 {
        let after = scheduler_laws::board_before_taking(f, b);
        scheduler_laws::lemma_before_taking(f, c);
        if b.plan is Some && b.fresh.len() > 0 {
            soundness::lemma_places_are_sound(f, b, 0);
            lemma_reserved_is_fair(f, b);
            lemma_admitted_is_fair(f, board::reserved(f, b));
        }
        let ready = board::doing(after, Phase::Ready);
        if ready != Set::<usize>::empty() {
            soundness::lemma_few_are_doing(f, after, Phase::Ready, seq![]);
            queue::lemma_first_exists(f.weights, ready);
            let k = queue::first(f.weights, ready);
            assert(ready.contains(k));
            if after.failed[k as int] {
                lemma_given_up_is_fair(f, after, k, false);
            } else {
                lemma_other_phase_is_fair(f, after, k, Phase::Held);
            }
        }
    }
}

/// A fair build stays fair, whatever becomes of an edge, as long as commands are
/// started only where they may be. Where pools have limits, the plan is known before
/// edges become ready.
pub proof fn law_events_keep_a_build_fair(f: Field, limits: Limits, c: Course, k: usize, ok: bool)
    requires
        soundness::is_field(f),
        soundness::is_sound(f, c.board),
        is_fair(f, c.board),
        k < c.board.phase.len(),
        c.board.fresh.len() == 0 || f.pools.len() == 0,
    ensures
        c.board.phase[k as int] == Phase::Held ==> {
            &&& is_fair(f, board::found_clean(f, c, k).board)
            &&& is_fair(f, board::found_dirty(f, limits, c, k).0.board)
            &&& board::found_dirty(f, limits, c, k).1 == Offer::Start ==> is_fair(
                f,
                board::started(limits, c, k).board,
            )
            &&& is_fair(f, board::put_back(c, k).board)
        },
        c.board.phase[k as int] == Phase::Running ==> is_fair(
            f,
            board::ended(f, limits, c, k, ok).board,
        ),
{
    let b = c.board;
    if b.phase[k as int] == Phase::Running {
        lemma_given_up_is_fair(f, b, k, ok);
    } else if b.phase[k as int] == Phase::Held {
        lemma_given_up_is_fair(f, b, k, true);
        lemma_other_phase_is_fair(f, b, k, Phase::Ready);
        if board::limit_of(f, k) is Some && !b.places.reserved[k as int] {
            assert(b.phase[k as int] != Phase::Absent);
            let (pool, _) = board::limit_of(f, k)->Some_0;
            assert(f.pools.contains(pool));
            assert(b.fresh.len() == 0);
            let waits = board::with_phase(b, k, Phase::Parked);
            lemma_other_phase_is_fair(f, b, k, Phase::Parked);
            scheduler_laws::lemma_other_phase_is_sound(f, b, k, Phase::Parked);
            lemma_admitted_is_fair(f, waits);
        } else {
            lemma_other_phase_is_fair(f, b, k, Phase::Running);
        }
    }
}

} // verus!
