//! What can be relied on in every course that a build can take: when it stops, how many
//! commands run, which edge comes next, and what a failure keeps from running.
use crate::board;
use crate::board::Board;
use crate::board::Course;
use crate::board::Field;
use crate::board::Limits;
use crate::board::Offer;
use crate::board::Phase;
use crate::board::Step;
use crate::manifest;
use crate::pools;
use crate::queue;
use crate::scheduler;
use crate::scheduler_laws;
use crate::soundness;
use vstd::prelude::*;

verus! {

/// What happens in a build.
pub enum Happening {
    /// It goes on.
    Step,
    /// It becomes known which edges will run.
    Plan(Seq<bool>),
    /// An edge that was looked at need not run.
    Clean(usize),
    /// An edge that was looked at must run.
    Dirty(usize),
    /// The command of an edge is started.
    Start(usize),
    /// The command of an edge was not started after all.
    Back(usize),
    /// The command of an edge ends, with success or without.
    End(usize, bool),
}

/// The course once something has happened.
pub open spec fn after(f: Field, limits: Limits, c: Course, h: Happening) -> Course {
    match h {
        Happening::Step => board::next(f, limits, c).0,
        Happening::Plan(plan) => Course { board: Board { plan: Some(plan), ..c.board }, ..c },
        Happening::Clean(k) => board::found_clean(f, c, k),
        Happening::Dirty(k) => board::found_dirty(f, limits, c, k).0,
        Happening::Start(k) => board::started(limits, c, k),
        Happening::Back(k) => board::put_back(c, k),
        Happening::End(k, ok) => board::ended(f, limits, c, k, ok),
    }
}

/// Whether something can happen: only edges that are being looked at are found to be
/// anything, only commands that may be started are, and only commands that run end.
pub open spec fn can_happen(f: Field, limits: Limits, c: Course, h: Happening) -> bool {
    match h {
        Happening::Step => true,
        Happening::Plan(plan) => plan.len() == c.board.phase.len(),
        Happening::Clean(k) | Happening::Back(k) => k < c.board.phase.len()
            && c.board.phase[k as int] == Phase::Held,
        Happening::Dirty(k) => k < c.board.phase.len() && c.board.phase[k as int] == Phase::Held
            && c.board.plan is Some,
        Happening::Start(k) => k < c.board.phase.len() && c.board.phase[k as int] == Phase::Held
            && board::found_dirty(f, limits, c, k).1 == Offer::Start,
        Happening::End(k, _) => k < c.board.phase.len() && c.board.phase[k as int]
            == Phase::Running,
    }
}

/// The course once all of a history has happened.
pub open spec fn course(f: Field, limits: Limits, c: Course, history: Seq<Happening>) -> Course
    decreases history.len(),
{
    if history.len() == 0 {
        c
    } else {
        after(f, limits, course(f, limits, c, history.drop_last()), history.last())
    }
}

/// Whether a history can happen, one thing behind the other.
pub open spec fn is_history(f: Field, limits: Limits, c: Course, history: Seq<Happening>) -> bool
    decreases history.len(),
{
    history.len() > 0 ==> is_history(f, limits, c, history.drop_last()) && can_happen(
        f,
        limits,
        course(f, limits, c, history.drop_last()),
        history.last(),
    )
}

/// How many commands of a history were started.
pub open spec fn starts(history: Seq<Happening>) -> int
    decreases history.len(),
{
    if history.len() == 0 {
        0
    } else {
        starts(history.drop_last()) + (if history.last() is Start {
            1int
        } else {
            0
        })
    }
}

/// How many commands of a history ended.
pub open spec fn ends(history: Seq<Happening>) -> int
    decreases history.len(),
{
    if history.len() == 0 {
        0
    } else {
        ends(history.drop_last()) + (if history.last() is End {
            1int
        } else {
            0
        })
    }
}

/// How many commands of a history ended without success.
pub open spec fn failures(history: Seq<Happening>) -> int
    decreases history.len(),
{
    if history.len() == 0 {
        0
    } else {
        failures(history.drop_last()) + (match history.last() {
            Happening::End(_, ok) => if ok {
                0int
            } else {
                1
            },
            _ => 0,
        })
    }
}

/// Whether a build has just begun: nothing runs, has finished or is being looked at.
pub open spec fn is_fresh(f: Field, c: Course) -> bool {
    &&& soundness::is_field(f)
    &&& soundness::is_sound(f, c.board)
    &&& c.control == scheduler::first_control()
    &&& forall|k: int|
        0 <= k < c.board.phase.len() ==> #[trigger] c.board.phase[k] != Phase::Running
            && c.board.phase[k] != Phase::Finished
}

/// Whether no more commands may be started after so many failures.
pub open spec fn is_too_many(limits: Limits, failed: int) -> bool {
    limits.failures_allowed > 0 && failed >= limits.failures_allowed
}

/// Whether one more command may run beside so many.
pub open spec fn has_room(limits: Limits, running: int) -> bool {
    match limits.jobs {
        Some(jobs) => running < jobs || running == 0,
        None => true,
    }
}

/// Whether an edge is phony, and there is nothing to be done for it: it will not run, or has
/// no inputs.
pub open spec fn has_nothing_to_do(f: Field, b: Board, k: int) -> bool {
    let e = f.m.edges[k];
    &&& e.rule == "phony"@
    &&& b.plan matches Some(plan) && (!plan[k] || (e.explicit_inputs.len() == 0
        && e.implicit_inputs.len() == 0 && e.order_only_inputs.len() == 0))
}

/// Whether nothing but edge `k` finishes or comes to be broken.
pub open spec fn is_quiet(b: Board, r: Board, k: int) -> bool {
    &&& r.phase.len() == b.phase.len()
    &&& r.broken.len() == b.broken.len()
    &&& forall|p: int|
        0 <= p < b.phase.len() && p != k ==> (#[trigger] r.phase[p] == Phase::Finished
            <==> b.phase[p] == Phase::Finished) && r.broken[p] == b.broken[p]
}

/// Whether edges that had finished still have, as they were, and those that have finished
/// since had nothing to do, or wait for one that is broken and are broken too.
pub open spec fn finish_idly(f: Field, b: Board, r: Board) -> bool {
    &&& r.phase.len() == b.phase.len()
    &&& r.broken.len() == b.broken.len()
    &&& r.plan == b.plan
    &&& forall|p: int|
        0 <= p < b.phase.len() && #[trigger] b.phase[p] == Phase::Finished ==> r.phase[p]
            == Phase::Finished && r.broken[p] == b.broken[p]
    &&& forall|p: int|
        0 <= p < b.phase.len() && b.phase[p] != Phase::Finished && #[trigger] r.phase[p]
            == Phase::Finished ==> (if r.broken[p] {
            waits_for_broken(f, r, p)
        } else {
            has_nothing_to_do(f, b, p)
        })
}

/// Whether an edge waits for one that has finished and is broken.
pub open spec fn waits_for_broken(f: Field, b: Board, p: int) -> bool {
    exists|q: int|
        0 <= q < f.told.len() && #[trigger] f.told[q].contains(p as usize) && b.phase[q]
            == Phase::Finished && b.broken[q]
}

proof fn lemma_still_waits(f: Field, b: Board, r: Board, p: int)
    requires
        soundness::is_field(f),
        b.phase.len() == f.m.edges.len(),
        waits_for_broken(f, b, p),
        forall|q: int|
            0 <= q < b.phase.len() && #[trigger] b.phase[q] == Phase::Finished ==> r.phase[q]
                == Phase::Finished && r.broken[q] == b.broken[q],
    ensures
        waits_for_broken(f, r, p),
{
    let q = choose|q: int|
        0 <= q < f.told.len() && #[trigger] f.told[q].contains(p as usize) && b.phase[q]
            == Phase::Finished && b.broken[q];
    assert(f.told[q].contains(p as usize));
    assert(b.phase[q] == Phase::Finished);
}

proof fn lemma_finish_idly_again(f: Field, a: Board, b: Board, c: Board)
    requires
        soundness::is_field(f),
        a.phase.len() == f.m.edges.len(),
        finish_idly(f, a, b),
        finish_idly(f, b, c),
    ensures
        finish_idly(f, a, c),
{
    assert forall|p: int|
        0 <= p < a.phase.len() && #[trigger] a.phase[p] == Phase::Finished implies c.phase[p]
        == Phase::Finished && c.broken[p] == a.broken[p] by {
        assert(b.phase[p] == Phase::Finished);
    }
    assert forall|p: int|
        0 <= p < a.phase.len() && a.phase[p] != Phase::Finished && #[trigger] c.phase[p]
            == Phase::Finished implies (if c.broken[p] {
        waits_for_broken(f, c, p)
    } else {
        has_nothing_to_do(f, a, p)
    }) by {
        if b.phase[p] == Phase::Finished {
            assert(c.broken[p] == b.broken[p]);
            if c.broken[p] {
                lemma_still_waits(f, b, c, p);
            }
        }
    }
}

proof fn lemma_quiet_is_idle(f: Field, b: Board, r: Board)
    requires
        is_quiet(b, r, -1),
        r.plan == b.plan,
    ensures
        finish_idly(f, b, r),
{
    assert forall|p: int|
        0 <= p < b.phase.len() && #[trigger] b.phase[p] == Phase::Finished implies r.phase[p]
        == Phase::Finished && r.broken[p] == b.broken[p] by {
        assert(r.phase[p] == Phase::Finished <==> b.phase[p] == Phase::Finished);
    }
}

proof fn lemma_places_are_quiet(b: Board, r: Board)
    requires
        soundness::differ_in_places(Board { fresh: r.fresh, ..b }, r),
    ensures
        is_quiet(b, r, -1),
        r.plan == b.plan,
{
    assert forall|p: int| 0 <= p < b.phase.len() implies (#[trigger] r.phase[p] == Phase::Finished
        <==> b.phase[p] == Phase::Finished) by {
        assert(r.phase[p] == b.phase[p] || (r.phase[p] == Phase::Ready && b.phase[p]
            == Phase::Parked) || (r.phase[p] == Phase::Parked && b.phase[p] == Phase::Ready));
    }
}

proof fn lemma_finishing(f: Field, b: Board, k: usize, ok: bool)
    requires
        soundness::is_field(f),
        soundness::is_sound(f, b),
        k < f.m.edges.len(),
        soundness::is_free(b.phase[k as int]),
    ensures
        is_quiet(b, board::finished(f, b, k, ok), k as int),
        board::finished(f, b, k, ok).phase[k as int] == Phase::Finished,
        board::finished(f, b, k, ok).broken[k as int] == !ok,
        board::finished(f, b, k, ok).plan == b.plan,
{
    soundness::lemma_finished_phases(f, b, k, ok);
    let r = board::finished(f, b, k, ok);
    assert forall|p: int| 0 <= p < b.phase.len() && p != k implies (#[trigger] r.phase[p]
        == Phase::Finished <==> b.phase[p] == Phase::Finished) && r.broken[p] == b.broken[p] by {
        assert(r.phase[p] == b.phase[p] || (b.phase[p] == Phase::Blocked && r.phase[p]
            == Phase::Ready));
    }
}

proof fn lemma_cleared_idly(f: Field, b: Board, line: Seq<usize>)
    requires
        soundness::is_field(f),
        soundness::is_sound(f, b),
        soundness::is_line(b, line),
        b.plan is Some,
        forall|i: int| 0 <= i < line.len() ==> has_nothing_to_do(f, b, #[trigger] line[i] as int),
    ensures
        finish_idly(f, b, board::cleared(f, b, line)),
    decreases board::remaining(b.phase, b.phase.len() as int),
{
    if line.len() > 0 {
        let k = line[0];
        assert(board::doing(b, Phase::Ready).contains(line[0]));
        soundness::lemma_next_line(f, b, line);
        lemma_finishing(f, b, k, true);
        let next = board::finished(f, b, k, true);
        let more = soundness::next_line(f, b, line);
        assert(has_nothing_to_do(f, b, line[0] as int));
        assert(finish_idly(f, b, next)) by {
            assert forall|p: int|
                0 <= p < b.phase.len() && #[trigger] b.phase[p]
                    == Phase::Finished implies next.phase[p] == Phase::Finished
                && next.broken[p] == b.broken[p] by {
                assert(next.phase[p] == Phase::Finished <==> b.phase[p] == Phase::Finished);
            }
            assert forall|p: int|
                0 <= p < b.phase.len() && b.phase[p] != Phase::Finished && #[trigger] next.phase[p]
                    == Phase::Finished implies (if next.broken[p] {
                waits_for_broken(f, next, p)
            } else {
                has_nothing_to_do(f, b, p)
            }) by {
                assert(p == k);
            }
        }
        let new = board::doing(next, Phase::Ready).difference(board::doing(b, Phase::Ready));
        soundness::lemma_few_are_doing(f, next, Phase::Ready, seq![]);
        queue::lemma_set_below(new, b.phase.len());
        soundness::lemma_ordered(f.weights, new);
        let order = board::ordered(f.weights, new);
        soundness::lemma_idle(f, next, order);
        let idle = board::idle(f, next, order);
        assert forall|i: int| 0 <= i < more.len() implies has_nothing_to_do(
            f,
            next,
            #[trigger] more[i] as int,
        ) by {
            if i < line.len() - 1 {
                assert(more[i] == line[i + 1]);
                assert(has_nothing_to_do(f, b, line[i + 1] as int));
            } else {
                assert(more[i] == idle[i - (line.len() - 1)]);
                assert(idle.contains(more[i]));
                lemma_idle_has_nothing(f, next, more[i]);
            }
        }
        lemma_cleared_idly(f, next, more);
        lemma_finish_idly_again(f, b, next, board::cleared(f, b, line));
    } else {
        lemma_quiet_is_idle(f, b, b);
    }
}

proof fn lemma_idle_has_nothing(f: Field, b: Board, k: usize)
    requires
        board::is_idle(f, b, k),
        b.plan is Some,
    ensures
        has_nothing_to_do(f, b, k as int),
{
    let e = f.m.edges[k as int];
    assert(manifest::inputs_of(e).len() == e.explicit_inputs.len() + e.implicit_inputs.len()
        + e.order_only_inputs.len());
}

proof fn lemma_begun_idly(f: Field, b: Board)
    requires
        soundness::is_field(f),
        soundness::is_sound(f, b),
    ensures
        finish_idly(f, b, board::begun(f, b)),
        board::running(board::begun(f, b).phase, b.phase.len() as int) == board::running(
            b.phase,
            b.phase.len() as int,
        ),
{
    if b.plan is Some {
        let first = board::reserved(f, b);
        soundness::lemma_places_are_sound(f, b, 0);
        soundness::lemma_without_idle_is_sound(f, first);
        let ready = board::doing(first, Phase::Ready);
        soundness::lemma_few_are_doing(f, first, Phase::Ready, seq![]);
        let order = board::ordered(f.weights, ready);
        soundness::lemma_ordered(f.weights, ready);
        soundness::lemma_idle(f, first, order);
        let line = board::idle(f, first, order);
        assert forall|i: int| 0 <= i < line.len() implies has_nothing_to_do(
            f,
            first,
            #[trigger] line[i] as int,
        ) by {
            assert(line.contains(line[i]));
            lemma_idle_has_nothing(f, first, line[i]);
        }
        lemma_cleared_idly(f, first, line);
        let idle = board::without_idle(f, first);
        soundness::lemma_places_are_sound(f, idle, 0);
        let second = board::reserved(f, idle);
        soundness::lemma_admitted_is_sound(f, second);
        let last = board::admitted(f, second);
        assert(soundness::differ_in_places(Board { fresh: last.fresh, ..second }, last));
        lemma_places_are_quiet(second, last);
        lemma_quiet_is_idle(f, second, last);
        lemma_quiet_is_idle(f, b, first);
        lemma_quiet_is_idle(f, idle, second);
        lemma_finish_idly_again(f, b, first, idle);
        lemma_finish_idly_again(f, b, idle, second);
        lemma_finish_idly_again(f, b, second, last);
    } else {
        lemma_quiet_is_idle(f, b, b);
    }
}

proof fn lemma_step(f: Field, limits: Limits, c: Course)
    requires
        soundness::is_field(f),
        soundness::is_sound(f, c.board),
    ensures
        ({
            let r = board::next(f, limits, c).0;
            &&& soundness::is_sound(f, r.board)
            &&& finish_idly(f, c.board, r.board)
            &&& board::running(r.board.phase, r.board.phase.len() as int) == board::running(
                c.board.phase,
                c.board.phase.len() as int,
            )
            &&& r.control.failures == c.control.failures
            &&& r.control.stopped == c.control.stopped
            &&& r.control.running == c.control.running
        }),
{
    let b = c.board;
    let n = b.phase.len() as int;
    scheduler_laws::law_steps_keep_a_build_sound(f, limits, c);
    lemma_quiet_is_idle(f, b, b);
    if c.control.top {
        lemma_begun_idly(f, b);
    } else if c.control.left > 0 {
        scheduler_laws::lemma_before_taking(f, c);
        let before = scheduler_laws::board_before_taking(f, b);
        lemma_places_are_quiet(b, before);
        lemma_quiet_is_idle(f, b, before);
        if b.plan is Some && b.fresh.len() > 0 {
            soundness::lemma_places_are_sound(f, b, 0);
            soundness::lemma_admitted_is_sound(f, board::reserved(f, b));
        }
        assert(board::running(before.phase, n) == board::running(b.phase, n));
        let ready = board::doing(before, Phase::Ready);
        let r = board::next(f, limits, c).0.board;
        if ready != Set::<usize>::empty() {
            soundness::lemma_few_are_doing(f, before, Phase::Ready, seq![]);
            queue::lemma_first_exists(f.weights, ready);
            let k = queue::first(f.weights, ready);
            assert(ready.contains(k));
            if before.failed[k as int] {
                let free = board::released(f, before, k);
                soundness::lemma_places_are_sound(f, before, k);
                lemma_finishing(f, free, k, false);
                soundness::lemma_finished_is_sound(f, free, k, false);
                assert(r == board::finished(f, free, k, false));
                assert(soundness::is_spoiled(f, before, k));
                let q = choose|q: int|
                    0 <= q < f.told.len() && #[trigger] soundness::spoils(f, before, q, k);
                assert(f.told[q].contains(k));
                assert(waits_for_broken(f, before, k as int));
                assert forall|p: int|
                    0 <= p < before.phase.len() && #[trigger] before.phase[p]
                        == Phase::Finished implies r.phase[p] == Phase::Finished && r.broken[p]
                    == before.broken[p] by {
                    assert(free.phase[p] == Phase::Finished);
                    assert(r.phase[p] == Phase::Finished <==> free.phase[p] == Phase::Finished);
                }
                lemma_still_waits(f, before, r, k as int);
                assert forall|p: int|
                    0 <= p < before.phase.len() && before.phase[p] != Phase::Finished
                        && #[trigger] r.phase[p] == Phase::Finished implies (if r.broken[p] {
                    waits_for_broken(f, r, p)
                } else {
                    has_nothing_to_do(f, before, p)
                }) by {
                    assert(p == k);
                }
                assert(finish_idly(f, before, r));
            } else {
                assert(r == board::with_phase(before, k, Phase::Held));
                assert(is_quiet(before, r, -1));
                lemma_quiet_is_idle(f, before, r);
                soundness::lemma_remaining_same(before.phase, r.phase, n);
            }
            lemma_finish_idly_again(f, b, before, r);
        } else {
            assert(r == before);
        }
    }
}

proof fn lemma_one_runs(phase: Seq<Phase>, k: int, n: int)
    requires
        0 <= k < n <= phase.len(),
        phase[k] == Phase::Running,
    ensures
        board::running(phase, n) > 0,
    decreases n,
{
    if k < n - 1 {
        lemma_one_runs(phase, k, n - 1);
    }
}

proof fn lemma_one_more_runs(phase: Seq<Phase>, k: int, n: int)
    requires
        0 <= k < phase.len(),
        0 <= n <= phase.len(),
        phase[k] != Phase::Running,
    ensures
        board::running(phase.update(k, Phase::Running), n) == board::running(phase, n) + (if k < n {
            1nat
        } else {
            0
        }),
    decreases n,
{
    if n > 0 {
        lemma_one_more_runs(phase, k, n - 1);
    }
}

proof fn lemma_none_runs(phase: Seq<Phase>, n: int)
    requires
        0 <= n <= phase.len(),
        forall|k: int| 0 <= k < phase.len() ==> #[trigger] phase[k] != Phase::Running,
    ensures
        board::running(phase, n) == 0,
    decreases n,
{
    if n > 0 {
        lemma_none_runs(phase, n - 1);
    }
}

/// The edge to which something happens.
spec fn subject(h: Happening) -> int {
    match h {
        Happening::Clean(k)
        | Happening::Dirty(k)
        | Happening::Start(k)
        | Happening::Back(k)
        | Happening::End(k, _) => k as int,
        _ => -1,
    }
}

proof fn lemma_happening(f: Field, limits: Limits, c: Course, h: Happening)
    requires
        soundness::is_field(f),
        soundness::is_sound(f, c.board),
        c.control.running == board::running(c.board.phase, c.board.phase.len() as int),
        can_happen(f, limits, c, h),
    ensures
        ({
            let r = after(f, limits, c, h);
            &&& soundness::is_sound(f, r.board)
            &&& r.control.running == board::running(r.board.phase, r.board.phase.len() as int)
            &&& h is Start ==> r.control.running == c.control.running + 1
            &&& h is End ==> r.control.running == c.control.running - 1
            &&& !(h is Start) && !(h is End) ==> r.control.running == c.control.running
            &&& !(h is End) ==> r.control.failures == c.control.failures && r.control.stopped
                == c.control.stopped
            &&& h is Step ==> finish_idly(f, c.board, r.board)
            &&& !(h is Step) ==> is_quiet(c.board, r.board, subject(h))
            &&& h is Clean || h is End ==> r.board.phase[subject(h)] == Phase::Finished
            &&& !(h is Step) && !(h is Clean) && !(h is End) ==> is_quiet(c.board, r.board, -1)
            &&& h matches Happening::Clean(k) ==> !r.board.broken[k as int]
            &&& h matches Happening::End(k, ok) ==> r.board.broken[k as int] == !ok
        }),
{
    let b = c.board;
    let n = b.phase.len() as int;
    let r = after(f, limits, c, h);
    match h {
        Happening::Step => {
            lemma_step(f, limits, c);
        },
        Happening::Plan(plan) => {
            scheduler::lemma_plan_is_sound(f, b, r.board);
        },
        Happening::Clean(k) => {
            scheduler_laws::law_events_keep_a_build_sound(f, limits, c, k, true);
            soundness::lemma_places_are_sound(f, b, k);
            lemma_finishing(f, board::released(f, b, k), k, true);
            soundness::lemma_finished_is_sound(f, board::released(f, b, k), k, true);
        },
        Happening::Dirty(k) => {
            scheduler_laws::law_events_keep_a_build_sound(f, limits, c, k, true);
            if board::limit_of(f, k) is Some && !b.places.reserved[k as int] {
                let waits = board::with_phase(b, k, Phase::Parked);
                scheduler_laws::lemma_other_phase_is_sound(f, b, k, Phase::Parked);
                soundness::lemma_admitted_is_sound(f, waits);
                let last = board::admitted(f, waits);
                assert(soundness::differ_in_places(Board { fresh: last.fresh, ..waits }, last));
                lemma_places_are_quiet(waits, last);
                soundness::lemma_remaining_same(b.phase, waits.phase, n);
                assert forall|p: int| 0 <= p < b.phase.len() implies (#[trigger] last.phase[p]
                    == Phase::Finished <==> b.phase[p] == Phase::Finished) && last.broken[p]
                    == b.broken[p] by {
                    assert(last.phase[p] == Phase::Finished <==> waits.phase[p]
                        == Phase::Finished);
                }
                assert(is_quiet(b, last, -1));
            } else {
                let back = board::with_phase(b, k, Phase::Ready);
                soundness::lemma_remaining_same(b.phase, back.phase, n);
                assert(is_quiet(b, back, -1));
            }
        },
        Happening::Start(k) => {
            scheduler_laws::law_events_keep_a_build_sound(f, limits, c, k, true);
            lemma_one_more_runs(b.phase, k as int, n);
            soundness::lemma_remaining_bound(r.board.phase, n);
            assert(is_quiet(b, r.board, -1));
        },
        Happening::Back(k) => {
            scheduler_laws::law_events_keep_a_build_sound(f, limits, c, k, true);
            let back = board::with_phase(b, k, Phase::Ready);
            soundness::lemma_remaining_same(b.phase, back.phase, n);
            assert(is_quiet(b, r.board, -1));
        },
        Happening::End(k, ok) => {
            scheduler_laws::law_events_keep_a_build_sound(f, limits, c, k, ok);
            soundness::lemma_places_are_sound(f, b, k);
            lemma_finishing(f, board::released(f, b, k), k, ok);
            soundness::lemma_finished_is_sound(f, board::released(f, b, k), k, ok);
            lemma_one_runs(b.phase, k as int, n);
        },
    }
}

proof fn lemma_history(f: Field, limits: Limits, c: Course, history: Seq<Happening>)
    requires
        is_fresh(f, c),
        is_history(f, limits, c, history),
    ensures
        ({
            let r = course(f, limits, c, history);
            &&& soundness::is_sound(f, r.board)
            &&& r.control.running == board::running(r.board.phase, r.board.phase.len() as int)
            &&& r.control.running == starts(history) - ends(history)
            &&& 0 <= failures(history)
            &&& failures(history) <= usize::MAX ==> r.control.failures == failures(history)
            &&& failures(history) > usize::MAX ==> r.control.failures == usize::MAX
            &&& r.control.stopped <==> is_too_many(limits, failures(history))
            &&& limits.jobs matches Some(jobs) ==> r.control.running <= jobs || r.control.running
                <= 1
        }),
    decreases history.len(),
{
    if history.len() == 0 {
        lemma_none_runs(c.board.phase, c.board.phase.len() as int);
    } else {
        let before = history.drop_last();
        lemma_history(f, limits, c, before);
        let b = course(f, limits, c, before);
        lemma_happening(f, limits, b, history.last());
        if let Happening::Start(k) = history.last() {
            assert(board::found_dirty(f, limits, b, k).1 == Offer::Start);
        }
    }
}

/// A build stops exactly once as many commands have ended without success as are allowed to,
/// and never where any number may: `failures_allowed` is zero then. It counts the failures.
pub proof fn law_build_stops_at_the_last_allowed_failure(
    f: Field,
    limits: Limits,
    c: Course,
    history: Seq<Happening>,
)
    requires
        is_fresh(f, c),
        is_history(f, limits, c, history),
        failures(history) <= usize::MAX,
    ensures
        course(f, limits, c, history).control.failures == failures(history),
        course(f, limits, c, history).control.stopped <==> limits.failures_allowed > 0 && failures(
            history,
        ) >= limits.failures_allowed,
{
    lemma_history(f, limits, c, history);
}

/// As many commands run as were started and have not ended, and these are no more than may
/// run at a time; one may always run.
pub proof fn law_commands_run_within_jobs(
    f: Field,
    limits: Limits,
    c: Course,
    history: Seq<Happening>,
)
    requires
        is_fresh(f, c),
        is_history(f, limits, c, history),
    ensures
        course(f, limits, c, history).control.running == starts(history) - ends(history),
        limits.jobs matches Some(jobs) ==> starts(history) - ends(history) <= jobs || starts(
            history,
        ) - ends(history) <= 1,
{
    lemma_history(f, limits, c, history);
}

/// An edge that must run and needs no place in a pool, or has one, is started while there are
/// fewer failures than are allowed and room for one more command, and only then. Where it has
/// to wait, it is put back.
pub proof fn law_command_is_started_where_there_is_room(
    f: Field,
    limits: Limits,
    c: Course,
    history: Seq<Happening>,
    k: usize,
)
    requires
        is_fresh(f, c),
        is_history(f, limits, c, history),
        k < f.m.edges.len(),
        ({
            let b = course(f, limits, c, history).board;
            &&& b.phase[k as int] == Phase::Held
            &&& b.places.reserved[k as int] || pools::pool_of(
                f.m,
                f.m.edges[k as int],
                f.windows,
            ) is None
        }),
    ensures
        board::found_dirty(f, limits, course(f, limits, c, history), k).1 == (if !is_too_many(
            limits,
            failures(history),
        ) && has_room(limits, starts(history) - ends(history)) {
            Offer::Start
        } else {
            Offer::PutBack
        }),
{
    lemma_history(f, limits, c, history);
}

/// The edge that is looked at next was ready, or has just got a place, and comes first of all
/// that are ready: it is the heaviest, and of those that are as heavy the one that was declared
/// first. Other edges do what they did, but for waiting for a place.
pub proof fn law_heaviest_edge_is_looked_at_first(f: Field, limits: Limits, c: Course, k: usize)
    requires
        soundness::is_field(f),
        soundness::is_sound(f, c.board),
        board::next(f, limits, c).1 == Step::Examine(k),
    ensures
        ({
            let r = board::next(f, limits, c).0.board;
            &&& k < r.phase.len()
            &&& r.phase[k as int] == Phase::Held
            &&& c.board.phase[k as int] == Phase::Ready || c.board.phase[k as int]
                == Phase::Parked
            &&& forall|j: usize|
                j < r.phase.len() && #[trigger] r.phase[j as int] == Phase::Ready
                    ==> f.weights[k as int] > f.weights[j as int] || (f.weights[k as int]
                    == f.weights[j as int] && k < j)
            &&& forall|j: int|
                0 <= j < r.phase.len() && j != k ==> (#[trigger] r.phase[j] == c.board.phase[j]
                    || ((r.phase[j] == Phase::Ready || r.phase[j] == Phase::Parked) && (
                c.board.phase[j] == Phase::Ready || c.board.phase[j] == Phase::Parked)))
        }),
{
    let b = c.board;
    scheduler_laws::lemma_before_taking(f, c);
    let before = scheduler_laws::board_before_taking(f, b);
    let ready = board::doing(before, Phase::Ready);
    soundness::lemma_few_are_doing(f, before, Phase::Ready, seq![]);
    queue::lemma_first_exists(f.weights, ready);
    assert(k == queue::first(f.weights, ready));
    assert(ready.contains(k));
    let r = board::next(f, limits, c).0.board;
    assert(r == board::with_phase(before, k, Phase::Held));
    assert forall|j: usize|
        j < r.phase.len() && #[trigger] r.phase[j as int] == Phase::Ready implies f.weights[
    k as int] > f.weights[j as int] || (f.weights[k as int] == f.weights[j as int] && k < j) by {
        assert(ready.contains(j));
        assert(queue::leads(f.weights, k, j));
    }
    assert(before.phase[k as int] == Phase::Ready);
    assert forall|j: int| 0 <= j < r.phase.len() && j != k implies (#[trigger] r.phase[j]
        == c.board.phase[j] || ((r.phase[j] == Phase::Ready || r.phase[j] == Phase::Parked) && (
    c.board.phase[j] == Phase::Ready || c.board.phase[j] == Phase::Parked))) by {
        assert(before.phase[j] == r.phase[j]);
    }
}

/// A build is done only where every edge that it needs has finished, or where it has stopped
/// and no command runs. It waits only for commands that run.
pub proof fn law_build_is_done_where_all_has_finished(f: Field, limits: Limits, c: Course)
    requires
        soundness::is_field(f),
        soundness::is_sound(f, c.board),
    ensures
        board::next(f, limits, c).1 == Step::Done ==> (c.control.stopped && c.control.running == 0)
            || forall|k: int|
            0 <= k < c.board.phase.len() ==> #[trigger] c.board.phase[k] == Phase::Absent
                || c.board.phase[k] == Phase::Finished,
        board::next(f, limits, c).1 == Step::Wait ==> c.control.running > 0,
        c.control.top && (forall|k: int|
            0 <= k < c.board.phase.len() ==> #[trigger] c.board.phase[k] == Phase::Absent
                || c.board.phase[k] == Phase::Finished) ==> board::next(f, limits, c).1
            == Step::Done,
{
    let n = c.board.phase.len() as int;
    if board::remaining(c.board.phase, n) == 0 {
        assert forall|k: int| 0 <= k < n implies #[trigger] c.board.phase[k] == Phase::Absent
            || c.board.phase[k] == Phase::Finished by {
            lemma_none_remains(c.board.phase, n, k);
        }
    }
    if forall|k: int|
        0 <= k < n ==> #[trigger] c.board.phase[k] == Phase::Absent || c.board.phase[k]
            == Phase::Finished {
        lemma_all_finished(c.board.phase, n);
    }
}

proof fn lemma_none_remains(phase: Seq<Phase>, n: int, k: int)
    requires
        0 <= k < n <= phase.len(),
        board::remaining(phase, n) == 0,
    ensures
        phase[k] == Phase::Absent || phase[k] == Phase::Finished,
    decreases n,
{
    if k < n - 1 {
        lemma_none_remains(phase, n - 1, k);
    }
}

proof fn lemma_all_finished(phase: Seq<Phase>, n: int)
    requires
        0 <= n <= phase.len(),
        forall|k: int|
            0 <= k < phase.len() ==> #[trigger] phase[k] == Phase::Absent || phase[k]
                == Phase::Finished,
    ensures
        board::remaining(phase, n) == 0,
    decreases n,
{
    if n > 0 {
        lemma_all_finished(phase, n - 1);
        assert(phase[n - 1] == Phase::Absent || phase[n - 1] == Phase::Finished);
    }
}

/// As a build goes on, edges finish by themselves only where they are phony and have nothing
/// to do, or where they wait for a broken one, and are broken too then.
pub proof fn law_edges_do_not_finish_unseen(f: Field, limits: Limits, c: Course, p: int)
    requires
        soundness::is_field(f),
        soundness::is_sound(f, c.board),
        0 <= p < f.m.edges.len(),
    ensures
        ({
            let r = board::next(f, limits, c).0.board;
            &&& c.board.phase[p] == Phase::Finished ==> r.phase[p] == Phase::Finished && r.broken[p]
                == c.board.broken[p]
            &&& c.board.phase[p] != Phase::Finished && r.phase[p] == Phase::Finished
                && r.broken[p] ==> waits_for_broken(f, r, p)
            &&& c.board.phase[p] != Phase::Finished && r.phase[p] == Phase::Finished
                && !r.broken[p] ==> has_nothing_to_do(f, c.board, p)
        }),
{
    lemma_step(f, limits, c);
}

/// What becomes of an edge changes no other edge that has finished: an edge that need not run
/// has finished well, one whose command ended has finished as the command did, and nothing
/// else makes one finish.
pub proof fn law_edges_finish_as_their_commands_do(
    f: Field,
    limits: Limits,
    c: Course,
    h: Happening,
    p: int,
)
    requires
        soundness::is_field(f),
        soundness::is_sound(f, c.board),
        c.control.running == board::running(c.board.phase, c.board.phase.len() as int),
        can_happen(f, limits, c, h),
        !(h is Step),
        0 <= p < f.m.edges.len(),
    ensures
        ({
            let r = after(f, limits, c, h).board;
            &&& c.board.phase[p] != Phase::Finished ==> (r.phase[p] == Phase::Finished <==> (
            h matches Happening::Clean(k) && k == p) || (h matches Happening::End(k, _) && k == p))
            &&& c.board.phase[p] == Phase::Finished ==> r.phase[p] == Phase::Finished && r.broken[p]
                == c.board.broken[p]
            &&& h matches Happening::Clean(k) ==> (k == p ==> !r.broken[p])
            &&& h matches Happening::End(k, ok) ==> (k == p ==> r.broken[p] == !ok)
        }),
{
    lemma_happening(f, limits, c, h);
    let r = after(f, limits, c, h).board;
    if p != subject(h) {
        assert(r.phase[p] == Phase::Finished <==> c.board.phase[p] == Phase::Finished);
    } else if !(h is Clean) && !(h is End) {
        assert(is_quiet(c.board, r, -1));
        assert(r.phase[p] == Phase::Finished <==> c.board.phase[p] == Phase::Finished);
    }
}

proof fn lemma_ended_stays(
    f: Field,
    limits: Limits,
    c: Course,
    history: Seq<Happening>,
    i: int,
    p: usize,
    ok: bool,
)
    requires
        is_fresh(f, c),
        is_history(f, limits, c, history),
        0 <= i < history.len(),
        history[i] == Happening::End(p, ok),
    ensures
        p < f.m.edges.len(),
        course(f, limits, c, history).board.phase[p as int] == Phase::Finished,
        course(f, limits, c, history).board.broken[p as int] == !ok,
    decreases history.len(),
{
    let before = history.drop_last();
    lemma_history(f, limits, c, before);
    let b = course(f, limits, c, before);
    let h = history.last();
    lemma_happening(f, limits, b, h);
    if i < history.len() - 1 {
        lemma_ended_stays(f, limits, c, before, i, p, ok);
        if h is Step {
            assert(b.board.phase[p as int] == Phase::Finished);
        } else {
            law_edges_finish_as_their_commands_do(f, limits, b, h, p as int);
            if let Happening::Clean(k) = h {
                assert(k != p);
            }
            if let Happening::End(k, _) = h {
                assert(k != p);
            }
        }
    }
}

/// An edge that waits for one whose command has ended without success is never looked at.
pub proof fn law_nothing_runs_behind_a_failure(
    f: Field,
    limits: Limits,
    c: Course,
    history: Seq<Happening>,
    i: int,
    p: usize,
    k: usize,
)
    requires
        is_fresh(f, c),
        is_history(f, limits, c, history),
        0 <= i < history.len(),
        history[i] == Happening::End(p, false),
        p < f.told.len(),
        f.told[p as int].contains(k),
    ensures
        board::next(f, limits, course(f, limits, c, history)).1 != Step::Examine(k),
{
    let last = course(f, limits, c, history);
    lemma_history(f, limits, c, history);
    if board::next(f, limits, last).1 == Step::Examine(k) {
        scheduler_laws::law_edges_come_behind_what_they_wait_for(f, limits, last, k, p);
        lemma_ended_stays(f, limits, c, history, i, p, false);
        lemma_step(f, limits, last);
        assert(last.board.phase[p as int] == Phase::Finished);
    }
}

proof fn lemma_let_in_stays(f: Field, b: Board, pool: Seq<char>, j: usize)
    requires
        soundness::is_field(f),
        soundness::is_sound(f, b),
        j < b.phase.len(),
        b.phase[j as int] != Phase::Parked,
    ensures
        board::admitted_to(f, b, pool).phase[j as int] != Phase::Parked,
        board::admitted_to(f, b, pool).phase.len() == b.phase.len(),
    decreases
            pools::room(f.m, Some(pool), usize::MAX) - pools::held(b.places.usage, pool),
{
    if board::waiting(f, b, pool) != Set::<usize>::empty() && pools::held(b.places.usage, pool)
        < pools::room(f.m, Some(pool), usize::MAX) {
        soundness::lemma_let_in_is_sound(f, b, pool);
        let k = queue::first(f.weights, board::waiting(f, b, pool));
        lemma_let_in_stays(f, board::let_in(b, k, pool), pool, j);
    }
}

/// Of the edges that wait for a place in a pool, the heaviest get the places that there are, and
/// of those that are as heavy the ones that were declared first.
pub proof fn law_heaviest_waiting_edges_get_places(
    f: Field,
    b: Board,
    pool: Seq<char>,
    j: usize,
    k: usize,
)
    requires
        soundness::is_field(f),
        soundness::is_sound(f, b),
        board::waiting(f, b, pool).contains(j),
        board::waiting(f, b, pool).contains(k),
        board::admitted_to(f, b, pool).phase[j as int] != Phase::Parked,
        board::admitted_to(f, b, pool).phase[k as int] == Phase::Parked,
    ensures
        f.weights[j as int] > f.weights[k as int] || (f.weights[j as int] == f.weights[k as int]
            && j < k),
    decreases
            pools::room(f.m, Some(pool), usize::MAX) - pools::held(b.places.usage, pool),
{
    let waiting = board::waiting(f, b, pool);
    if pools::held(b.places.usage, pool) < pools::room(f.m, Some(pool), usize::MAX) {
        soundness::lemma_let_in_is_sound(f, b, pool);
        soundness::lemma_few_are_doing(f, b, Phase::Parked, pool);
        queue::lemma_first_exists(f.weights, waiting);
        let x = queue::first(f.weights, waiting);
        let next = board::let_in(b, x, pool);
        assert(waiting.contains(x));
        lemma_let_in_stays(f, next, pool, x);
        assert(k != x);
        if j == x {
            assert(queue::leads(f.weights, x, k));
        } else {
            assert(board::waiting(f, next, pool).contains(j));
            assert(board::waiting(f, next, pool).contains(k));
            law_heaviest_waiting_edges_get_places(f, next, pool, j, k);
        }
    }
}

} // verus!
