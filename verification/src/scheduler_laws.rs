//! What can be relied on however a build goes: edges come behind those that they wait
//! for, run once, and keep within the room of their pools.
use crate::board;
use crate::board::Board;
use crate::board::Course;
use crate::board::Field;
use crate::board::Limits;
use crate::board::Offer;
use crate::board::Phase;
use crate::board::Step;
use crate::closure;
use crate::closure::GraphView;
use crate::links;
use crate::queue;
use crate::soundness;
use vstd::prelude::*;

verus! {

/// A sound build stays sound, whatever it does next.
pub proof fn law_steps_keep_a_build_sound(f: Field, limits: Limits, c: Course)
    requires
        soundness::is_field(f),
        soundness::is_sound(f, c.board),
    ensures
        soundness::is_sound(f, board::next(f, limits, c).0.board),
{
    let b = c.board;
    if c.control.top {
        if b.plan is Some {
            soundness::lemma_places_are_sound(f, b, 0);
            let first = board::reserved(f, b);
            soundness::lemma_without_idle_is_sound(f, first);
            let idle = board::without_idle(f, first);
            soundness::lemma_places_are_sound(f, idle, 0);
            soundness::lemma_admitted_is_sound(f, board::reserved(f, idle));
        }
    } else if c.control.left > 0 {
        lemma_before_taking(f, c);
        lemma_taken_is_sound(f, Course { board: board_before_taking(f, b), ..c });
    }
}

/// The board from which the first edge that is ready is taken.
pub open spec fn board_before_taking(f: Field, b: Board) -> Board {
    if b.plan is Some && b.fresh.len() > 0 {
        board::admitted(f, board::reserved(f, b))
    } else {
        b
    }
}

pub proof fn lemma_before_taking(f: Field, c: Course)
    requires
        soundness::is_field(f),
        soundness::is_sound(f, c.board),
    ensures
        soundness::is_sound(f, board_before_taking(f, c.board)),
        soundness::differ_in_places(
            Board { fresh: board_before_taking(f, c.board).fresh, ..c.board },
            board_before_taking(f, c.board),
        ),
{
    let b = c.board;
    if b.plan is Some && b.fresh.len() > 0 {
        soundness::lemma_places_are_sound(f, b, 0);
        soundness::lemma_admitted_is_sound(f, board::reserved(f, b));
    }
}

proof fn lemma_taken_is_sound(f: Field, c: Course)
    requires
        soundness::is_field(f),
        soundness::is_sound(f, c.board),
    ensures
        soundness::is_sound(f, board::taken(f, c).0.board),
        board::taken(f, c).1 matches Step::Examine(k) ==> k < c.board.phase.len()
            && c.board.phase[k as int] == Phase::Ready && !c.board.failed[k as int],
{
    let b = c.board;
    let ready = board::doing(b, Phase::Ready);
    if ready != Set::<usize>::empty() {
        soundness::lemma_few_are_doing(f, b, Phase::Ready, seq![]);
        queue::lemma_first_exists(f.weights, ready);
        let k = queue::first(f.weights, ready);
        assert(ready.contains(k));
        if b.failed[k as int] {
            lemma_given_up_is_sound(f, b, k, false);
        } else {
            lemma_other_phase_is_sound(f, b, k, Phase::Held);
        }
    }
}

proof fn lemma_given_up_is_sound(f: Field, b: Board, k: usize, ok: bool)
    requires
        soundness::is_field(f),
        soundness::is_sound(f, b),
        k < b.phase.len(),
        soundness::is_free(b.phase[k as int]),
    ensures
        soundness::is_sound(f, board::finished(f, board::released(f, b, k), k, ok)),
{
    soundness::lemma_places_are_sound(f, b, k);
    soundness::lemma_finished_is_sound(f, board::released(f, b, k), k, ok);
}

pub proof fn lemma_other_phase_is_sound(f: Field, b: Board, k: usize, phase: Phase)
    requires
        soundness::is_field(f),
        soundness::is_sound(f, b),
        k < b.phase.len(),
        soundness::is_free(b.phase[k as int]),
        soundness::is_free(phase),
        phase == Phase::Parked ==> board::limit_of(f, k) is Some,
    ensures
        soundness::is_sound(f, board::with_phase(b, k, phase)),
{
    let r = board::with_phase(b, k, phase);
    assert forall|i: int| 0 <= i < r.phase.len() && #[trigger] r.phase[i] == Phase::Parked implies
        board::limit_of(f, i as usize) is Some by {
        assert(i == k || b.phase[i] == Phase::Parked);
    }
    soundness::lemma_phases_are_sound(f, b, r);
}

/// A sound build stays sound, whatever becomes of an edge.
pub proof fn law_events_keep_a_build_sound(f: Field, limits: Limits, c: Course, k: usize, ok: bool)
    requires
        soundness::is_field(f),
        soundness::is_sound(f, c.board),
        k < c.board.phase.len(),
    ensures
        c.board.phase[k as int] == Phase::Held ==> {
            &&& soundness::is_sound(f, board::found_clean(f, c, k).board)
            &&& soundness::is_sound(f, board::found_dirty(f, limits, c, k).0.board)
            &&& soundness::is_sound(f, board::started(limits, c, k).board)
            &&& soundness::is_sound(f, board::put_back(c, k).board)
        },
        c.board.phase[k as int] == Phase::Running ==> soundness::is_sound(
            f,
            board::ended(f, limits, c, k, ok).board,
        ),
{
    let b = c.board;
    if b.phase[k as int] == Phase::Held {
        lemma_given_up_is_sound(f, b, k, true);
        lemma_other_phase_is_sound(f, b, k, Phase::Running);
        lemma_other_phase_is_sound(f, b, k, Phase::Ready);
        if board::limit_of(f, k) is Some && !b.places.reserved[k as int] {
            lemma_other_phase_is_sound(f, b, k, Phase::Parked);
            soundness::lemma_admitted_is_sound(f, board::with_phase(b, k, Phase::Parked));
        }
    } else if b.phase[k as int] == Phase::Running {
        lemma_given_up_is_sound(f, b, k, ok);
    }
}

/// An edge is looked at only once all edges that it waits for have finished, and none
/// of them has failed.
pub proof fn law_edges_come_behind_what_they_wait_for(
    f: Field,
    limits: Limits,
    c: Course,
    k: usize,
    p: usize,
)
    requires
        soundness::is_field(f),
        soundness::is_sound(f, c.board),
        board::next(f, limits, c).1 == Step::Examine(k),
        p < f.told.len(),
        f.told[p as int].contains(k),
    ensures
        board::next(f, limits, c).0.board.phase[p as int] == Phase::Finished,
        !board::next(f, limits, c).0.board.broken[p as int],
{
    lemma_before_taking(f, c);
    let b = board_before_taking(f, c.board);
    let n = f.m.edges.len() as int;
    lemma_taken_is_sound(f, Course { board: b, ..c });
    assert(b.phase[k as int] != Phase::Blocked && b.phase[k as int] != Phase::Absent);
    assert(b.pending[k as int] == links::open_count(f.told, soundness::done(b.phase), k, n));
    soundness::lemma_nothing_open(f.told, soundness::done(b.phase), k, n, p as int);
    assert(b.failed[k as int] == soundness::is_spoiled(f, b, k));
    assert(!soundness::spoils(f, b, p as int, k));
}

proof fn lemma_cleared_keeps_finished(f: Field, b: Board, line: Seq<usize>, k: usize)
    requires
        soundness::is_field(f),
        soundness::is_sound(f, b),
        soundness::is_line(b, line),
        k < b.phase.len(),
        b.phase[k as int] == Phase::Finished,
    ensures
        board::cleared(f, b, line).phase[k as int] == Phase::Finished,
    decreases board::remaining(b.phase, b.phase.len() as int),
{
    if line.len() > 0 {
        soundness::lemma_next_line(f, b, line);
        assert(board::doing(b, Phase::Ready).contains(line[0]));
        soundness::lemma_finished_phases(f, b, line[0], true);
        let next = board::finished(f, b, line[0], true);
        assert(next.phase[k as int] == Phase::Finished);
        lemma_cleared_keeps_finished(f, next, soundness::next_line(f, b, line), k);
    }
}

/// An edge that has finished stays finished, whatever the build does next.
pub proof fn law_finished_edges_stay_finished(f: Field, limits: Limits, c: Course, k: usize)
    requires
        soundness::is_field(f),
        soundness::is_sound(f, c.board),
        k < c.board.phase.len(),
        c.board.phase[k as int] == Phase::Finished,
    ensures
        board::next(f, limits, c).0.board.phase[k as int] == Phase::Finished,
{
    let b = c.board;
    if c.control.top {
        if b.plan is Some {
            let first = board::reserved(f, b);
            soundness::lemma_places_are_sound(f, b, 0);
            soundness::lemma_without_idle_is_sound(f, first);
            lemma_cleared_keeps_finished(
                f,
                first,
                board::idle(f, first, board::ordered(f.weights, board::doing(first, Phase::Ready))),
                k,
            );
            let idle = board::without_idle(f, first);
            soundness::lemma_places_are_sound(f, idle, 0);
            soundness::lemma_admitted_is_sound(f, board::reserved(f, idle));
            assert(board::admitted(f, board::reserved(f, idle)).phase[k as int]
                == idle.phase[k as int]);
        }
    } else if c.control.left > 0 {
        lemma_before_taking(f, c);
        let after = board_before_taking(f, b);
        assert(after.phase[k as int] == Phase::Finished);
        let ready = board::doing(after, Phase::Ready);
        if ready != Set::<usize>::empty() {
            soundness::lemma_few_are_doing(f, after, Phase::Ready, seq![]);
            queue::lemma_first_exists(f.weights, ready);
            let j = queue::first(f.weights, ready);
            assert(ready.contains(j));
            if after.failed[j as int] {
                soundness::lemma_places_are_sound(f, after, j);
                soundness::lemma_finished_phases(f, board::released(f, after, j), j, false);
            }
        }
    }
}

/// An edge that has finished stays finished, whatever becomes of another.
pub proof fn law_events_keep_edges_finished(
    f: Field,
    limits: Limits,
    c: Course,
    j: usize,
    ok: bool,
    k: usize,
)
    requires
        soundness::is_field(f),
        soundness::is_sound(f, c.board),
        j < c.board.phase.len(),
        k < c.board.phase.len(),
        c.board.phase[k as int] == Phase::Finished,
    ensures
        c.board.phase[j as int] == Phase::Held ==> {
            &&& board::found_clean(f, c, j).board.phase[k as int] == Phase::Finished
            &&& board::found_dirty(f, limits, c, j).0.board.phase[k as int] == Phase::Finished
            &&& board::started(limits, c, j).board.phase[k as int] == Phase::Finished
            &&& board::put_back(c, j).board.phase[k as int] == Phase::Finished
        },
        c.board.phase[j as int] == Phase::Running ==> board::ended(
            f,
            limits,
            c,
            j,
            ok,
        ).board.phase[k as int] == Phase::Finished,
{
    let b = c.board;
    if b.phase[j as int] == Phase::Held || b.phase[j as int] == Phase::Running {
        soundness::lemma_places_are_sound(f, b, j);
        soundness::lemma_finished_phases(f, board::released(f, b, j), j, true);
        soundness::lemma_finished_phases(f, board::released(f, b, j), j, ok);
        assert(board::finished(f, board::released(f, b, j), j, true).phase[k as int]
            == Phase::Finished);
        assert(board::finished(f, board::released(f, b, j), j, ok).phase[k as int]
            == Phase::Finished);
    }
    if b.phase[j as int] == Phase::Held && board::limit_of(f, j) is Some
        && !b.places.reserved[j as int] {
        let waits = board::with_phase(b, j, Phase::Parked);
        lemma_other_phase_is_sound(f, b, j, Phase::Parked);
        soundness::lemma_admitted_is_sound(f, waits);
        assert(board::admitted(f, waits).phase[k as int] == waits.phase[k as int]);
    }
}

/// A command may be started only while fewer run than may.
pub proof fn law_commands_keep_within_jobs(f: Field, limits: Limits, c: Course, k: usize)
    requires
        board::found_dirty(f, limits, c, k).1 == Offer::Start,
        limits.jobs is Some,
    ensures
        c.control.running < limits.jobs->Some_0 || c.control.running == 0,
        !c.control.stopped,
{
}

/// With the last command that may run the round is over: no other edge is looked at before
/// a command has ended, not even a phony one.
pub proof fn law_full_round_waits_for_a_command(f: Field, limits: Limits, c: Course, k: usize)
    requires
        !c.control.top,
        c.control.running < usize::MAX,
        board::is_full(limits, c.control.running + 1),
    ensures
        ({
            let after = board::started(limits, c, k);
            let (later, step) = board::next(f, limits, after);
            step == board::Step::Wait && later.board == after.board
        }),
{
}

/// While edges have not finished, one of them can be looked at, waits for a place, is
/// being looked at or runs: nothing waits for ever for edges that wait for it.
pub proof fn law_something_can_be_done(f: Field, g: GraphView, list: Seq<usize>, b: Board)
    requires
        soundness::is_field(f),
        soundness::is_sound(f, b),
        closure::is_settled(g, list),
        f.m.edges == g.edges,
        links::all_told(g, list, f.told),
        forall|k: usize|
            k < b.phase.len() ==> (#[trigger] b.phase[k as int] == Phase::Absent
                <==> !list.contains(k)),
        board::remaining(b.phase, b.phase.len() as int) > 0,
    ensures
        exists|k: int| 0 <= k < b.phase.len() && soundness::is_free(#[trigger] b.phase[k]),
{
    let n = b.phase.len() as int;
    lemma_one_remains(b.phase, n);
    let k = choose|k: int|
        0 <= k < n && #[trigger] b.phase[k] != Phase::Absent && b.phase[k] != Phase::Finished;
    assert(b.phase[(k as usize) as int] != Phase::Absent);
    let i = choose|i: int| 0 <= i < list.len() && list[i] == k as usize;
    lemma_first_unfinished_is_free(f, g, list, b, i);
}

proof fn lemma_one_remains(phase: Seq<Phase>, n: int)
    requires
        0 <= n <= phase.len(),
        board::remaining(phase, n) > 0,
    ensures
        exists|k: int|
            0 <= k < n && #[trigger] phase[k] != Phase::Absent && phase[k] != Phase::Finished,
    decreases n,
{
    if n > 0 && (phase[n - 1] == Phase::Absent || phase[n - 1] == Phase::Finished) {
        lemma_one_remains(phase, n - 1);
    }
}

proof fn lemma_first_unfinished_is_free(
    f: Field,
    g: GraphView,
    list: Seq<usize>,
    b: Board,
    i: int,
)
    requires
        soundness::is_field(f),
        soundness::is_sound(f, b),
        closure::is_settled(g, list),
        f.m.edges == g.edges,
        links::all_told(g, list, f.told),
        forall|k: usize|
            k < b.phase.len() ==> (#[trigger] b.phase[k as int] == Phase::Absent
                <==> !list.contains(k)),
        0 <= i < list.len(),
        b.phase[list[i] as int] != Phase::Finished,
    ensures
        exists|k: int| 0 <= k < b.phase.len() && soundness::is_free(#[trigger] b.phase[k]),
    decreases i,
{
    let n = f.m.edges.len() as int;
    let k = list[i];
    assert(list.contains(k));
    assert(b.phase[k as int] != Phase::Absent);
    if b.phase[k as int] == Phase::Blocked {
        assert(b.pending[k as int] == links::open_count(f.told, soundness::done(b.phase), k, n));
        lemma_something_is_open(f.told, soundness::done(b.phase), k, n);
        let p = choose|p: int|
            0 <= p < n && #[trigger] f.told[p].contains(k) && !soundness::done(b.phase)[p];
        assert(links::are_told(g, list, p as usize, f.told[p]));
        lemma_place_is_earlier(g, list, i, p as usize, closure::names(g, k).len() as int);
        let x = choose|x: int| 0 <= x < i && #[trigger] list[x] == p as usize;
        lemma_first_unfinished_is_free(f, g, list, b, x);
    } else {
        assert(soundness::is_free(b.phase[k as int]));
    }
}

proof fn lemma_something_is_open(told: Seq<Seq<usize>>, finished: Seq<bool>, k: usize, n: int)
    requires
        links::open_count(told, finished, k, n) > 0,
    ensures
        exists|p: int| 0 <= p < n && #[trigger] told[p].contains(k) && !finished[p],
    decreases n,
{
    if n > 0 && !(!finished[n - 1] && told[n - 1].contains(k)) {
        lemma_something_is_open(told, finished, k, n - 1);
    }
}

proof fn lemma_place_is_earlier(g: GraphView, list: Seq<usize>, i: int, p: usize, n: int)
    requires
        closure::is_settled(g, list),
        0 <= i < list.len(),
        0 <= n <= closure::names(g, list[i]).len(),
        links::place(g, list[i], p, n) is Some,
    ensures
        exists|x: int| 0 <= x < i && #[trigger] list[x] == p,
    decreases n,
{
    if n > 0 {
        if closure::awaited(g, list[i], n - 1) == Some(p) {
            let before = list.take(i);
            let x = choose|x: int| 0 <= x < before.len() && before[x] == p;
            assert(list[x] == p);
        } else {
            lemma_place_is_earlier(g, list, i, p, n - 1);
        }
    }
}

} // verus!
