//! How far a build has come: what each edge is doing, what it waits for, and what a
//! build does next.
use crate::manifest;
use crate::manifest::ManifestView;
use crate::pools;
use crate::pools::Places;
use crate::queue;
use vstd::prelude::*;

verus! {

/// What an edge is doing.
#[derive(Clone, Copy, Debug, PartialEq, Eq, Structural)]
pub enum Phase {
    /// The build does not need it.
    Absent,
    /// It waits for other edges.
    Blocked,
    /// It can be looked at.
    Ready,
    /// It waits for a place in its pool.
    Parked,
    /// It is being looked at.
    Held,
    /// Its command runs.
    Running,
    Finished,
}

/// What stays the same during a build: the edges, those that wait for each edge,
/// their weights, and the pools that have limits.
#[verifier::ext_equal]
pub struct Field {
    pub m: ManifestView,
    pub windows: bool,
    pub told: Seq<Seq<usize>>,
    pub weights: Seq<usize>,
    pub pools: Seq<Seq<char>>,
}

/// How far a build has come.
#[verifier::ext_equal]
pub struct Board {
    /// What each edge is doing.
    pub phase: Seq<Phase>,
    /// How many edges each edge waits for.
    pub pending: Seq<usize>,
    /// Whether an edge that it waited for has failed.
    pub failed: Seq<bool>,
    /// Whether it has finished without success.
    pub broken: Seq<bool>,
    /// Edges that have become ready and have not been given places yet.
    pub fresh: Seq<usize>,
    pub places: Places,
    /// Which edges will run, once that is known.
    pub plan: Option<Seq<bool>>,
}

/// The edges that do something.
pub open spec fn doing(b: Board, phase: Phase) -> Set<usize> {
    Set::new(|k: usize| k < b.phase.len() && b.phase[k as int] == phase)
}

/// How many of the first `n` edges have not finished.
pub open spec fn remaining(phase: Seq<Phase>, n: int) -> nat
    decreases n,
{
    if n <= 0 {
        0
    } else {
        remaining(phase, n - 1) + (if phase[n - 1] == Phase::Absent || phase[n - 1]
            == Phase::Finished {
            0nat
        } else {
            1
        })
    }
}

/// How many of the first `n` edges run.
pub open spec fn running(phase: Seq<Phase>, n: int) -> nat
    decreases n,
{
    if n <= 0 {
        0
    } else {
        running(phase, n - 1) + (if phase[n - 1] == Phase::Running {
            1nat
        } else {
            0
        })
    }
}

pub open spec fn with_phase(b: Board, k: usize, phase: Phase) -> Board {
    Board { phase: b.phase.update(k as int, phase), ..b }
}

/// Those of the first `n` of `told` that wait for one edge only.
pub open spec fn woken(told: Seq<usize>, pending: Seq<usize>, n: int) -> Seq<usize>
    decreases n,
{
    if n <= 0 {
        seq![]
    } else if pending[told[n - 1] as int] == 1 {
        woken(told, pending, n - 1).push(told[n - 1])
    } else {
        woken(told, pending, n - 1)
    }
}

/// The board once edge `k` has finished and the first `n` of the edges that wait for
/// it have been told. An edge that waits for no other becomes ready.
pub open spec fn finished_to(f: Field, b: Board, k: usize, ok: bool, n: int) -> Board {
    let told = f.told[k as int].take(n);
    Board {
        phase: Seq::new(
            b.phase.len(),
            |d: int|
                if d == k {
                    Phase::Finished
                } else if told.contains(d as usize) && b.pending[d] == 1 {
                    Phase::Ready
                } else {
                    b.phase[d]
                },
        ),
        pending: Seq::new(
            b.pending.len(),
            |d: int|
                if told.contains(d as usize) {
                    (b.pending[d] - 1) as usize
                } else {
                    b.pending[d]
                },
        ),
        failed: Seq::new(
            b.failed.len(),
            |d: int| b.failed[d] || (!ok && told.contains(d as usize)),
        ),
        broken: b.broken.update(k as int, !ok),
        fresh: b.fresh + woken(f.told[k as int], b.pending, n),
        ..b
    }
}

/// The board once edge `k` has finished.
pub open spec fn finished(f: Field, b: Board, k: usize, ok: bool) -> Board {
    finished_to(f, b, k, ok, f.told[k as int].len() as int)
}

/// The board once edge `k` has given up its place in its pool.
pub open spec fn released(f: Field, b: Board, k: usize) -> Board {
    Board { places: pools::without_place(f.m, f.windows, k, b.places), ..b }
}

/// The board once the edges that have become ready have places where their pools
/// have room.
pub open spec fn reserved(f: Field, b: Board) -> Board {
    Board {
        places: pools::with_places(
            f.m,
            f.windows,
            b.plan->Some_0,
            b.fresh,
            b.fresh.len() as int,
            b.places,
        ),
        fresh: seq![],
        ..b
    }
}

/// The limited pool of edge `k` and how many of its edges may run.
pub open spec fn limit_of(f: Field, k: usize) -> Option<(Seq<char>, usize)> {
    pools::limited(f.m, f.m.edges[k as int], f.windows)
}

/// Whether edge `k`, which is ready, must wait for a place.
pub open spec fn needs_place(f: Field, b: Board, k: usize) -> bool {
    !b.places.reserved[k as int] && b.plan->Some_0[k as int] && limit_of(f, k) is Some
}

/// The board once the ready edges that need places wait for them.
pub open spec fn parked(f: Field, b: Board) -> Board {
    Board {
        phase: Seq::new(
            b.phase.len(),
            |k: int|
                if b.phase[k] == Phase::Ready && needs_place(f, b, k as usize) {
                    Phase::Parked
                } else {
                    b.phase[k]
                },
        ),
        ..b
    }
}

/// The edges that wait for a place in a pool.
pub open spec fn waiting(f: Field, b: Board, pool: Seq<char>) -> Set<usize> {
    Set::new(
        |k: usize|
            k < b.phase.len() && b.phase[k as int] == Phase::Parked && (limit_of(f, k) matches Some(
                (own, _),
            ) && own == pool),
    )
}

/// The board once edge `k` has a place in a pool.
pub open spec fn let_in(b: Board, k: usize, pool: Seq<char>) -> Board {
    Board {
        phase: b.phase.update(k as int, Phase::Ready),
        places: Places {
            reserved: b.places.reserved.update(k as int, true),
            usage: b.places.usage.insert(
                pool,
                (pools::held(b.places.usage, pool) + 1) as usize,
            ),
        },
        ..b
    }
}

/// The board once the first of the edges that wait for a place in a pool have it, as
/// far as there is room.
pub open spec fn admitted_to(f: Field, b: Board, pool: Seq<char>) -> Board
    decreases
            pools::room(f.m, Some(pool), usize::MAX) - pools::held(b.places.usage, pool),
{
    if waiting(f, b, pool) == Set::<usize>::empty() {
        b
    } else if pools::held(b.places.usage, pool) < pools::room(f.m, Some(pool), usize::MAX) {
        admitted_to(f, let_in(b, queue::first(f.weights, waiting(f, b, pool)), pool), pool)
    } else {
        Board {
            places: Places {
                usage: b.places.usage.insert(pool, pools::held(b.places.usage, pool)),
                ..b.places
            },
            ..b
        }
    }
}

/// The board once edges have been let in to the first `n` pools.
pub open spec fn admitted_to_pools(f: Field, b: Board, n: int) -> Board
    decreases n,
{
    if n <= 0 {
        b
    } else {
        admitted_to(f, admitted_to_pools(f, b, n - 1), f.pools[n - 1])
    }
}

/// The board once ready edges wait for places that they need and have them as far as
/// there is room.
pub open spec fn admitted(f: Field, b: Board) -> Board {
    admitted_to_pools(f, parked(f, b), f.pools.len() as int)
}

/// The edges of a set in the order in which they are run.
pub open spec fn ordered(weights: Seq<usize>, set: Set<usize>) -> Seq<usize>
    decreases set.len(),
{
    let k = queue::first(weights, set);
    if set.finite() && set.contains(k) {
        seq![k] + ordered(weights, set.remove(k))
    } else {
        seq![]
    }
}

/// Whether edge `k` is phony and there is nothing to be done for it.
pub open spec fn is_idle(f: Field, b: Board, k: usize) -> bool {
    let e = f.m.edges[k as int];
    e.rule == "phony"@ && !b.failed[k as int] && (!b.plan->Some_0[k as int] || manifest::inputs_of(
        e,
    ).len() == 0)
}

/// Those of `list` for which there is nothing to be done.
pub open spec fn idle(f: Field, b: Board, list: Seq<usize>) -> Seq<usize>
    decreases list.len(),
{
    if list.len() == 0 {
        seq![]
    } else if is_idle(f, b, list.last()) {
        idle(f, b, list.drop_last()).push(list.last())
    } else {
        idle(f, b, list.drop_last())
    }
}

/// The board once the edges of `line`, for which there is nothing to be done, have
/// finished, and behind them those that become ready and for which there is nothing
/// to be done.
pub open spec fn cleared(f: Field, b: Board, line: Seq<usize>) -> Board
    decreases remaining(b.phase, b.phase.len() as int),
{
    if line.len() == 0 {
        b
    } else {
        let next = finished(f, b, line[0], true);
        let new = doing(next, Phase::Ready).difference(doing(b, Phase::Ready));
        if remaining(next.phase, next.phase.len() as int) < remaining(
            b.phase,
            b.phase.len() as int,
        ) {
            cleared(f, next, line.skip(1) + idle(f, next, ordered(f.weights, new)))
        } else {
            next
        }
    }
}

/// The board once all edges for which there is nothing to be done have finished.
pub open spec fn without_idle(f: Field, b: Board) -> Board {
    cleared(f, b, idle(f, b, ordered(f.weights, doing(b, Phase::Ready))))
}

/// The bounds of a build: how many commands run at a time, if that is limited, after
/// how many failures no more are started, and whether none is run at all.
#[derive(Clone, Copy, Debug, PartialEq, Eq, Structural)]
pub struct Limits {
    pub jobs: Option<usize>,
    pub failures_allowed: usize,
    pub dry_run: bool,
}

/// Where a build is in going round the edges that are ready.
#[derive(Clone, Copy, Debug, PartialEq, Eq, Structural)]
pub struct Control {
    /// Whether a new round begins.
    pub top: bool,
    /// How many edges are still to be looked at in this round.
    pub left: usize,
    /// Whether something has been done in this round.
    pub moved: bool,
    /// How many commands run.
    pub running: usize,
    /// How many commands have failed.
    pub failures: usize,
    /// Whether no more commands are to be started.
    pub stopped: bool,
}

#[verifier::ext_equal]
pub struct Course {
    pub board: Board,
    pub control: Control,
}

/// What a build does next.
#[derive(Clone, Copy, Debug, PartialEq, Eq, Structural)]
pub enum Step {
    /// Go on.
    Again,
    /// Look at an edge.
    Examine(usize),
    /// Wait for a command to end.
    Wait,
    /// Stop: all is finished, or no more is to be started.
    Done,
    /// Give up: nothing can be done.
    Stuck,
}

/// The board when a round begins.
pub open spec fn begun(f: Field, b: Board) -> Board {
    if b.plan is Some {
        admitted(f, reserved(f, without_idle(f, reserved(f, b))))
    } else {
        b
    }
}

/// The course once the edges of a round have been looked at.
pub open spec fn rounded(c: Course) -> (Course, Step) {
    if c.control.running > 0 {
        (Course { control: Control { top: true, ..c.control }, ..c }, Step::Wait)
    } else if c.control.stopped {
        (c, Step::Done)
    } else if !c.control.moved {
        (c, Step::Stuck)
    } else {
        (Course { control: Control { top: true, ..c.control }, ..c }, Step::Again)
    }
}

/// What becomes of the first edge that is ready. One that waited for an edge that has
/// failed is not looked at.
pub open spec fn taken(f: Field, c: Course) -> (Course, Step) {
    let b = c.board;
    let ready = doing(b, Phase::Ready);
    let k = queue::first(f.weights, ready);
    let control = Control { left: (c.control.left - 1) as usize, ..c.control };
    if ready == Set::<usize>::empty() {
        rounded(c)
    } else if b.failed[k as int] {
        (
            Course {
                board: finished(f, released(f, b, k), k, false),
                control: Control { moved: true, ..control },
            },
            Step::Again,
        )
    } else {
        (Course { board: with_phase(b, k, Phase::Held), control }, Step::Examine(k))
    }
}

/// What a build does next.
pub open spec fn next(f: Field, limits: Limits, c: Course) -> (Course, Step) {
    let b = c.board;
    if c.control.top {
        if remaining(b.phase, b.phase.len() as int) == 0 {
            (c, Step::Done)
        } else {
            let after = begun(f, b);
            (
                Course {
                    board: after,
                    control: Control {
                        top: false,
                        left: if limits.dry_run {
                            usize::MAX
                        } else {
                            doing(after, Phase::Ready).len() as usize
                        },
                        moved: remaining(after.phase, after.phase.len() as int) < remaining(
                            b.phase,
                            b.phase.len() as int,
                        ),
                        ..c.control
                    },
                },
                Step::Again,
            )
        }
    } else if c.control.left == 0 {
        rounded(c)
    } else {
        let after = if b.plan is Some && b.fresh.len() > 0 {
            admitted(f, reserved(f, b))
        } else {
            b
        };
        taken(f, Course { board: after, ..c })
    }
}

/// The course once edge `k`, which was looked at, need not run.
pub open spec fn found_clean(f: Field, c: Course, k: usize) -> Course {
    Course {
        board: finished(f, released(f, c.board, k), k, true),
        control: Control { moved: true, ..c.control },
    }
}

/// What becomes of an edge that must run.
#[derive(Clone, Copy, Debug, PartialEq, Eq, Structural)]
pub enum Offer {
    /// It waits for a place in its pool.
    Parked,
    /// It is put back: no command can be started now.
    PutBack,
    /// Its command may be started.
    Start,
}

/// Whether so many commands run as may run at a time.
pub open spec fn is_full(limits: Limits, running: int) -> bool {
    limits.jobs matches Some(jobs) && running >= (if jobs == 0 {
        1
    } else {
        jobs
    })
}

/// The course once edge `k`, which was looked at, must run. The plan is known. Where no
/// more commands may run, the round is over: the edges behind this one wait for a command
/// to end, also those that need none.
pub open spec fn found_dirty(f: Field, limits: Limits, c: Course, k: usize) -> (Course, Offer) {
    let b = c.board;
    if limit_of(f, k) is Some && !b.places.reserved[k as int] {
        let after = admitted(f, with_phase(b, k, Phase::Parked));
        (
            Course {
                board: after,
                control: Control {
                    left: if !limits.dry_run && after.places.reserved[k as int] && c.control.left
                        < usize::MAX {
                        (c.control.left + 1) as usize
                    } else {
                        c.control.left
                    },
                    moved: true,
                    ..c.control
                },
            },
            Offer::Parked,
        )
    } else if c.control.stopped {
        (Course { board: with_phase(b, k, Phase::Ready), ..c }, Offer::PutBack)
    } else if is_full(limits, c.control.running as int) {
        (
            Course {
                board: with_phase(b, k, Phase::Ready),
                control: Control { left: 0, ..c.control },
            },
            Offer::PutBack,
        )
    } else {
        (c, Offer::Start)
    }
}

/// The course once the command of edge `k` has been started. With the last command that
/// may run the round is over.
pub open spec fn started(limits: Limits, c: Course, k: usize) -> Course {
    Course {
        board: with_phase(c.board, k, Phase::Running),
        control: Control {
            running: (c.control.running + 1) as usize,
            left: if is_full(limits, c.control.running + 1) {
                0
            } else {
                c.control.left
            },
            moved: true,
            ..c.control
        },
    }
}

/// The course once edge `k`, whose command was not started after all, is ready. The round
/// is over where there is a command to wait for.
pub open spec fn put_back(c: Course, k: usize) -> Course {
    Course {
        board: with_phase(c.board, k, Phase::Ready),
        control: Control {
            left: if c.control.running > 0 {
                0
            } else {
                c.control.left
            },
            ..c.control
        },
    }
}

/// The course once the command of edge `k` has ended.
pub open spec fn ended(f: Field, limits: Limits, c: Course, k: usize, ok: bool) -> Course {
    let failures = if ok || c.control.failures == usize::MAX {
        c.control.failures
    } else {
        (c.control.failures + 1) as usize
    };
    Course {
        board: finished(f, released(f, c.board, k), k, ok),
        control: Control {
            running: (c.control.running - 1) as usize,
            failures,
            stopped: c.control.stopped || (!ok && limits.failures_allowed != 0 && failures
                >= limits.failures_allowed),
            ..c.control
        },
    }
}

} // verus!
