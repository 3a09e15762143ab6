//! How long a build will take, by the times that its edges took before, and how fast
//! it is now.
use crate::text;
use std::collections::VecDeque;
use vstd::prelude::*;

verus! {

/// What is known of the edges of a build. Times are in milliseconds.
#[derive(Clone, Copy)]
pub struct ProgressPrediction {
    pub total_edges: usize,
    pub finished_edges: usize,
    /// How long the finished edges have taken.
    pub cpu_time_ms: u64,
    /// Of how many edges it is known how long they took before.
    pub predictable_edges_total: usize,
    pub predictable_edges_remaining: usize,
    /// How long those edges took before.
    pub predictable_cpu_time_total_ms: u64,
    pub predictable_cpu_time_remaining_ms: u64,
    pub unpredictable_edges_remaining: usize,
}

/// What is left of `n` when `k` of it are gone.
pub open spec fn rest(n: int, k: int) -> int {
    if n < k {
        0
    } else {
        n - k
    }
}

/// Of how many edges it is known how long they took before.
pub open spec fn known(history: Seq<Option<u32>>) -> int
    decreases history.len(),
{
    if history.len() == 0 {
        0
    } else {
        known(history.drop_last()) + (if history.last() is Some {
            1int
        } else {
            0
        })
    }
}

/// How long the edges took before, as far as it is known.
pub open spec fn spent(history: Seq<Option<u32>>) -> int
    decreases history.len(),
{
    if history.len() == 0 {
        0
    } else {
        spent(history.drop_last()) + time(history.last())
    }
}

pub open spec fn time(previous: Option<u32>) -> int {
    match previous {
        Some(ms) => ms as int,
        None => 0,
    }
}

/// One edge less is to run.
pub open spec fn without_edge(p: ProgressPrediction, previous: Option<u32>) -> ProgressPrediction {
    let fewer = ProgressPrediction { total_edges: rest(p.total_edges as int, 1) as usize, ..p };
    match previous {
        Some(ms) => ProgressPrediction {
            predictable_edges_total: rest(p.predictable_edges_total as int, 1) as usize,
            predictable_edges_remaining: rest(p.predictable_edges_remaining as int, 1) as usize,
            predictable_cpu_time_total_ms: rest(
                p.predictable_cpu_time_total_ms as int,
                ms as int,
            ) as u64,
            predictable_cpu_time_remaining_ms: rest(
                p.predictable_cpu_time_remaining_ms as int,
                ms as int,
            ) as u64,
            ..fewer
        },
        None => ProgressPrediction {
            unpredictable_edges_remaining: rest(p.unpredictable_edges_remaining as int, 1) as usize,
            ..fewer
        },
    }
}

/// An edge has finished that took `ms` now.
pub open spec fn with_finished(
    p: ProgressPrediction,
    previous: Option<u32>,
    ms: u64,
) -> ProgressPrediction {
    let done = ProgressPrediction {
        finished_edges: (p.finished_edges + 1) as usize,
        cpu_time_ms: if p.cpu_time_ms + ms > u64::MAX {
            u64::MAX
        } else {
            (p.cpu_time_ms + ms) as u64
        },
        ..p
    };
    match previous {
        Some(before) => ProgressPrediction {
            predictable_edges_remaining: rest(p.predictable_edges_remaining as int, 1) as usize,
            predictable_cpu_time_remaining_ms: rest(
                p.predictable_cpu_time_remaining_ms as int,
                before as int,
            ) as u64,
            ..done
        },
        None => ProgressPrediction {
            unpredictable_edges_remaining: rest(p.unpredictable_edges_remaining as int, 1) as usize,
            ..done
        },
    }
}

/// Whether there is room in the counts for one more edge.
pub open spec fn has_room(p: ProgressPrediction, previous: Option<u32>) -> bool {
    &&& p.total_edges < usize::MAX
    &&& previous is Some ==> {
        &&& p.predictable_edges_total < usize::MAX
        &&& p.predictable_edges_remaining < usize::MAX
        &&& p.predictable_cpu_time_total_ms + time(previous) <= u64::MAX
        &&& p.predictable_cpu_time_remaining_ms + time(previous) <= u64::MAX
    }
    &&& previous is None ==> p.unpredictable_edges_remaining < usize::MAX
}

/// One more edge is to run.
pub open spec fn with_edge(p: ProgressPrediction, previous: Option<u32>) -> ProgressPrediction {
    let more = ProgressPrediction { total_edges: (p.total_edges + 1) as usize, ..p };
    match previous {
        Some(ms) => ProgressPrediction {
            predictable_edges_total: (p.predictable_edges_total + 1) as usize,
            predictable_edges_remaining: (p.predictable_edges_remaining + 1) as usize,
            predictable_cpu_time_total_ms: (p.predictable_cpu_time_total_ms + ms) as u64,
            predictable_cpu_time_remaining_ms: (p.predictable_cpu_time_remaining_ms + ms) as u64,
            ..more
        },
        None => ProgressPrediction {
            unpredictable_edges_remaining: (p.unpredictable_edges_remaining + 1) as usize,
            ..more
        },
    }
}

/// What is known before any of the edges of `history` has run.
pub open spec fn foretold(history: Seq<Option<u32>>) -> ProgressPrediction {
    ProgressPrediction {
        total_edges: history.len() as usize,
        finished_edges: 0,
        cpu_time_ms: 0,
        predictable_edges_total: known(history) as usize,
        predictable_edges_remaining: known(history) as usize,
        predictable_cpu_time_total_ms: spent(history) as u64,
        predictable_cpu_time_remaining_ms: spent(history) as u64,
        unpredictable_edges_remaining: (history.len() - known(history)) as usize,
    }
}

proof fn lemma_known(history: Seq<Option<u32>>)
    ensures
        0 <= known(history) <= history.len(),
        0 <= spent(history),
    decreases history.len(),
{
    if history.len() > 0 {
        lemma_known(history.drop_last());
    }
}

proof fn lemma_one_more(history: Seq<Option<u32>>, n: int)
    requires
        0 <= n < history.len(),
    ensures
        known(history.take(n + 1)) == known(history.take(n)) + (if history[n] is Some {
            1int
        } else {
            0
        }),
        spent(history.take(n + 1)) == spent(history.take(n)) + time(history[n]),
{
    assert(history.take(n + 1).drop_last() =~= history.take(n));
}

proof fn lemma_grows(history: Seq<Option<u32>>, n: int)
    requires
        0 <= n <= history.len(),
    ensures
        0 <= known(history.take(n)) <= known(history),
        0 <= spent(history.take(n)) <= spent(history),
        n - known(history.take(n)) <= history.len() - known(history),
    decreases history.len() - n,
{
    lemma_known(history.take(n));
    if n < history.len() {
        lemma_one_more(history, n);
        lemma_grows(history, n + 1);
    } else {
        assert(history.take(n) =~= history);
    }
}

impl ProgressPrediction {
    /// What is known of a build of no edges.
    pub fn new() -> (r: ProgressPrediction)
        ensures
            r == foretold(seq![]),
    {
        ProgressPrediction {
            total_edges: 0,
            finished_edges: 0,
            cpu_time_ms: 0,
            predictable_edges_total: 0,
            predictable_edges_remaining: 0,
            predictable_cpu_time_total_ms: 0,
            predictable_cpu_time_remaining_ms: 0,
            unpredictable_edges_remaining: 0,
        }
    }

    /// What is known before any of the edges has run that took the times of `history`
    /// before, as far as it is known.
    pub fn with_history(history: &[Option<u32>]) -> (r: ProgressPrediction)
        requires
            spent(history@) <= u64::MAX,
        ensures
            r == foretold(history@),
    {
        let mut r: ProgressPrediction = ProgressPrediction::new();
        let mut i: usize = 0;
        proof {
            assert(history@.take(0) =~= seq![]);
        }
        while i < history.len()
            invariant
                i <= history@.len(),
                spent(history@) <= u64::MAX,
                r == foretold(history@.take(i as int)),
            decreases history@.len() - i,
        {
            proof {
                lemma_one_more(history@, i as int);
                lemma_grows(history@, i as int);
                lemma_grows(history@, i + 1);
                lemma_known(history@.take(i as int));
                lemma_known(history@.take(i + 1));
            }
            r.add_edge(history[i]);
            i += 1;
        }
        proof {
            assert(history@.take(i as int) =~= history@);
        }
        r
    }

    /// Counts an edge that is to run.
    pub fn add_edge(&mut self, previous_elapsed: Option<u32>)
        requires
            has_room(*old(self), previous_elapsed),
        ensures
            *final(self) == with_edge(*old(self), previous_elapsed),
    {
        self.total_edges = self.total_edges + 1;
        match previous_elapsed {
            Some(ms) => {
                self.predictable_edges_total = self.predictable_edges_total + 1;
                self.predictable_edges_remaining = self.predictable_edges_remaining + 1;
                self.predictable_cpu_time_total_ms = self.predictable_cpu_time_total_ms + ms as u64;
                self.predictable_cpu_time_remaining_ms =
                    self.predictable_cpu_time_remaining_ms + ms as u64;
            },
            None => {
                self.unpredictable_edges_remaining = self.unpredictable_edges_remaining + 1;
            },
        }
    }

    /// Counts an edge no longer that turned out to be clean.
    pub fn remove_edge(&mut self, previous_elapsed: Option<u32>)
        ensures
            *final(self) == without_edge(*old(self), previous_elapsed),
    {
        self.total_edges = self.total_edges.saturating_sub(1);
        match previous_elapsed {
            Some(ms) => {
                self.predictable_edges_total = self.predictable_edges_total.saturating_sub(1);
                self.predictable_edges_remaining =
                    self.predictable_edges_remaining.saturating_sub(1);
                self.predictable_cpu_time_total_ms =
                    self.predictable_cpu_time_total_ms.saturating_sub(ms as u64);
                self.predictable_cpu_time_remaining_ms =
                    self.predictable_cpu_time_remaining_ms.saturating_sub(ms as u64);
            },
            None => {
                self.unpredictable_edges_remaining =
                    self.unpredictable_edges_remaining.saturating_sub(1);
            },
        }
    }

    /// Counts an edge as finished that took `elapsed_ms` now.
    pub fn finish_edge(&mut self, previous_elapsed: Option<u32>, elapsed_ms: u64)
        requires
            old(self).finished_edges < usize::MAX,
        ensures
            *final(self) == with_finished(*old(self), previous_elapsed, elapsed_ms),
    {
        self.finished_edges = self.finished_edges + 1;
        self.cpu_time_ms = self.cpu_time_ms.saturating_add(elapsed_ms);
        match previous_elapsed {
            Some(ms) => {
                self.predictable_edges_remaining =
                    self.predictable_edges_remaining.saturating_sub(1);
                self.predictable_cpu_time_remaining_ms =
                    self.predictable_cpu_time_remaining_ms.saturating_sub(ms as u64);
            },
            None => {
                self.unpredictable_edges_remaining =
                    self.unpredictable_edges_remaining.saturating_sub(1);
            },
        }
    }
}

/// An edge that was counted and is counted no longer leaves no trace.
pub proof fn law_removed_edge_leaves_no_trace(p: ProgressPrediction, previous: Option<u32>)
    requires
        has_room(p, previous),
    ensures
        without_edge(with_edge(p, previous), previous) == p,
{
}

/// What is known once the first `n` edges of `history` have finished.
pub open spec fn progressed(
    history: Seq<Option<u32>>,
    times: Seq<u64>,
    n: int,
) -> ProgressPrediction
    decreases n,
{
    if n <= 0 {
        foretold(history)
    } else {
        with_finished(progressed(history, times, n - 1), history[n - 1], times[n - 1])
    }
}

/// At every moment of a build the edges and the time that are left are those of the
/// edges that have not finished.
pub proof fn law_what_is_left_is_unfinished(history: Seq<Option<u32>>, times: Seq<u64>, n: int)
    requires
        0 <= n <= history.len() <= usize::MAX,
        history.len() == times.len(),
        spent(history) <= u64::MAX,
    ensures
        progressed(history, times, n).total_edges == history.len(),
        progressed(history, times, n).finished_edges == n,
        progressed(history, times, n).predictable_edges_remaining == known(history) - known(
            history.take(n),
        ),
        progressed(history, times, n).predictable_cpu_time_remaining_ms == spent(history) - spent(
            history.take(n),
        ),
        progressed(history, times, n).unpredictable_edges_remaining == (history.len() - known(
            history,
        )) - (n - known(history.take(n))),
    decreases n,
{
    lemma_known(history);
    if n > 0 {
        law_what_is_left_is_unfinished(history, times, n - 1);
        lemma_one_more(history, n - 1);
        lemma_grows(history, n - 1);
        lemma_grows(history, n);
    } else {
        assert(history.take(0) =~= seq![]);
    }
}

/// Once every edge has finished nothing is left.
pub proof fn law_finished_build_has_nothing_left(history: Seq<Option<u32>>, times: Seq<u64>)
    requires
        history.len() <= usize::MAX,
        history.len() == times.len(),
        spent(history) <= u64::MAX,
    ensures
        ({
            let p = progressed(history, times, history.len() as int);
            &&& p.finished_edges == p.total_edges
            &&& p.predictable_edges_remaining == 0
            &&& p.predictable_cpu_time_remaining_ms == 0
            &&& p.unpredictable_edges_remaining == 0
        }),
{
    law_what_is_left_is_unfinished(history, times, history.len() as int);
    assert(history.take(history.len() as int) =~= history);
}

/// Whether two averages are less than ten times one another: `a` over `m` and `b`
/// over `n`.
pub open spec fn are_close(a: int, m: int, b: int, n: int) -> bool {
    a * n < 10 * (b * m) && b * m < 10 * (a * n)
}

/// Whether the times that edges took before are told apart from those that they take
/// now: enough edges have finished, in enough time.
pub open spec fn has_evidence(p: ProgressPrediction, wall_ms: u64) -> bool {
    &&& p.total_edges != 0
    &&& p.finished_edges != 0
    &&& wall_ms >= 15000
    &&& 20 * p.finished_edges >= p.total_edges
}

/// Whether the times that edges took before are taken for those that they will take.
pub open spec fn uses_history(p: ProgressPrediction, wall_ms: u64) -> bool {
    &&& p.predictable_edges_remaining != 0
    &&& p.predictable_cpu_time_remaining_ms != 0
    &&& has_evidence(p, wall_ms) ==> are_close(
        p.cpu_time_ms as int,
        p.finished_edges as int,
        p.predictable_cpu_time_total_ms as int,
        p.predictable_edges_total as int,
    )
}

/// How many edges have finished or will take a time that is known.
pub open spec fn foreseen_edges(p: ProgressPrediction, history: bool) -> int {
    p.finished_edges + (if history {
        p.predictable_edges_remaining as int
    } else {
        0
    })
}

/// How long those edges have taken and will take.
pub open spec fn foreseen_time(p: ProgressPrediction, history: bool) -> int {
    p.cpu_time_ms + (if history {
        p.predictable_cpu_time_remaining_ms as int
    } else {
        0
    })
}

/// How many edges will take a time that is not known.
pub open spec fn unforeseen_edges(p: ProgressPrediction, history: bool) -> int {
    if history {
        p.unpredictable_edges_remaining as int
    } else {
        rest(p.total_edges as int, p.finished_edges as int)
    }
}

/// How much of a build is done, as a fraction: the time that has been spent of the
/// time that is foreseen, where each edge of which no time is known takes the average
/// of the others.
pub open spec fn completed(p: ProgressPrediction, history: bool) -> (int, int) {
    (
        p.cpu_time_ms * foreseen_edges(p, history),
        foreseen_time(p, history) * (foreseen_edges(p, history) + unforeseen_edges(p, history)),
    )
}

/// Whether the counts and the times can be summed up.
pub open spec fn can_be_summed(p: ProgressPrediction) -> bool {
    &&& p.finished_edges + p.predictable_edges_remaining + p.unpredictable_edges_remaining
        <= usize::MAX
    &&& p.cpu_time_ms + p.predictable_cpu_time_remaining_ms <= u64::MAX
}

proof fn lemma_product(a: int, b: int)
    requires
        0 <= a <= u64::MAX,
        0 <= b <= u64::MAX,
    ensures
        0 <= a * b <= u128::MAX,
{
    assert(0 <= a * b <= 0xffff_ffff_ffff_ffff * 0xffff_ffff_ffff_ffff) by (nonlinear_arith)
        requires
            0 <= a <= 0xffff_ffff_ffff_ffff,
            0 <= b <= 0xffff_ffff_ffff_ffff,
    ;
}

fn product(a: u64, b: usize) -> (r: u128)
    ensures
        r == a * b,
{
    proof {
        lemma_product(a as int, b as int);
    }
    a as u128 * b as u128
}

fn is_under_tenfold(a: u128, b: u128) -> (r: bool)
    ensures
        r == (a < 10 * b),
{
    match b.checked_mul(10) {
        Some(tenfold) => a < tenfold,
        None => true,
    }
}

impl ProgressPrediction {
    /// Whether the times that edges took before are taken for those that they will
    /// take, in a build that has gone on for `wall_ms`.
    pub fn uses_history(&self, wall_ms: u64) -> (r: bool)
        ensures
            r == uses_history(*self, wall_ms),
    {
        if self.predictable_edges_remaining == 0 || self.predictable_cpu_time_remaining_ms == 0 {
            return false;
        }
        let enough: bool = match self.finished_edges.checked_mul(20) {
            Some(n) => n >= self.total_edges,
            None => true,
        };
        if self.total_edges == 0 || self.finished_edges == 0 || wall_ms < 15000 || !enough {
            return true;
        }
        let now: u128 = product(self.cpu_time_ms, self.predictable_edges_total);
        let before: u128 = product(self.predictable_cpu_time_total_ms, self.finished_edges);
        is_under_tenfold(now, before) && is_under_tenfold(before, now)
    }

    /// How much of a build is done that has gone on for `wall_ms`, as a fraction. Where
    /// nothing is known its denominator is zero.
    pub fn completed(&self, wall_ms: u64) -> (r: (u128, u128))
        requires
            can_be_summed(*self),
        ensures
            (r.0 as int, r.1 as int) == completed(*self, uses_history(*self, wall_ms)),
            r.0 <= r.1,
    {
        let history: bool = self.uses_history(wall_ms);
        let known: usize = if history {
            self.finished_edges + self.predictable_edges_remaining
        } else {
            self.finished_edges
        };
        let unknown: usize = if history {
            self.unpredictable_edges_remaining
        } else {
            self.total_edges.saturating_sub(self.finished_edges)
        };
        let time: u64 = if history {
            self.cpu_time_ms + self.predictable_cpu_time_remaining_ms
        } else {
            self.cpu_time_ms
        };
        proof {
            law_no_more_than_all_is_done(*self, history);
        }
        (product(self.cpu_time_ms, known), product(time, known + unknown))
    }
}

/// No build is done more than completely.
pub proof fn law_no_more_than_all_is_done(p: ProgressPrediction, history: bool)
    ensures
        0 <= completed(p, history).0 <= completed(p, history).1,
{
    let spent = p.cpu_time_ms as int;
    let known = foreseen_edges(p, history);
    let time = foreseen_time(p, history);
    let all = known + unforeseen_edges(p, history);
    assert(0 <= spent * known <= time * all) by (nonlinear_arith)
        requires
            0 <= spent <= time,
            0 <= known <= all,
    ;
}

/// A build whose edges have all finished is done completely.
pub proof fn law_finished_build_is_complete(
    history: Seq<Option<u32>>,
    times: Seq<u64>,
    wall_ms: u64,
)
    requires
        history.len() <= usize::MAX,
        history.len() == times.len(),
        spent(history) <= u64::MAX,
    ensures
        ({
            let p = progressed(history, times, history.len() as int);
            &&& can_be_summed(p)
            &&& completed(p, uses_history(p, wall_ms)).0 == completed(
                p,
                uses_history(p, wall_ms),
            ).1
        }),
{
    law_finished_build_has_nothing_left(history, times);
}

/// When the last few edges of a build finished: how many had finished then, and the
/// time in nanoseconds.
pub struct RateWindow {
    window: usize,
    times: VecDeque<(usize, u128)>,
}

/// The last `window` finishes once one more is noted. A count is noted once.
pub open spec fn noted(
    times: Seq<(usize, u128)>,
    window: usize,
    finished: usize,
    elapsed: u128,
) -> Seq<(usize, u128)> {
    if times.len() > 0 && times.last().0 == finished {
        times
    } else if times.len() == window {
        times.drop_first().push((finished, elapsed))
    } else {
        times.push((finished, elapsed))
    }
}

/// How many edges finished in which time, from the first finish of `times` to the
/// last, where that took any time.
pub open spec fn pace(times: Seq<(usize, u128)>) -> Option<(usize, u128)> {
    if times.len() > 0 && times.last().1 > times.first().1 {
        Some(
            (
                text::sat(rest(times.last().0 as int, times.first().0 as int) + 1),
                (times.last().1 - times.first().1) as u128,
            ),
        )
    } else {
        None
    }
}

impl RateWindow {
    pub closed spec fn view(&self) -> Seq<(usize, u128)> {
        self.times@
    }

    /// How many finishes are kept.
    pub closed spec fn window(&self) -> usize {
        self.window
    }

    pub open spec fn well_formed(&self) -> bool {
        1 <= self.window() <= 4096 && self.view().len() <= self.window()
    }

    /// A window that keeps as many finishes as commands run at a time.
    pub fn new(jobs: usize) -> (r: RateWindow)
        ensures
            r.well_formed(),
            r@ == Seq::<(usize, u128)>::empty(),
            r.window() == (if jobs < 1 {
                1
            } else if jobs > 4096 {
                4096
            } else {
                jobs
            }),
    {
        let window: usize = if jobs < 1 {
            1
        } else if jobs > 4096 {
            4096
        } else {
            jobs
        };
        RateWindow { window, times: VecDeque::new() }
    }

    /// Notes that `finished` edges have finished after `elapsed` nanoseconds.
    pub fn note(&mut self, finished: usize, elapsed: u128)
        requires
            old(self).well_formed(),
        ensures
            final(self).well_formed(),
            final(self).window() == old(self).window(),
            final(self)@ == noted(old(self)@, old(self).window(), finished, elapsed),
    {
        let n: usize = self.times.len();
        if n > 0 && self.times[n - 1].0 == finished {
            return;
        }
        if n == self.window {
            let _ = self.times.pop_front();
            proof {
                assert(self.times@ =~= old(self)@.drop_first());
            }
        }
        self.times.push_back((finished, elapsed));
    }

    /// How many edges have finished of late, and in which time.
    pub fn pace(&self) -> (r: Option<(usize, u128)>)
        ensures
            r == pace(self@),
    {
        let n: usize = self.times.len();
        if n == 0 {
            return None;
        }
        let (first_count, first_time) = self.times[0];
        let (last_count, last_time) = self.times[n - 1];
        if last_time > first_time {
            let count: usize = last_count.saturating_sub(first_count).saturating_add(1);
            Some((count, last_time - first_time))
        } else {
            None
        }
    }
}

} // verus!
